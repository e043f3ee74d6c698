use spellkit::suggest::{entries_to_read, entry_fetched, select_suggestions, take_entry};
use spellkit::utf16::{spelling_error_at, string_from_utf16, utf16_offset_to_utf8, wide_string};

#[test]
fn wide_string_matches_std() {
    for text in ["", "abc", "héllo", "a😀b", "日本語"] {
        let mut expected: Vec<u16> = text.encode_utf16().collect();
        expected.push(0);
        assert_eq!(wide_string(text), expected);
    }
    assert_eq!(wide_string("a😀"), vec![0x61, 0xd83d, 0xde00, 0]);
}

#[test]
fn decode_matches_std() {
    let cases: Vec<Vec<u16>> = vec![
        vec![],
        vec![0x61, 0x62],
        vec![0xd83d, 0xde00],
        vec![0xd83d],
        vec![0xde00, 0x61],
        vec![0x61, 0xd83d, 0x62],
        vec![0xe9, 0x65e5],
    ];
    for c in cases {
        assert_eq!(string_from_utf16(&c), String::from_utf16(&c).ok());
    }
}

#[test]
fn roundtrip_example() {
    let text = "grüße 😀 ok";
    let wide = wide_string(text);
    assert_eq!(string_from_utf16(&wide[..wide.len() - 1]), Some(text.to_string()));
}

#[test]
fn utf16_offsets_to_utf8() {
    let text = "a😀bé";
    assert_eq!(utf16_offset_to_utf8(text, 0), 0);
    assert_eq!(utf16_offset_to_utf8(text, 1), 1);
    assert_eq!(utf16_offset_to_utf8(text, 2), 5);
    assert_eq!(utf16_offset_to_utf8(text, 3), 5);
    assert_eq!(utf16_offset_to_utf8(text, 4), 6);
    assert_eq!(utf16_offset_to_utf8(text, 5), 8);
    assert_eq!(utf16_offset_to_utf8(text, 99), 8);
}

#[test]
fn windows_error_range() {
    let text = "one 😀asdf two";
    let wide = wide_string(text);
    let e = spelling_error_at(text, &wide, 6, 4).unwrap();
    assert_eq!(e.text(), "asdf");
    assert_eq!((e.start(), e.end()), (8, 12));
    assert_eq!(&text[e.start()..e.end()], "asdf");
    assert!(spelling_error_at(text, &wide, 5, 1).is_none());
}

#[test]
fn suggestions_are_capped() {
    let entries: Vec<Option<String>> = (0..15).map(|i| Some(format!("w{i}"))).collect();
    let got = select_suggestions(entries);
    assert_eq!(got.len(), 10);
    assert_eq!(got[0], "w0");
    assert_eq!(got[9], "w9");
}

#[test]
fn suggestions_skip_missing_entries() {
    let entries = vec![Some("a".to_string()), None, Some("b".to_string())];
    assert_eq!(select_suggestions(entries), vec!["a".to_string(), "b".to_string()]);
    let mut many: Vec<Option<String>> = vec![None; 10];
    many.push(Some("late".to_string()));
    assert!(select_suggestions(many).is_empty());
}

#[test]
fn entries_read_from_backend() {
    assert_eq!(entries_to_read(0, false), 0);
    assert_eq!(entries_to_read(-3, false), 0);
    assert_eq!(entries_to_read(4, true), 0);
    assert_eq!(entries_to_read(4, false), 4);
    assert_eq!(entries_to_read(25, false), 10);
}

#[test]
fn enumerated_suggestions_stop_at_ten() {
    let mut out = Vec::new();
    let mut more = true;
    let mut asked = 0;
    while more {
        asked += 1;
        more = take_entry(&mut out, Some(format!("s{asked}")), false);
    }
    assert_eq!(out.len(), 10);
    assert_eq!(asked, 10);
}

#[test]
fn enumerated_suggestions_stop_on_failure() {
    let mut out = Vec::new();
    assert!(take_entry(&mut out, None, false));
    assert!(out.is_empty());
    assert!(!take_entry(&mut out, Some("x".to_string()), true));
    assert_eq!(out, vec!["x".to_string()]);
    assert!(entry_fetched(1, false));
    assert!(!entry_fetched(0, false));
    assert!(!entry_fetched(1, true));
}

#[test]
fn decoded_ranges_address_their_words() {
    let text = "a😀bé ok";
    let wide = wide_string(text);
    let units = wide.len() - 1;
    for start in 0..=units {
        for end in start..=units {
            if let Some(e) = spelling_error_at(text, &wide, start, end - start) {
                assert!(text.is_char_boundary(e.start()) && text.is_char_boundary(e.end()));
                assert_eq!(&text[e.start()..e.end()], e.text());
            }
        }
    }
}
