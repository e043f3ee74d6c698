use spellkit::chars::{is_white_space, is_word_char, len_utf16, len_utf8};
use spellkit::words::{spelling_errors, words};
use spellkit::Error;

fn triples(text: &str) -> Vec<(usize, usize, String)> {
    words(text)
}

#[test]
fn words_error_ranges() {
    let text = "one asdf two";
    let ws = triples(text);
    assert_eq!(
        ws,
        vec![
            (0, 3, "one".to_string()),
            (4, 8, "asdf".to_string()),
            (9, 12, "two".to_string())
        ]
    );
    assert_eq!(&text[ws[1].0..ws[1].1], "asdf");
}

#[test]
fn words_multiple() {
    let ws = triples("asdf hjkl qwer uiop");
    let texts: Vec<&str> = ws.iter().map(|w| w.2.as_str()).collect();
    assert_eq!(texts, vec!["asdf", "hjkl", "qwer", "uiop"]);
}

#[test]
fn words_empty_and_blank() {
    assert!(triples("").is_empty());
    assert!(triples("  ,.;  ").is_empty());
}

#[test]
fn words_keep_apostrophes_and_digits() {
    let ws = triples("I'm happy that this sentence has no errors.");
    let texts: Vec<&str> = ws.iter().map(|w| w.2.as_str()).collect();
    assert_eq!(texts, vec!["I'm", "happy", "that", "this", "sentence", "has", "no", "errors"]);
    let ws = triples("r2d2, rock'n'roll!");
    assert_eq!(ws, vec![(0, 4, "r2d2".to_string()), (6, 17, "rock'n'roll".to_string())]);
}

#[test]
fn words_use_utf8_byte_offsets() {
    let text = "héllo wörld 日本語";
    let ws = triples(text);
    assert_eq!(ws.len(), 3);
    assert_eq!((ws[0].0, ws[0].1), (0, 6));
    assert_eq!((ws[1].0, ws[1].1), (7, 13));
    assert_eq!((ws[2].0, ws[2].1), (14, 23));
    for w in &ws {
        assert_eq!(&text[w.0..w.1], w.2.as_str());
    }
}

#[test]
fn words_single_word_to_the_end() {
    let text = "beleeve";
    let ws = triples(text);
    assert_eq!(ws, vec![(0, 7, "beleeve".to_string())]);
    assert_eq!(&text[ws[0].0..ws[0].1], "beleeve");
}

#[test]
fn spelling_errors_keep_only_rejected_words() {
    let ws = triples("one asdf two qwer");
    let verdicts = vec![Some(true), Some(false), None, Some(false)];
    let errs = spelling_errors(&ws, &verdicts);
    assert_eq!(errs.len(), 2);
    assert_eq!(errs[0].text(), "asdf");
    assert_eq!((errs[0].start(), errs[0].end()), (4, 8));
    assert_eq!(errs[1].text(), "qwer");
    assert_eq!((errs[1].start(), errs[1].end()), (13, 17));
}

#[test]
fn spelling_errors_none_when_all_correct() {
    let ws = triples("I'm happy");
    let errs = spelling_errors(&ws, &vec![Some(true), Some(true)]);
    assert!(errs.is_empty());
}

#[test]
fn word_chars_agree_with_std() {
    for c in ['a', 'Z', '0', '\'', 'é', '日', '٣'] {
        assert!(is_word_char(c));
    }
    for c in [' ', '-', '.', '\0', '\n', '"'] {
        assert!(!is_word_char(c));
    }
}

#[test]
fn white_space_agrees_with_std() {
    let mut c: u32 = 0;
    while c <= 0x10ffff {
        if let Some(ch) = char::from_u32(c) {
            assert_eq!(is_white_space(ch), ch.is_whitespace(), "{:#x}", c);
        }
        c += 1;
    }
}

#[test]
fn widths_agree_with_std() {
    let mut c: u32 = 0;
    while c <= 0x10ffff {
        if let Some(ch) = char::from_u32(c) {
            assert_eq!(len_utf8(ch), ch.len_utf8());
            assert_eq!(len_utf16(ch), ch.len_utf16());
        }
        c += 0x7;
    }
}

#[test]
fn error_message() {
    assert_eq!(Error::Unavailable.to_string(), "spell checker unavailable");
}

#[test]
fn error_range_slices_to_word() {
    let text = "ça asdf één";
    let ws = triples(text);
    let errs = spelling_errors(&ws, &vec![Some(false), Some(false), Some(false)]);
    assert_eq!(errs.len(), 3);
    for e in &errs {
        assert_eq!(&text[e.range()], e.text());
        assert_eq!(e.range(), e.start()..e.end());
        assert!(text.is_char_boundary(e.start()) && text.is_char_boundary(e.end()));
    }
}

#[test]
fn errors_are_rejected_words() {
    let text = "I havv a speling error";
    let ws = triples(text);
    let accepts = |w: &str| w != "havv" && w != "speling";
    let verdicts: Vec<Option<bool>> = ws.iter().map(|w| Some(accepts(&w.2))).collect();
    let errs = spelling_errors(&ws, &verdicts);
    let got: Vec<(usize, usize, String)> =
        errs.iter().map(|e| (e.start(), e.end(), e.text().to_string())).collect();
    let expected: Vec<(usize, usize, String)> =
        ws.into_iter().filter(|w| !accepts(&w.2)).collect();
    assert_eq!(got, expected);
    assert_eq!(got, vec![(2, 6, "havv".to_string()), (9, 16, "speling".to_string())]);
}

#[test]
fn words_never_hold_nul() {
    let ws = triples("foo\0bar ba\0z");
    let texts: Vec<&str> = ws.iter().map(|w| w.2.as_str()).collect();
    assert_eq!(texts, vec!["foo", "bar", "ba", "z"]);
    assert!(ws.iter().all(|w| !w.2.contains('\0')));
}
