use spellkit::dictionary::{
    available_dictionary_locales, candidate_locale, dictionary_candidates,
    fallback_locale_names, first_complete, sorted_names, has_nul, locale_from_environment, search_directories,
};
use spellkit::locale::normalize_locale;

fn n(s: &str) -> (String, String) {
    normalize_locale(s)
}

fn pair(a: &str, b: &str) -> (String, String) {
    (a.to_string(), b.to_string())
}

#[test]
fn normalize_both_separators() {
    assert_eq!(n("en_US"), pair("en_US", "en-US"));
    assert_eq!(n("en-US"), pair("en_US", "en-US"));
}

#[test]
fn normalize_case_and_space() {
    assert_eq!(n("  EN_us\t"), pair("en_US", "en-US"));
    assert_eq!(n("De-de"), pair("de_DE", "de-DE"));
}

#[test]
fn normalize_drops_empty_fields() {
    assert_eq!(n("en__US"), pair("en_US", "en-US"));
    assert_eq!(n("-en-US_"), pair("en_US", "en-US"));
    assert_eq!(n(""), pair("", ""));
    assert_eq!(n(" _- "), pair("", ""));
}

#[test]
fn normalize_keeps_later_fields() {
    assert_eq!(n("sr_latn_rs"), pair("sr_LATN_rs", "sr-LATN-rs"));
    assert_eq!(n("fr"), pair("fr", "fr"));
    assert_eq!(n("zz_ZZ"), pair("zz_ZZ", "zz-ZZ"));
}

#[test]
fn normalize_separator_law_example() {
    assert_eq!(n("pt-br"), n("pt_br"));
    assert_eq!(n(" x-y-z "), n(" x_y_z "));
}

#[test]
fn candidates_in_search_order() {
    let locales = vec!["de_DE".to_string(), "en_US".to_string()];
    let c = dictionary_candidates(&None, &locales);
    assert_eq!(c.len(), 8);
    assert_eq!(
        c[0],
        pair("/usr/share/hunspell/de_DE.aff", "/usr/share/hunspell/de_DE.dic")
    );
    assert_eq!(
        c[1],
        pair("/usr/share/hunspell/en_US.aff", "/usr/share/hunspell/en_US.dic")
    );
    assert_eq!(
        c[2],
        pair("/usr/share/myspell/dicts/de_DE.aff", "/usr/share/myspell/dicts/de_DE.dic")
    );
    assert_eq!(
        c[7],
        pair("/usr/local/share/hunspell/en_US.aff", "/usr/local/share/hunspell/en_US.dic")
    );
}

#[test]
fn candidates_match_path_join() {
    let locales = vec!["/opt/dict/xx".to_string(), "en_GB".to_string(), "".to_string()];
    let c = dictionary_candidates(&None, &locales);
    let dirs = [
        "/usr/share/hunspell",
        "/usr/share/myspell/dicts",
        "/usr/share/myspell",
        "/usr/local/share/hunspell",
    ];
    for (d, dir) in dirs.iter().enumerate() {
        for (l, locale) in locales.iter().enumerate() {
            let aff = std::path::Path::new(dir).join(format!("{locale}.aff"));
            let dic = std::path::Path::new(dir).join(format!("{locale}.dic"));
            let got = &c[d * locales.len() + l];
            assert_eq!(std::path::Path::new(&got.0), aff.as_path());
            assert_eq!(std::path::Path::new(&got.1), dic.as_path());
        }
    }
    assert_eq!(c[0].0, "/opt/dict/xx.aff");
}

#[test]
fn fallback_locales_in_order() {
    assert_eq!(fallback_locale_names(), vec!["en_US".to_string(), "en_GB".to_string()]);
}

#[test]
fn nul_detection() {
    assert!(has_nul("foo\0bar"));
    assert!(!has_nul("foobar"));
    assert!(!has_nul(""));
}

fn s(v: &str) -> Option<String> {
    Some(v.to_string())
}

#[test]
fn environment_precedence() {
    assert_eq!(
        locale_from_environment(&s("de_DE.UTF-8"), &s("fr_FR"), &s("it_IT")),
        s("de_DE")
    );
    assert_eq!(locale_from_environment(&s(""), &s("fr_FR@euro"), &s("it_IT")), s("fr_FR"));
    assert_eq!(locale_from_environment(&None, &None, &s("pt-br.utf8")), s("pt_BR"));
    assert_eq!(locale_from_environment(&None, &None, &None), None);
    assert_eq!(locale_from_environment(&s(""), &s(""), &s("")), None);
    assert_eq!(locale_from_environment(&s(".UTF-8"), &None, &s("en_GB")), None);
    assert_eq!(locale_from_environment(&s("C"), &None, &None), s("c"));
}

#[test]
fn dicpath_directories_come_first() {
    let dicpath = s("/opt/dicts:/srv/dicts");
    let dirs = search_directories(&dicpath);
    assert_eq!(
        dirs,
        vec![
            "/opt/dicts".to_string(),
            "/srv/dicts".to_string(),
            "/usr/share/hunspell".to_string(),
            "/usr/share/myspell/dicts".to_string(),
            "/usr/share/myspell".to_string(),
            "/usr/local/share/hunspell".to_string(),
        ]
    );
    assert_eq!(search_directories(&s("::/a::")).len(), 5);
    assert_eq!(search_directories(&s("")).len(), 4);
    assert_eq!(search_directories(&None).len(), 4);
}

#[test]
fn find_dictionary_prefers_dicpath() {
    let locales = vec!["en_US".to_string()];
    let c = dictionary_candidates(&s("/opt/dicts:/srv/dicts"), &locales);
    assert_eq!(c.len(), 6);
    let on_disk = [
        "/opt/dicts/en_US.aff",
        "/opt/dicts/en_US.dic",
        "/usr/share/hunspell/en_US.aff",
        "/usr/share/hunspell/en_US.dic",
    ];
    let exists: Vec<(bool, bool)> = c
        .iter()
        .map(|(a, d)| (on_disk.contains(&a.as_str()), on_disk.contains(&d.as_str())))
        .collect();
    let k = first_complete(&exists).unwrap();
    assert_eq!(c[k], pair("/opt/dicts/en_US.aff", "/opt/dicts/en_US.dic"));
    assert_eq!(locales[candidate_locale(k, locales.len())], "en_US");
}

#[test]
fn first_complete_needs_both_files() {
    assert_eq!(first_complete(&vec![]), None);
    assert_eq!(first_complete(&vec![(true, false), (false, true)]), None);
    assert_eq!(first_complete(&vec![(true, false), (true, true), (true, true)]), Some(1));
}

#[test]
fn fallback_candidate_locale() {
    let locales = fallback_locale_names();
    let c = dictionary_candidates(&None, &locales);
    let mut exists = vec![(false, false); c.len()];
    exists[5] = (true, true);
    let k = first_complete(&exists).unwrap();
    assert_eq!(c[k].0, "/usr/share/myspell/en_GB.aff");
    assert_eq!(locales[candidate_locale(k, locales.len())], "en_GB");
}

#[test]
fn locales_from_dictionary_files() {
    let names: Vec<String> = ["de_DE.aff", "de_DE.dic", "en_US.dic", "README", ".dic", "x.dicx", "de_DE.dic", "fr.dic"]
        .iter()
        .map(|n| n.to_string())
        .collect();
    assert_eq!(
        available_dictionary_locales(&names),
        vec!["de_DE".to_string(), "en_US".to_string(), "fr".to_string()]
    );
}

#[test]
fn normalize_is_idempotent_on_ascii_names() {
    for locale in ["en_US", " en-us ", "zh-hant-tw", "DE", "sr_latn_rs", "x", ""] {
        let r = n(locale);
        assert_eq!(n(&r.0), r);
        assert_eq!(n(&r.1), r);
        assert_eq!(r.0, r.1.replace('-', "_"));
    }
}

#[test]
fn names_sorted_like_std() {
    let names: Vec<String> = ["en_US.dic", "de_DE.aff", "Zz", "ä.dic", "a", "", "de_DE.dic", "a", "日本", "é", "e"]
        .iter()
        .map(|n| n.to_string())
        .collect();
    let mut expected = names.clone();
    expected.sort();
    assert_eq!(sorted_names(&names), expected);
    assert!(sorted_names(&vec![]).is_empty());
}
