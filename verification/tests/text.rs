use bml::text::{char_in_class, chars_of, scan_run, split_lines, string_of, CharClass};

fn chars(text: &str) -> Vec<char> {
    text.chars().collect()
}

#[test]
fn classes_of_characters() {
    for c in [' ', '\t'] {
        assert!(char_in_class(c, CharClass::Space));
        assert!(!char_in_class(c, CharClass::Name));
        assert!(!char_in_class(c, CharClass::Bare));
        assert!(char_in_class(c, CharClass::Quoted));
        assert!(char_in_class(c, CharClass::Line));
        assert!(char_in_class(c, CharClass::NoFeed));
    }
    for c in ['a', 'z', 'A', 'Z', '0', '9', '-', '.'] {
        assert!(char_in_class(c, CharClass::Name));
        assert!(!char_in_class(c, CharClass::Space));
        assert!(char_in_class(c, CharClass::Bare));
    }
    for c in ['_', '/', ':', '=', '"', '@', '[', '`', '{', 'é', ',', '+'] {
        assert!(!char_in_class(c, CharClass::Name));
    }
    assert!(!char_in_class('"', CharClass::Bare));
    assert!(!char_in_class('"', CharClass::Quoted));
    assert!(char_in_class('"', CharClass::Line));
    for c in ['\n', '\r'] {
        assert!(!char_in_class(c, CharClass::Space));
        assert!(!char_in_class(c, CharClass::Line));
        assert!(!char_in_class(c, CharClass::Bare));
        assert!(!char_in_class(c, CharClass::Quoted));
    }
    assert!(!char_in_class('\n', CharClass::NoFeed));
    assert!(char_in_class('\r', CharClass::NoFeed));
}

#[test]
fn runs_of_a_class() {
    let text = chars(" \t name-1.x=\"v w\"\r\nrest");
    assert_eq!(scan_run(&text, 0, CharClass::Space), 3);
    assert_eq!(scan_run(&text, 3, CharClass::Space), 3);
    assert_eq!(scan_run(&text, 3, CharClass::Name), 11);
    assert_eq!(scan_run(&text, 13, CharClass::Quoted), 16);
    assert_eq!(scan_run(&text, 13, CharClass::Bare), 14);
    assert_eq!(scan_run(&text, 0, CharClass::Line), 17);
    assert_eq!(scan_run(&text, 0, CharClass::NoFeed), 18);
    assert_eq!(scan_run(&text, 19, CharClass::Line), 23);
    assert_eq!(scan_run(&text, 23, CharClass::Line), 23);
}

#[test]
fn characters_and_strings() {
    assert_eq!(chars_of("aé\n"), vec!['a', 'é', '\n']);
    assert!(chars_of("").is_empty());
    let text = chars("héllo");
    assert_eq!(string_of(&text, 1, 4), "éll");
    assert_eq!(string_of(&text, 2, 2), "");
    assert_eq!(string_of(&text, 0, 5), "héllo");
}

#[test]
fn lines_of_data() {
    assert!(split_lines(&chars("")).is_empty());
    assert_eq!(split_lines(&chars("\n")), vec![""]);
    assert_eq!(split_lines(&chars("a\nb\n")), vec!["a", "b"]);
    assert_eq!(split_lines(&chars("a\n\nb")), vec!["a", "", "b"]);
    assert_eq!(split_lines(&chars("a\r\nb\r")), vec!["a", "b\r"]);
    assert_eq!(split_lines(&chars("\r\n\r\r\n")), vec!["", "\r"]);
}
