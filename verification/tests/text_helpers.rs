use ssh_config_manager::text::{
    chars_of, contains_char, contains_str, decimal_string, eq_ignore_ascii_case, is_whitespace,
    string_from_chars, trim_str,
};

#[test]
fn whitespace_agrees_with_std_for_every_char() {
    for code in 0u32..0x11_0000 {
        if let Some(c) = char::from_u32(code) {
            assert_eq!(is_whitespace(c), c.is_whitespace(), "U+{:04X}", code);
        }
    }
}

#[test]
fn trim_agrees_with_std() {
    let samples = [
        "", " ", "abc", "  abc  ", "\tUser git\r", "\u{a0}x\u{3000}", "a b", "\n\n", " \u{2028}y z\u{85}",
    ];
    for s in samples {
        assert_eq!(trim_str(s), s.trim(), "{:?}", s);
    }
}

#[test]
fn ascii_case_comparison_agrees_with_std() {
    let pairs = [
        ("Host", "host"),
        ("HOSTNAME", "HostName"),
        ("User", "Port"),
        ("a", "ab"),
        ("[", "{"),
        ("@", "`"),
        ("Ä", "ä"),
        ("", ""),
        ("Z", "z"),
    ];
    for (a, b) in pairs {
        assert_eq!(eq_ignore_ascii_case(a, b), a.eq_ignore_ascii_case(b), "{:?} {:?}", a, b);
    }
}

#[test]
fn decimal_agrees_with_to_string() {
    for n in [0usize, 1, 9, 10, 11, 99, 100, 2222, 65535, 1_000_000, usize::MAX] {
        assert_eq!(decimal_string(n), n.to_string());
    }
}

#[test]
fn substring_search_agrees_with_std() {
    let cases = [
        ("github git", "git"),
        ("abc", ""),
        ("", "a"),
        ("aaab", "aab"),
        ("server", "vex"),
        ("ação", "çã"),
    ];
    for (h, n) in cases {
        assert_eq!(contains_str(h, n), h.contains(n), "{:?} {:?}", h, n);
    }
    assert!(contains_char("a\nb", '\n'));
    assert!(!contains_char("ab", '\r'));
}

#[test]
fn chars_and_ranges() {
    let cs = chars_of("ação");
    assert_eq!(cs, vec!['a', 'ç', 'ã', 'o']);
    assert_eq!(string_from_chars(&cs, 1, 3), "çã");
    assert_eq!(string_from_chars(&cs, 2, 2), "");
}
