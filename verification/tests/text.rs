use rust_cloud_config_client::text::{
    ascii_lower_vec, chars_of, contains_exec, decimal_string, is_space_char, string_of,
    skip_whitespace, trim_string,
};

#[test]
fn whitespace_matches_std() {
    for c in ['\t', '\n', '\u{b}', '\u{c}', '\r', ' ', '\u{85}', '\u{a0}', '\u{2003}', '\u{3000}', 'a', '_', '\u{200b}'] {
        assert_eq!(is_space_char(c), c.is_whitespace(), "{:?}", c);
    }
}

#[test]
fn trim_matches_std() {
    for s in ["", "  ", " a b ", "\u{3000}x\u{2029}", "\u{200b}y"] {
        assert_eq!(trim_string(s), s.trim());
    }
}

#[test]
fn lower_case_touches_ascii_only() {
    let lowered = ascii_lower_vec(&chars_of("AbÉ-Z"));
    assert_eq!(string_of(&lowered), "abÉ-z");
}

#[test]
fn substring_search() {
    let c = chars_of;
    assert!(contains_exec(&c("application/json"), &c("json")));
    assert!(!contains_exec(&c("js"), &c("json")));
    assert!(contains_exec(&c("x"), &c("")));
}

#[test]
fn decimal_rendering() {
    assert_eq!(decimal_string(0), "0");
    assert_eq!(decimal_string(42), "42");
    assert_eq!(decimal_string(1000), "1000");
}

#[test]
fn skipping_whitespace() {
    let cs = chars_of("k \t v");
    assert_eq!(skip_whitespace(&cs, 1), 4);
    assert_eq!(skip_whitespace(&cs, 0), 0);
    assert_eq!(skip_whitespace(&cs, 5), 5);
    assert_eq!(skip_whitespace(&cs, 9), 9);
}
