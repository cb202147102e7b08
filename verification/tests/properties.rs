use rust_cloud_config_client::properties::{has_continuation, parse, split_entry};
use rust_cloud_config_client::ConfigError;

fn chars(s: &str) -> Vec<char> {
    s.chars().collect()
}

fn reason_of(text: &str) -> (String, String) {
    match parse(text, "origin.properties") {
        Err(ConfigError::Properties { origin, reason }) => (origin, reason),
        other => panic!("expected a properties error, got {:?}", other),
    }
}

#[test]
fn parses_comments_continuations_and_unicode() {
    let text = "# comment\nserver.port=8080\napp.name=inventory-service\nwelcome.message=Hello,\\\n  World\nunicode.value=\\u0041\n";

    let parsed = parse(text, "test").expect("properties should parse");

    assert_eq!(parsed.get("server.port").unwrap(), "8080");
    assert_eq!(parsed.get("app.name").unwrap(), "inventory-service");
    assert_eq!(parsed.get("welcome.message").unwrap(), "Hello,World");
    assert_eq!(parsed.get("unicode.value").unwrap(), "A");
}

#[test]
fn accepts_every_separator_form() {
    let text = "a=1\nb:2\nc 3\nd = 4\ne  :  5\nf\t=\t6\ng\n";
    let parsed = parse(text, "test").unwrap();
    assert_eq!(parsed.get("a").unwrap(), "1");
    assert_eq!(parsed.get("b").unwrap(), "2");
    assert_eq!(parsed.get("c").unwrap(), "3");
    assert_eq!(parsed.get("d").unwrap(), "4");
    assert_eq!(parsed.get("e").unwrap(), "5");
    assert_eq!(parsed.get("f").unwrap(), "6");
    assert_eq!(parsed.get("g").unwrap(), "");
    assert_eq!(parsed.len(), 7);
}

#[test]
fn keys_come_out_in_order_and_the_last_entry_wins() {
    let parsed = parse("zeta=1\nalpha=2\nzeta=3\n", "test").unwrap();
    assert_eq!(parsed.len(), 2);
    assert_eq!(parsed.key_at(0), "alpha");
    assert_eq!(parsed.key_at(1), "zeta");
    assert_eq!(parsed.get("zeta").unwrap(), "3");
}

#[test]
fn skips_blank_lines_and_both_comment_markers() {
    let parsed = parse("\n   \n  # hash\n\t! bang\n  key=value\n", "test").unwrap();
    assert_eq!(parsed.len(), 1);
    assert_eq!(parsed.get("key").unwrap(), "value");
}

#[test]
fn handles_crlf_line_endings() {
    let parsed = parse("a=1\r\nb=two \\\r\n   parts\r\n", "test").unwrap();
    assert_eq!(parsed.get("a").unwrap(), "1");
    assert_eq!(parsed.get("b").unwrap(), "two parts");
}

#[test]
fn resolves_escapes() {
    let text = "key\\ with\\ spaces=v\ncolon\\:key=x\ntabs=a\\tb\\nc\\rd\\fe\nback=\\\\\nother=\\q\nuni=\\u00e9\\u20AC\n";
    let parsed = parse(text, "test").unwrap();
    assert_eq!(parsed.get("key with spaces").unwrap(), "v");
    assert_eq!(parsed.get("colon:key").unwrap(), "x");
    assert_eq!(parsed.get("tabs").unwrap(), "a\tb\nc\rd\u{c}e");
    assert_eq!(parsed.get("back").unwrap(), "\\");
    assert_eq!(parsed.get("other").unwrap(), "q");
    assert_eq!(parsed.get("uni").unwrap(), "é€");
}

#[test]
fn even_trailing_backslashes_do_not_continue() {
    let parsed = parse("a=x\\\\\nb=y\n", "test").unwrap();
    assert_eq!(parsed.get("a").unwrap(), "x\\");
    assert_eq!(parsed.get("b").unwrap(), "y");
}

#[test]
fn continuation_at_end_of_input_keeps_the_entry() {
    let parsed = parse("a=b\\", "test").unwrap();
    assert_eq!(parsed.get("a").unwrap(), "b");
}

#[test]
fn empty_input_has_no_entries() {
    assert!(parse("", "test").unwrap().is_empty());
}

#[test]
fn rejects_short_unicode_escape() {
    let (origin, reason) = reason_of("a=\\u12\n");
    assert_eq!(origin, "origin.properties");
    assert_eq!(reason, "line 1: expected four hexadecimal digits after \\u");
}

#[test]
fn rejects_unicode_escape_with_non_ascii_characters() {
    let (_, reason) = reason_of("ok=1\na=\\u00é1\n");
    assert_eq!(reason, "line 2: expected four hexadecimal digits after \\u");
}

#[test]
fn rejects_invalid_hex_digits() {
    let (_, reason) = reason_of("a=\\uZZZZ\n");
    assert_eq!(reason, "line 1: invalid unicode escape \\uZZZZ");
}

#[test]
fn rejects_surrogate_code_points() {
    let (_, reason) = reason_of("# c\n\nk\\uD800=v\n");
    assert_eq!(reason, "line 3: invalid unicode code point D800");
}

#[test]
fn reports_the_first_line_of_a_continued_entry() {
    let (_, reason) = reason_of("a=1\nb=x\\\n  \\uXYZW\n");
    assert_eq!(reason, "line 2: invalid unicode escape \\uXYZW");
}

#[test]
fn splits_entries_at_the_first_unescaped_separator() {
    let t = chars("a\\=b = c");
    let (key_end, value_start) = split_entry(&t);
    assert_eq!(key_end, 4);
    assert_eq!(value_start, 7);

    let t = chars("novalue");
    assert_eq!(split_entry(&t), (7, 7));
}

#[test]
fn counts_trailing_backslashes() {
    assert!(has_continuation(&chars("a\\")));
    assert!(!has_continuation(&chars("a\\\\")));
    assert!(has_continuation(&chars("\\\\\\")));
    assert!(!has_continuation(&chars("")));
}

#[test]
fn comment_lines_are_never_continued() {
    let parsed = parse("# note \\\nkey=value\n  ! other \\\nnext=1\n", "o").unwrap();
    assert_eq!(parsed.len(), 2);
    assert_eq!(parsed.get("key").unwrap(), "value");
    assert_eq!(parsed.get("next").unwrap(), "1");
}

#[test]
fn a_continued_entry_may_go_on_with_a_hash() {
    let parsed = parse("a=x\\\n  #y\n", "o").unwrap();
    assert_eq!(parsed.get("a").unwrap(), "x#y");
}
