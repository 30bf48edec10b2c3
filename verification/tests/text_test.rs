use oxython::text::{
    f_string_segments, has_newline_between, indent_at, is_valid_identifier, is_whitespace,
    FStringSegment,
};

#[test]
fn indentation_counts_spaces_and_tabs() {
    let src = "def f():\n    x = 1";
    assert_eq!(indent_at(src, 13), 4);
    assert_eq!(indent_at("\tx", 1), 4);
    assert_eq!(indent_at("  \t y", 4), 7);
    assert_eq!(indent_at("a\n  b", 4), 2);
}

#[test]
fn indentation_stops_at_first_other_character() {
    assert_eq!(indent_at("ab  c", 4), 0);
    assert_eq!(indent_at("x", 0), 0);
    assert_eq!(indent_at("  x  y", 5), 2);
}

#[test]
fn newline_detection() {
    assert!(has_newline_between("a\nb", 0, 3));
    assert!(!has_newline_between("a\nb", 2, 3));
    assert!(!has_newline_between("abc", 0, 3));
    assert!(!has_newline_between("a\nb", 1, 1));
}

#[test]
fn identifiers() {
    assert!(is_valid_identifier("x"));
    assert!(is_valid_identifier("_a1"));
    assert!(is_valid_identifier("A_b"));
    assert!(!is_valid_identifier("1a"));
    assert!(!is_valid_identifier(""));
    assert!(!is_valid_identifier("a-b"));
    assert!(!is_valid_identifier("é"));
}

#[test]
fn whitespace_is_unicode_white_space() {
    for c in [' ', '\t', '\n', '\r', '\u{b}', '\u{c}', '\u{85}', '\u{a0}', '\u{2003}', '\u{3000}'] {
        assert!(is_whitespace(c));
        assert!(c.is_whitespace());
    }
    for c in ['a', '_', '\u{200b}', '\u{feff}'] {
        assert_eq!(is_whitespace(c), c.is_whitespace());
    }
}

fn lit(s: &str) -> FStringSegment {
    FStringSegment::Literal(s.to_string())
}

fn id(s: &str) -> FStringSegment {
    FStringSegment::Identifier(s.to_string())
}

#[test]
fn f_strings_split_into_segments() {
    assert_eq!(
        f_string_segments("Hello {name}!"),
        Ok(vec![lit("Hello "), id("name"), lit("!")])
    );
    assert_eq!(f_string_segments("{a}{b}"), Ok(vec![id("a"), id("b")]));
    assert_eq!(f_string_segments(""), Ok(vec![]));
    assert_eq!(f_string_segments("plain"), Ok(vec![lit("plain")]));
}

#[test]
fn f_strings_escape_braces_and_trim_names() {
    assert_eq!(f_string_segments("{{x}}"), Ok(vec![lit("{x}")]));
    assert_eq!(f_string_segments("{ x }"), Ok(vec![id("x")]));
    assert_eq!(f_string_segments("a{{{b}}}c"), Ok(vec![lit("a{"), id("b"), lit("}c")]));
}

#[test]
fn f_strings_reject_malformed_templates() {
    assert_eq!(f_string_segments("{x"), Err(()));
    assert_eq!(f_string_segments("x}"), Err(()));
    assert_eq!(f_string_segments("{1x}"), Err(()));
    assert_eq!(f_string_segments("{}"), Err(()));
    assert_eq!(f_string_segments("{ }"), Err(()));
    assert_eq!(f_string_segments("{a{b}"), Err(()));
    assert_eq!(f_string_segments("{a.b}"), Err(()));
}
