use oxython::strings::{is_alnum, join_chars, join_strings};

fn strings(list: &[&str]) -> Vec<String> {
    list.iter().map(|s| s.to_string()).collect()
}

#[test]
fn join_puts_separator_between_parts() {
    assert_eq!(join_strings(&strings(&["a", "b", "c"]), &", ".to_string()), "a, b, c");
    assert_eq!(join_strings(&strings(&["solo"]), &"-".to_string()), "solo");
    assert_eq!(join_strings(&strings(&[]), &"-".to_string()), "");
    assert_eq!(join_strings(&strings(&["", ""]), &"+".to_string()), "+");
}

#[test]
fn join_chars_separates_characters() {
    assert_eq!(join_chars(&"abc".to_string(), &"-".to_string()), "a-b-c");
    assert_eq!(join_chars(&"".to_string(), &"-".to_string()), "");
    assert_eq!(join_chars(&"xy".to_string(), &"".to_string()), "xy");
}

#[test]
fn alnum_requires_non_empty_alphanumeric_text() {
    assert!(is_alnum(&"abc123".to_string()));
    assert!(is_alnum(&"Ünï2".to_string()));
    assert!(!is_alnum(&"".to_string()));
    assert!(!is_alnum(&"a b".to_string()));
    assert!(!is_alnum(&"a_b".to_string()));
}
