use oxython::assoc::{contains_key, find_entry, get_entry, set_entry};

fn entries() -> Vec<(String, i64)> {
    vec![("a".to_string(), 1), ("b".to_string(), 2)]
}

#[test]
fn lookup_finds_first_entry() {
    let e = entries();
    assert_eq!(get_entry(&e, &"b".to_string()), Some(&2));
    assert_eq!(get_entry(&e, &"c".to_string()), None);
    assert_eq!(find_entry(&e, &"a".to_string()), Some(0));
    assert!(contains_key(&e, &"a".to_string()));
    assert!(!contains_key(&e, &"z".to_string()));
}

#[test]
fn set_replaces_existing_value_in_place() {
    let mut e = entries();
    set_entry(&mut e, "a".to_string(), 10);
    assert_eq!(e, vec![("a".to_string(), 10), ("b".to_string(), 2)]);
}

#[test]
fn set_appends_new_key() {
    let mut e = entries();
    set_entry(&mut e, "c".to_string(), 3);
    assert_eq!(e.len(), 3);
    assert_eq!(get_entry(&e, &"c".to_string()), Some(&3));
}

#[test]
fn read_after_write_and_other_keys_unchanged() {
    let mut e: Vec<(String, i64)> = Vec::new();
    set_entry(&mut e, "x".to_string(), 1);
    set_entry(&mut e, "y".to_string(), 2);
    set_entry(&mut e, "x".to_string(), 3);
    assert_eq!(get_entry(&e, &"x".to_string()), Some(&3));
    assert_eq!(get_entry(&e, &"y".to_string()), Some(&2));
    assert_eq!(e.len(), 2);
}

#[test]
fn duplicate_keys_read_the_first() {
    let e = vec![("k".to_string(), 1), ("k".to_string(), 2)];
    assert_eq!(get_entry(&e, &"k".to_string()), Some(&1));
    let mut e = e;
    set_entry(&mut e, "k".to_string(), 5);
    assert_eq!(e, vec![("k".to_string(), 5), ("k".to_string(), 2)]);
}
