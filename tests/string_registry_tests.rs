use binary_logger::{get_string, register_string, StringRegistry};

const TEST_STR: &str = "Test string";
const DUPLICATE_STR: &str = "Duplicate string";
const UNICODE_STR: &str = "Hello, 世界! 🌍";

#[test]
fn test_string_registration() {
    let mut reg = StringRegistry::new();
    let id = register_string(&mut reg, TEST_STR);
    assert_eq!(get_string(&reg, id).unwrap(), TEST_STR);
}

#[test]
fn test_duplicate_registration() {
    let mut reg = StringRegistry::new();
    let id1 = register_string(&mut reg, DUPLICATE_STR);
    let id2 = register_string(&mut reg, DUPLICATE_STR);
    assert_eq!(id1, id2, "Same string should get same ID");
}

#[test]
fn test_multiple_strings() {
    let strings: [&str; 3] = ["First", "Second", "Third"];
    let mut reg = StringRegistry::new();
    let ids: Vec<u16> = strings.iter().map(|s| register_string(&mut reg, s)).collect();

    for i in 0..ids.len() {
        for j in i + 1..ids.len() {
            assert_ne!(ids[i], ids[j], "Different strings should get different IDs");
        }
    }

    for (s, id) in strings.iter().zip(ids.iter()) {
        assert_eq!(get_string(&reg, *id).unwrap(), *s);
    }
}

#[test]
fn test_invalid_id() {
    let reg = StringRegistry::new();
    assert!(get_string(&reg, u16::MAX).is_none(), "Invalid ID should return None");
}

#[test]
fn test_long_string() {
    let long_str = vec!["a"; 1000].join("");
    let mut reg = StringRegistry::new();
    let id = register_string(&mut reg, &long_str);
    assert_eq!(get_string(&reg, id).unwrap(), long_str);
}

#[test]
fn test_empty_string() {
    let mut reg = StringRegistry::new();
    let id = register_string(&mut reg, "");
    assert_eq!(get_string(&reg, id).unwrap(), "");
}

#[test]
fn test_unicode_string() {
    let mut reg = StringRegistry::new();
    let id = register_string(&mut reg, UNICODE_STR);
    assert_eq!(get_string(&reg, id).unwrap(), UNICODE_STR);
}

#[test]
fn test_many_registrations() {
    let strings: Vec<String> = (0..1000).map(|i| format!("String {}", i)).collect();
    let mut reg = StringRegistry::new();
    let mut ids = Vec::with_capacity(strings.len());

    for s in &strings {
        let id = register_string(&mut reg, s);
        ids.push((s, id));
    }

    for (s, id) in ids {
        assert_eq!(get_string(&reg, id).unwrap(), s);
    }
}

#[test]
fn empty_string_gets_nonzero_id() {
    let mut reg = StringRegistry::new();
    let id = register_string(&mut reg, "");
    assert_ne!(id, 0);
    assert_eq!(id, 1);
}

#[test]
fn ids_are_sequential_from_one() {
    let mut reg = StringRegistry::new();
    assert_eq!(register_string(&mut reg, "a"), 1);
    assert_eq!(register_string(&mut reg, "b"), 2);
    assert_eq!(register_string(&mut reg, "a"), 1);
    assert_eq!(register_string(&mut reg, "c"), 3);
    assert_eq!(reg.len(), 3);
    assert!(get_string(&reg, 0).is_none());
    assert!(get_string(&reg, 4).is_none());
    assert_eq!(get_string(&reg, 2), Some("b"));
}

#[test]
fn same_literal_from_two_sites_dedups() {
    let mut reg = StringRegistry::new();
    let first = register_string(&mut reg, "x");
    let second = register_string(&mut reg, "x");
    assert_eq!(first, second);
    for _ in 0..1000 {
        assert_eq!(register_string(&mut reg, "x"), first);
    }
    assert_eq!(reg.len(), 1);
}
