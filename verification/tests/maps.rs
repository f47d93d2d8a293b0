use nasty_top::strmap::StrMap;

fn map(entries: &[(&str, u64)]) -> StrMap<u64> {
    let mut m = StrMap::new();
    for (k, v) in entries {
        m.insert(k, *v);
    }
    m
}

fn keys(m: &StrMap<u64>) -> Vec<String> {
    (0..m.len()).map(|i| m.key_at(i).to_string()).collect()
}

#[test]
fn setting_a_key_changes_that_key_and_no_other() {
    let mut m = map(&[("b", 2), ("a", 1), ("c", 3)]);
    m.insert("b", 20);
    assert_eq!(m.get("a"), Some(&1));
    assert_eq!(m.get("b"), Some(&20));
    assert_eq!(m.get("c"), Some(&3));
    assert_eq!(m.get("d"), None);
    assert_eq!(m.len(), 3);
}

#[test]
fn keys_stay_in_order_and_unique() {
    let m = map(&[("sdb", 1), ("sda", 1), ("sdc", 1), ("sda", 2), ("", 0)]);
    assert_eq!(keys(&m), ["", "sda", "sdb", "sdc"]);
    assert_eq!(*m.value_at(1), 2);
}

#[test]
fn removing_a_key_leaves_the_others() {
    let mut m = map(&[("a", 1), ("b", 2), ("c", 3)]);
    m.remove("b");
    m.remove("x");
    assert_eq!(keys(&m), ["a", "c"]);
    assert!(!m.contains_key("b"));
    m.clear();
    assert!(m.is_empty());
}
