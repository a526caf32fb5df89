use std::path::PathBuf;

use assistant_rs::args::MyPathFilter;

#[test]
fn path_filter_remembers_paths() {
    let mut filter = MyPathFilter::default();
    let a = PathBuf::from("/etc/xdg/assistant-rs/assistant.toml");
    let b = PathBuf::from("/home/me/.config/assistant-rs/assistant.toml");
    assert!(!filter.contains(&a));
    assert!(!filter.contains_or_insert(&a));
    assert!(filter.contains_or_insert(&a));
    assert!(filter.contains(&a));
    assert!(!filter.contains(&b));
    let filter = filter.with(&b);
    assert!(filter.contains(&b));
}

#[test]
fn path_filter_hashes_in_order() {
    let mut filter = MyPathFilter::default();
    for h in [5u128, 1, 9, 5, 3] {
        filter.contains_or_insert_hash(h);
    }
    assert!(filter.contains_hash(1));
    assert!(filter.contains_hash(3));
    assert!(filter.contains_hash(9));
    assert!(!filter.contains_hash(4));
    assert!(filter.contains_or_insert_hash(9));
    assert!(!filter.contains_or_insert_hash(0));
}
