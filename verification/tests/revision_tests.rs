use xdp_dispatcher::revision::{current_rev, DirEntry};

fn entry(name: &str, is_dir: bool) -> DirEntry {
    DirEntry { name: name.to_string(), is_dir }
}

#[test]
fn empty_directory_is_revision_zero() {
    assert_eq!(current_rev(&Vec::new()), 0);
}

#[test]
fn takes_the_maximum() {
    let entries = vec![entry("1", true), entry("3", true), entry("2", true)];
    assert_eq!(current_rev(&entries), 3);
}

#[test]
fn skips_files_and_foreign_names() {
    let entries = vec![
        entry("dispatcher_link", false),
        entry("7", false),
        entry("notanumber", true),
        entry("2", true),
        entry("1x", true),
        entry("", true),
    ];
    assert_eq!(current_rev(&entries), 2);
}

#[test]
fn reads_leading_zeros() {
    let entries = vec![entry("007", true), entry("2", true)];
    assert_eq!(current_rev(&entries), 7);
}

#[test]
fn huge_numbers_are_foreign() {
    let entries = vec![entry("999999999999999999999999999999", true), entry("4", true)];
    assert_eq!(current_rev(&entries), 4);
}
