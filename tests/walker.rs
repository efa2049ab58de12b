use file_explorer::walker::{DirectoryEntry, SizeWalker};
use std::collections::HashMap;

fn file(path: &str, len: u64) -> DirectoryEntry<String> {
    DirectoryEntry { path: path.to_string(), is_dir: false, len }
}

fn dir(path: &str) -> DirectoryEntry<String> {
    DirectoryEntry { path: path.to_string(), is_dir: true, len: 4096 }
}

/// Walks a static tree, listing each directory from the map.
fn walk(tree: &HashMap<String, Vec<DirectoryEntry<String>>>, root: &str) -> u64 {
    let mut w = SizeWalker::new(root.to_string());
    while let Some(d) = w.next_dir() {
        let listing: Vec<DirectoryEntry<String>> = match tree.get(&d) {
            Some(entries) => entries
                .iter()
                .map(|e| DirectoryEntry { path: e.path.clone(), is_dir: e.is_dir, len: e.len })
                .collect(),
            None => Vec::new(),
        };
        w.visit(listing);
    }
    w.total()
}

#[test]
fn empty_directory_totals_zero() {
    let mut tree = HashMap::new();
    tree.insert("/e".to_string(), Vec::new());
    assert_eq!(walk(&tree, "/e"), 0);
}

#[test]
fn flat_directory_sums_files() {
    let mut tree = HashMap::new();
    tree.insert("/d".to_string(), vec![file("/d/a", 100), file("/d/b", 200), file("/d/c", 300)]);
    assert_eq!(walk(&tree, "/d"), 600);
}

#[test]
fn nested_directories_are_walked() {
    let mut tree = HashMap::new();
    tree.insert("/r".to_string(), vec![file("/r/x", 10), dir("/r/s"), dir("/r/t")]);
    tree.insert("/r/s".to_string(), vec![file("/r/s/y", 20), dir("/r/s/u")]);
    tree.insert("/r/s/u".to_string(), vec![file("/r/s/u/z", 30)]);
    tree.insert("/r/t".to_string(), vec![]);
    assert_eq!(walk(&tree, "/r"), 60);
}

#[test]
fn walking_twice_gives_the_same_total() {
    let mut tree = HashMap::new();
    tree.insert("/r".to_string(), vec![file("/r/x", 7), dir("/r/s")]);
    tree.insert("/r/s".to_string(), vec![file("/r/s/y", 35)]);
    let first = walk(&tree, "/r");
    let second = walk(&tree, "/r");
    assert_eq!(first, 42);
    assert_eq!(first, second);
}

#[test]
fn unreadable_directory_counts_nothing() {
    let mut tree = HashMap::new();
    tree.insert("/r".to_string(), vec![file("/r/x", 5), dir("/r/locked")]);
    assert_eq!(walk(&tree, "/r"), 5);
}

#[test]
fn directories_are_handed_out_in_listing_order() {
    let mut w = SizeWalker::new("/r".to_string());
    assert_eq!(w.next_dir(), Some("/r".to_string()));
    w.visit(vec![dir("/r/a"), file("/r/f", 1), dir("/r/b")]);
    assert_eq!(w.next_dir(), Some("/r/a".to_string()));
    w.visit(Vec::new());
    assert_eq!(w.next_dir(), Some("/r/b".to_string()));
    w.visit(Vec::new());
    assert_eq!(w.next_dir(), None);
    assert_eq!(w.total(), 1);
}

#[test]
fn total_saturates_at_the_largest_size() {
    let mut w = SizeWalker::new("/big".to_string());
    assert_eq!(w.next_dir(), Some("/big".to_string()));
    w.visit(vec![file("/big/a", u64::MAX - 1), file("/big/b", 10)]);
    assert_eq!(w.next_dir(), None);
    assert_eq!(w.total(), u64::MAX);
}
