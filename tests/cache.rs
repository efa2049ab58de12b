use file_explorer::cache::{PathSizeCache, SizeLookup};
use file_explorer::codec::{decode_records, encode_records};
use file_explorer::visibility::{entry_visible, is_hidden_or_system};

#[test]
fn miss_is_pending_and_asks_for_a_walk() {
    let mut c = PathSizeCache::new();
    assert_eq!(c.get_or_schedule(b"/a"), (SizeLookup::Pending, true));
    assert_eq!(c.len(), 0);
}

#[test]
fn insert_then_lookup_is_known() {
    let mut c = PathSizeCache::new();
    c.insert(b"/a".to_vec(), 7);
    assert_eq!(c.get_or_schedule(b"/a"), (SizeLookup::Known(7), false));
    c.insert(b"/b".to_vec(), 9);
    assert_eq!(c.get_or_schedule(b"/a"), (SizeLookup::Known(7), false));
    c.insert(b"/a".to_vec(), 8);
    assert_eq!(c.get_or_schedule(b"/a"), (SizeLookup::Known(8), false));
    assert_eq!(c.len(), 2);
}

#[test]
fn known_zero_is_not_pending() {
    let mut c = PathSizeCache::new();
    c.insert(b"/empty".to_vec(), 0);
    assert_eq!(c.get_or_schedule(b"/empty"), (SizeLookup::Known(0), false));
    assert_ne!(SizeLookup::Known(0), SizeLookup::Pending);
}

#[test]
fn two_lookups_before_the_walk_completes() {
    let mut c = PathSizeCache::new();
    assert_eq!(c.get_or_schedule(b"/a"), (SizeLookup::Pending, true));
    assert_eq!(c.get_or_schedule(b"/a"), (SizeLookup::Pending, false));
    c.insert(b"/a".to_vec(), 42);
    assert_eq!(c.get_or_schedule(b"/a"), (SizeLookup::Known(42), false));
    assert_eq!(c.get_or_schedule(b"/a"), (SizeLookup::Known(42), false));
}

#[test]
fn corrupted_bytes_load_as_empty() {
    let mut c = PathSizeCache::load(&[0xFF, 0x00]);
    assert_eq!(c.len(), 0);
    assert_eq!(c.get_or_schedule(b"/a"), (SizeLookup::Pending, true));
}

#[test]
fn truncated_record_loads_as_empty() {
    let mut c = PathSizeCache::new();
    c.insert(b"/a".to_vec(), 5);
    let bytes = c.save();
    let loaded = PathSizeCache::load(&bytes[..bytes.len() - 1]);
    assert_eq!(loaded.len(), 0);
}

#[test]
fn save_then_load_round_trips() {
    let mut c = PathSizeCache::new();
    c.insert(b"/home/u/docs".to_vec(), 1_500);
    c.insert(b"/home/u".to_vec(), 0);
    c.insert(b"/tmp/\xc3\xa9t\xc3\xa9".to_vec(), u64::MAX);
    let bytes = c.save();
    let mut loaded = PathSizeCache::load(&bytes);
    assert_eq!(loaded.len(), 3);
    assert_eq!(loaded.save(), bytes);
    assert_eq!(loaded.get_or_schedule(b"/home/u/docs"), (SizeLookup::Known(1_500), false));
    assert_eq!(loaded.get_or_schedule(b"/home/u"), (SizeLookup::Known(0), false));
    assert_eq!(loaded.get_or_schedule(b"/tmp/\xc3\xa9t\xc3\xa9"), (SizeLookup::Known(u64::MAX), false));
    assert_eq!(loaded.get_or_schedule(b"/other"), (SizeLookup::Pending, true));
}

#[test]
fn empty_cache_round_trips() {
    let c = PathSizeCache::new();
    let bytes = c.save();
    assert!(bytes.is_empty());
    assert_eq!(PathSizeCache::load(&bytes).len(), 0);
}

#[test]
fn saved_form_is_length_prefixed() {
    let mut c = PathSizeCache::new();
    c.insert(b"/a".to_vec(), 0x0102);
    assert_eq!(
        c.save(),
        vec![2, 0, 0, 0, 0, 0, 0, 0, b'/', b'a', 0x02, 0x01, 0, 0, 0, 0, 0, 0]
    );
}

#[test]
fn records_decode_as_encoded() {
    let records = vec![(b"/x".to_vec(), 3u64), (Vec::new(), 4u64)];
    let bytes = encode_records(&records);
    assert_eq!(decode_records(&bytes), Some(records));
    assert_eq!(decode_records(&[1, 0, 0, 0, 0, 0, 0]), None);
}

#[test]
fn hidden_and_system_attributes() {
    assert!(is_hidden_or_system(0x2));
    assert!(is_hidden_or_system(0x4));
    assert!(is_hidden_or_system(0x26));
    assert!(!is_hidden_or_system(0x20));
    assert!(!is_hidden_or_system(0));
}

#[test]
fn dot_names_are_hidden_unless_shown() {
    assert!(!entry_visible(b".git", false, false));
    assert!(entry_visible(b".git", false, true));
    assert!(entry_visible(b"src", false, false));
    assert!(!entry_visible(b"pagefile.sys", true, false));
    assert!(entry_visible(b"pagefile.sys", true, true));
    assert!(entry_visible(b"", false, false));
}
