use dupdirs::checksum::{fingerprint, get_crc32_checksum};
use dupdirs::index::{load_files_info, Index};
use dupdirs::record::{FileRecord, ScannedFile};

fn record(directory: &str, name: &str, size: usize) -> FileRecord {
    FileRecord {
        path: format!("{}/{}", directory, name),
        size,
        directory: directory.to_string(),
    }
}

fn scanned(directory: &str, name: &str, content: &[u8]) -> ScannedFile {
    ScannedFile { record: record(directory, name, content.len()), content: Some(content.to_vec()) }
}

fn mirrors(index: &Index, directories: &[&str], prints: &[u64]) {
    for d in directories {
        for f in prints {
            let under_print = index.directories_with(*f).iter().any(|x| x == d);
            let under_dir = index.fingerprints_in(d).contains(f);
            assert_eq!(under_print, under_dir);
            assert_eq!(index.contains(d, *f), under_dir);
        }
    }
}

#[test]
fn new_index_is_empty() {
    let index = Index::new(5);
    assert_eq!(index.min_size(), 5);
    assert_eq!(index.len(), 0);
    assert!(index.directories_with(1).is_empty());
    assert!(index.fingerprints_in("/a").is_empty());
    assert_eq!(index.fingerprint_count("/a"), 0);
    assert_eq!(index.intersection("/a", "/b"), 0);
    assert!(!index.contains("/a", 1));
}

#[test]
fn insert_files_the_link_in_both_indexes() {
    let mut index = Index::new(0);
    index.insert("/a", 10, 42);
    assert!(index.contains("/a", 42));
    assert_eq!(index.directories_with(42), vec!["/a".to_string()]);
    assert_eq!(index.fingerprints_in("/a"), vec![42]);
    assert_eq!(index.len(), 1);
    assert!(!index.contains("/a", 43));
    assert!(!index.contains("/b", 42));
}

#[test]
fn insert_is_idempotent() {
    let mut index = Index::new(0);
    index.insert("/a", 10, 42);
    index.insert("/a", 10, 42);
    index.insert("/a", 99, 42);
    assert_eq!(index.len(), 1);
    assert_eq!(index.directories_with(42), vec!["/a".to_string()]);
    assert_eq!(index.fingerprints_in("/a"), vec![42]);
    assert_eq!(index.fingerprint_count("/a"), 1);
}

#[test]
fn lookups_come_out_sorted() {
    let mut index = Index::new(0);
    for d in ["/c", "/a", "/b", "/a/x", ""] {
        index.insert(d, 1, 7);
    }
    for f in [9u64, 3, u64::MAX, 0, 5] {
        index.insert("/d", 1, f);
    }
    assert_eq!(
        index.directories_with(7),
        vec!["".to_string(), "/a".to_string(), "/a/x".to_string(), "/b".to_string(), "/c".to_string()]
    );
    assert_eq!(index.fingerprints_in("/d"), vec![0, 3, 5, 9, u64::MAX]);
    assert_eq!(index.fingerprint_count("/d"), 5);
    assert_eq!(index.len(), 10);
}

#[test]
fn indexes_mirror_each_other_after_every_insertion() {
    let directories = ["/a", "/b", "/a/b", "/c", ""];
    let prints = [0u64, 1, 2, 3, 4, 5, u64::MAX];
    let mut index = Index::new(0);
    let mut x: u32 = 99;
    for _ in 0..60 {
        x = x.wrapping_mul(1664525).wrapping_add(1013904223);
        let d = directories[(x >> 8) as usize % directories.len()];
        let f = prints[(x >> 16) as usize % prints.len()];
        index.insert(d, 1, f);
        mirrors(&index, &directories, &prints);
    }
}

#[test]
fn indexes_do_not_depend_on_insertion_order() {
    let links = [("/a", 1u64), ("/b", 1), ("/a", 2), ("/c", 3), ("/b", 3), ("/a", 3)];
    let mut forward = Index::new(0);
    for (d, f) in links.iter() {
        forward.insert(d, 1, *f);
    }
    let mut backward = Index::new(0);
    for (d, f) in links.iter().rev() {
        backward.insert(d, 1, *f);
    }
    for f in 0..5u64 {
        assert_eq!(forward.directories_with(f), backward.directories_with(f));
    }
    for d in ["/a", "/b", "/c", "/d"] {
        assert_eq!(forward.fingerprints_in(d), backward.fingerprints_in(d));
    }
}

#[test]
fn intersection_counts_shared_fingerprints() {
    let mut index = Index::new(0);
    for f in [1u64, 2, 3, 4, 5] {
        index.insert("/a", 1, f);
    }
    for f in [4u64, 5, 6, 0] {
        index.insert("/b", 1, f);
    }
    index.insert("/c", 1, 100);
    assert_eq!(index.intersection("/a", "/b"), 2);
    assert_eq!(index.intersection("/a", "/a"), 5);
    assert_eq!(index.intersection("/a", "/c"), 0);
    assert_eq!(index.intersection("/a", "/nowhere"), 0);
    assert_eq!(index.fingerprint_count("/a"), 5);
    assert_eq!(index.fingerprint_count("/b"), 4);
}

#[test]
fn intersection_is_symmetric() {
    let mut index = Index::new(0);
    let mut x: u32 = 5;
    let directories = ["/a", "/b", "/c"];
    for _ in 0..80 {
        x = x.wrapping_mul(1664525).wrapping_add(1013904223);
        index.insert(directories[(x >> 8) as usize % 3], 1, ((x >> 16) % 20) as u64);
    }
    for a in directories {
        for b in directories {
            assert_eq!(index.intersection(a, b), index.intersection(b, a));
        }
    }
}

#[test]
fn small_files_are_left_out() {
    let mut index = Index::new(100);
    assert!(!index.add_file(&record("/a", "tiny", 99), 7));
    assert!(!index.add_file(&record("/a", "empty", 0), 7));
    assert_eq!(index.len(), 0);
    assert!(index.fingerprints_in("/a").is_empty());
    assert!(index.directories_with(7 + 99).is_empty());
    assert!(index.add_file(&record("/a", "enough", 100), 7));
    assert_eq!(index.len(), 1);
    assert_eq!(index.fingerprints_in("/a"), vec![107]);
}

#[test]
fn add_file_records_directory_and_fingerprint() {
    let mut index = Index::new(1);
    assert!(index.add_file(&record("/photos", "one.jpg", 2500), 1000));
    assert_eq!(index.directories_with(3500), vec!["/photos".to_string()]);
    assert_eq!(index.fingerprints_in("/photos"), vec![fingerprint(1000, 2500)]);
}

#[test]
fn load_files_info_indexes_each_readable_file() {
    let files = vec![
        scanned("/a", "one", b"first content"),
        scanned("/a", "two", b"second content"),
        scanned("/b", "uno", b"first content"),
        scanned("/b", "tiny", b"x"),
    ];
    let mut index = Index::new(2);
    load_files_info(&files, 0, &mut index);
    let first = fingerprint(get_crc32_checksum(b"first content", 0), 13);
    let second = fingerprint(get_crc32_checksum(b"second content", 0), 14);
    assert_eq!(index.directories_with(first), vec!["/a".to_string(), "/b".to_string()]);
    assert_eq!(index.directories_with(second), vec!["/a".to_string()]);
    assert_eq!(index.fingerprint_count("/a"), 2);
    assert_eq!(index.fingerprint_count("/b"), 1);
    assert_eq!(index.len(), 3);
}

#[test]
fn load_files_info_uses_the_head_budget() {
    let mut long_a = vec![7u8; 3000];
    let mut long_b = vec![7u8; 3000];
    long_a[2500] = 1;
    long_b[2500] = 2;
    let files = vec![scanned("/a", "x", &long_a), scanned("/b", "y", &long_b)];
    let mut by_head = Index::new(1);
    load_files_info(&files, 1024, &mut by_head);
    assert_eq!(by_head.intersection("/a", "/b"), 1);
    let mut whole = Index::new(1);
    load_files_info(&files, 0, &mut whole);
    assert_eq!(whole.intersection("/a", "/b"), 0);
}

#[test]
fn unreadable_file_is_skipped_and_the_rest_indexed() {
    let files = vec![
        scanned("/a", "one", b"shared one"),
        ScannedFile { record: record("/a", "locked", 500), content: None },
        scanned("/a", "two", b"shared two"),
        scanned("/b", "one", b"shared one"),
        scanned("/b", "two", b"shared two"),
    ];
    let mut index = Index::new(1);
    load_files_info(&files, 1024, &mut index);
    assert_eq!(index.fingerprint_count("/a"), 2);
    assert_eq!(index.fingerprint_count("/b"), 2);
    assert_eq!(index.intersection("/a", "/b"), 2);
    assert_eq!(index.len(), 4);
}

#[test]
fn record_takes_the_parent_directory() {
    let record = FileRecord::new("/photos/2020/one.jpg", 12);
    assert_eq!(record.path, "/photos/2020/one.jpg");
    assert_eq!(record.size, 12);
    assert_eq!(record.directory, "/photos/2020");
    assert_eq!(FileRecord::new("one.jpg", 1).directory, "");
    assert_eq!(FileRecord::new("dir/one.jpg", 1).directory, "dir");
}

#[test]
fn record_without_parent_is_filed_under_the_empty_directory() {
    let record = FileRecord::with_parent("/", 3, None);
    assert_eq!(record.directory, "");
    assert_eq!(record.path, "/");
    assert_eq!(record.size, 3);
    let record = FileRecord::with_parent("/a/b", 3, Some("/a".to_string()));
    assert_eq!(record.directory, "/a");
    assert_eq!(FileRecord::new("/", 3).directory, "");
}
