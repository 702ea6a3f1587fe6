use dupdirs::links::{dir_run, entry_place, lower_bound, print_run, Entry};
use dupdirs::matcher::{key_lower_bound, key_place_of, DuplicatePair};
use dupdirs::order::Place;
use dupdirs::rank::first_not_above;

fn entry(directory: &str, fingerprint: u64) -> Entry {
    Entry { directory: directory.to_string(), fingerprint }
}

fn by_directory() -> Vec<Entry> {
    vec![
        entry("/a", 1),
        entry("/a", 5),
        entry("/a", u64::MAX),
        entry("/b", 0),
        entry("/d", 2),
        entry("/d", 3),
    ]
}

fn by_fingerprint() -> Vec<Entry> {
    vec![
        entry("/b", 0),
        entry("/a", 1),
        entry("/d", 2),
        entry("/d", 3),
        entry("/a", 5),
        entry("/z", 5),
        entry("/a", u64::MAX),
        entry("/b", u64::MAX),
    ]
}

fn pair(a: &str, b: &str, intersection: usize) -> DuplicatePair {
    DuplicatePair {
        dir_a: a.to_string(),
        dir_b: b.to_string(),
        count_a: intersection,
        count_b: intersection,
        intersection,
    }
}

#[test]
fn entries_compare_by_directory_first() {
    let e = entry("/m", 10);
    assert_eq!(entry_place(true, "/m", 10, &e), Place::Same);
    assert_eq!(entry_place(true, "/a", 99, &e), Place::Before);
    assert_eq!(entry_place(true, "/z", 1, &e), Place::After);
    assert_eq!(entry_place(true, "/m", 9, &e), Place::Before);
    assert_eq!(entry_place(true, "/m", 11, &e), Place::After);
}

#[test]
fn entries_compare_by_fingerprint_first() {
    let e = entry("/m", 10);
    assert_eq!(entry_place(false, "/m", 10, &e), Place::Same);
    assert_eq!(entry_place(false, "/a", 99, &e), Place::After);
    assert_eq!(entry_place(false, "/z", 1, &e), Place::Before);
    assert_eq!(entry_place(false, "/a", 10, &e), Place::Before);
    assert_eq!(entry_place(false, "/z", 10, &e), Place::After);
}

#[test]
fn lower_bound_finds_the_place_by_directory() {
    let entries = by_directory();
    assert_eq!(lower_bound(&entries, true, "", 0), 0);
    assert_eq!(lower_bound(&entries, true, "/a", 1), 0);
    assert_eq!(lower_bound(&entries, true, "/a", 2), 1);
    assert_eq!(lower_bound(&entries, true, "/a", u64::MAX), 2);
    assert_eq!(lower_bound(&entries, true, "/b", 0), 3);
    assert_eq!(lower_bound(&entries, true, "/c", 7), 4);
    assert_eq!(lower_bound(&entries, true, "/d", 4), 6);
    assert_eq!(lower_bound(&entries, true, "/e", 0), 6);
    assert_eq!(lower_bound(&Vec::new(), true, "/e", 0), 0);
}

#[test]
fn lower_bound_finds_the_place_by_fingerprint() {
    let entries = by_fingerprint();
    assert_eq!(lower_bound(&entries, false, "", 0), 0);
    assert_eq!(lower_bound(&entries, false, "/c", 0), 1);
    assert_eq!(lower_bound(&entries, false, "/a", 5), 4);
    assert_eq!(lower_bound(&entries, false, "/b", 5), 5);
    assert_eq!(lower_bound(&entries, false, "/z", 5), 5);
    assert_eq!(lower_bound(&entries, false, "/zz", 5), 6);
    assert_eq!(lower_bound(&entries, false, "/c", u64::MAX), 8);
}

#[test]
fn dir_run_spans_the_links_of_a_directory() {
    let entries = by_directory();
    assert_eq!(dir_run(&entries, "/a"), (0, 3));
    assert_eq!(dir_run(&entries, "/b"), (3, 4));
    assert_eq!(dir_run(&entries, "/d"), (4, 6));
    let (lo, hi) = dir_run(&entries, "/c");
    assert_eq!(lo, hi);
    let (lo, hi) = dir_run(&entries, "/zz");
    assert_eq!(lo, hi);
    let (lo, hi) = dir_run(&Vec::new(), "/a");
    assert_eq!(lo, hi);
}

#[test]
fn print_run_spans_the_links_of_a_fingerprint() {
    let entries = by_fingerprint();
    assert_eq!(print_run(&entries, 0), (0, 1));
    assert_eq!(print_run(&entries, 5), (4, 6));
    assert_eq!(print_run(&entries, u64::MAX), (6, 8));
    let (lo, hi) = print_run(&entries, 4);
    assert_eq!(lo, hi);
    let (lo, hi) = print_run(&Vec::new(), 4);
    assert_eq!(lo, hi);
}

#[test]
fn keys_compare_by_first_directory_then_second() {
    let p = pair("/b", "/m", 1);
    assert_eq!(key_place_of("/b", "/m", &p), Place::Same);
    assert_eq!(key_place_of("/a", "/z", &p), Place::Before);
    assert_eq!(key_place_of("/c", "/d", &p), Place::After);
    assert_eq!(key_place_of("/b", "/l", &p), Place::Before);
    assert_eq!(key_place_of("/b", "/n", &p), Place::After);
}

#[test]
fn key_lower_bound_finds_the_place() {
    let pairs = vec![pair("/a", "/b", 1), pair("/a", "/d", 1), pair("/c", "/d", 1)];
    assert_eq!(key_lower_bound(&pairs, "/a", "/a"), 0);
    assert_eq!(key_lower_bound(&pairs, "/a", "/b"), 0);
    assert_eq!(key_lower_bound(&pairs, "/a", "/c"), 1);
    assert_eq!(key_lower_bound(&pairs, "/a", "/d"), 1);
    assert_eq!(key_lower_bound(&pairs, "/b", "/c"), 2);
    assert_eq!(key_lower_bound(&pairs, "/c", "/d"), 2);
    assert_eq!(key_lower_bound(&pairs, "/c", "/e"), 3);
    assert_eq!(key_lower_bound(&Vec::new(), "/c", "/e"), 0);
}

#[test]
fn first_not_above_finds_where_an_overlap_belongs() {
    let pairs = vec![pair("/a", "/b", 9), pair("/a", "/c", 5), pair("/a", "/d", 5), pair("/a", "/e", 2)];
    assert_eq!(first_not_above(&pairs, 10), 0);
    assert_eq!(first_not_above(&pairs, 9), 0);
    assert_eq!(first_not_above(&pairs, 7), 1);
    assert_eq!(first_not_above(&pairs, 5), 1);
    assert_eq!(first_not_above(&pairs, 3), 3);
    assert_eq!(first_not_above(&pairs, 2), 3);
    assert_eq!(first_not_above(&pairs, 0), 4);
}
