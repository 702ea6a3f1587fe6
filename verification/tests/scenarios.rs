use dupdirs::config::Config;
use dupdirs::record::{FileRecord, ScannedFile};
use dupdirs::report::duplicates_among;

fn content(seed: u32, len: usize) -> Vec<u8> {
    let mut bytes = Vec::with_capacity(len);
    let mut x = seed.wrapping_mul(2654435761).wrapping_add(17);
    for _ in 0..len {
        x = x.wrapping_mul(1103515245).wrapping_add(12345);
        bytes.push((x >> 16) as u8);
    }
    bytes
}

fn file(directory: &str, name: &str, bytes: Vec<u8>) -> ScannedFile {
    ScannedFile {
        record: FileRecord {
            path: format!("{}/{}", directory, name),
            size: bytes.len(),
            directory: directory.to_string(),
        },
        content: Some(bytes),
    }
}

fn unreadable(directory: &str, name: &str, size: usize) -> ScannedFile {
    ScannedFile {
        record: FileRecord {
            path: format!("{}/{}", directory, name),
            size,
            directory: directory.to_string(),
        },
        content: None,
    }
}

fn lines(files: &Vec<ScannedFile>, config: &Config) -> Vec<String> {
    duplicates_among(files, config).iter().map(|p| p.render()).collect()
}

fn a_hundred_files_each() -> Vec<ScannedFile> {
    let mut files = Vec::new();
    for i in 0..60 {
        files.push(file("/a", &format!("same{}", i), content(i, 2000 + i as usize)));
        files.push(file("/b", &format!("same{}", i), content(i, 2000 + i as usize)));
    }
    for i in 0..40 {
        files.push(file("/a", &format!("own{}", i), content(1000 + i, 1500 + i as usize)));
        files.push(file("/b", &format!("own{}", i), content(2000 + i, 1500 + i as usize)));
    }
    files
}

#[test]
fn two_directories_sharing_sixty_of_a_hundred_files() {
    let files = a_hundred_files_each();
    let report = duplicates_among(&files, &Config::new(1, 1024, 50));
    assert_eq!(report.len(), 1);
    assert_eq!(report[0].dir_a, "/a");
    assert_eq!(report[0].dir_b, "/b");
    assert_eq!(report[0].count_a, 100);
    assert_eq!(report[0].count_b, 100);
    assert_eq!(report[0].intersection, 60);
    assert_eq!(report[0].render(), "/a: 100 - /b: 100 | 60");
}

#[test]
fn sixty_shared_files_are_too_few_for_seventy() {
    let files = a_hundred_files_each();
    assert!(duplicates_among(&files, &Config::new(1, 1024, 70)).is_empty());
}

#[test]
fn three_directories_sharing_ten_files_pairwise() {
    let mut files = Vec::new();
    for i in 0..10 {
        files.push(file("/a", &format!("ab{}", i), content(100 + i, 1200)));
        files.push(file("/b", &format!("ab{}", i), content(100 + i, 1200)));
        files.push(file("/a", &format!("ac{}", i), content(200 + i, 1300)));
        files.push(file("/c", &format!("ac{}", i), content(200 + i, 1300)));
        files.push(file("/b", &format!("bc{}", i), content(300 + i, 1400)));
        files.push(file("/c", &format!("bc{}", i), content(300 + i, 1400)));
    }
    assert_eq!(
        lines(&files, &Config::new(1, 1024, 5)),
        vec!["/a: 20 - /b: 20 | 10", "/a: 20 - /c: 20 | 10", "/b: 20 - /c: 20 | 10"]
    );
}

#[test]
fn an_unreadable_file_is_skipped_and_the_rest_matched() {
    let mut files = Vec::new();
    for i in 0..5 {
        files.push(file("/a", &format!("f{}", i), content(i, 1100)));
    }
    files.insert(2, unreadable("/a", "locked", 1100));
    for i in 0..5 {
        files.push(file("/b", &format!("f{}", i), content(i, 1100)));
    }
    assert_eq!(lines(&files, &Config::new(1, 1024, 5)), vec!["/a: 5 - /b: 5 | 5"]);
}

#[test]
fn files_below_the_minimum_size_do_not_count() {
    let mut files = Vec::new();
    for i in 0..4 {
        files.push(file("/a", &format!("small{}", i), content(i, 10)));
        files.push(file("/b", &format!("small{}", i), content(i, 10)));
    }
    for i in 0..3 {
        files.push(file("/a", &format!("large{}", i), content(50 + i, 100)));
        files.push(file("/b", &format!("large{}", i), content(50 + i, 100)));
    }
    assert_eq!(lines(&files, &Config::new(0, 0, 1)), vec!["/a: 7 - /b: 7 | 7"]);
    assert_eq!(lines(&files, &Config::new(11, 0, 1)), vec!["/a: 3 - /b: 3 | 3"]);
    assert_eq!(lines(&files, &Config::new(100, 0, 1)), vec!["/a: 3 - /b: 3 | 3"]);
    assert!(lines(&files, &Config::new(101, 0, 1)).is_empty());
}

#[test]
fn files_that_differ_only_past_the_head_count_as_the_same() {
    let mut first = content(1, 5000);
    let mut second = first.clone();
    first[4000] = 0;
    second[4000] = 1;
    let files = vec![file("/a", "x", first), file("/b", "y", second)];
    assert_eq!(lines(&files, &Config::new(1, 1024, 1)), vec!["/a: 1 - /b: 1 | 1"]);
    assert!(lines(&files, &Config::new(1, 0, 1)).is_empty());
}

#[test]
fn a_small_head_budget_reports_as_the_default_does() {
    let mut files = Vec::new();
    for i in 0..6 {
        let mut in_a = content(i, 3000);
        let mut in_b = in_a.clone();
        in_a[700 + i as usize] = 1;
        in_b[700 + i as usize] = 2;
        files.push(file("/a", &format!("f{}", i), in_a));
        files.push(file("/b", &format!("f{}", i), in_b));
    }
    for i in 0..3 {
        files.push(file("/a", &format!("g{}", i), content(90 + i, 1800)));
        files.push(file("/b", &format!("g{}", i), content(90 + i, 1800)));
    }
    let small = lines(&files, &Config::new(1, 500, 1));
    let default = lines(&files, &Config::new(1, 1024, 1));
    assert_eq!(small, default);
    assert_eq!(default, vec!["/a: 9 - /b: 9 | 3"]);
}

#[test]
fn repeated_runs_give_the_same_report() {
    let files = a_hundred_files_each();
    let config = Config::new(1, 1024, 1);
    let first = lines(&files, &config);
    let second = lines(&files, &config);
    assert_eq!(first, second);
    let mut reversed = a_hundred_files_each();
    reversed.reverse();
    assert_eq!(lines(&reversed, &config), first);
}

#[test]
fn larger_overlaps_come_first() {
    let mut files = Vec::new();
    for i in 0..3 {
        files.push(file("/a", &format!("ab{}", i), content(i, 1000)));
        files.push(file("/b", &format!("ab{}", i), content(i, 1000)));
    }
    for i in 0..7 {
        files.push(file("/c", &format!("cd{}", i), content(50 + i, 1000)));
        files.push(file("/d", &format!("cd{}", i), content(50 + i, 1000)));
    }
    for i in 0..5 {
        files.push(file("/e", &format!("ef{}", i), content(70 + i, 1000)));
        files.push(file("/f", &format!("ef{}", i), content(70 + i, 1000)));
    }
    assert_eq!(
        lines(&files, &Config::new(1, 0, 4)),
        vec!["/c: 7 - /d: 7 | 7", "/e: 5 - /f: 5 | 5"]
    );
    assert_eq!(
        lines(&files, &Config::new(1, 0, 3)),
        vec!["/c: 7 - /d: 7 | 7", "/e: 5 - /f: 5 | 5", "/a: 3 - /b: 3 | 3"]
    );
}
