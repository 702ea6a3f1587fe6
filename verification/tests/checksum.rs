use dupdirs::checksum::{fingerprint, get_crc32_checksum, get_hash, Checksummer, BUF_SIZE};

fn sample(len: usize) -> Vec<u8> {
    let mut bytes = Vec::with_capacity(len);
    let mut x: u32 = 12345;
    for _ in 0..len {
        x = x.wrapping_mul(1103515245).wrapping_add(12345);
        bytes.push((x >> 16) as u8);
    }
    bytes
}

#[test]
fn checksum_is_the_ieee_crc32() {
    assert_eq!(get_crc32_checksum(b"123456789", 0), 0xCBF4_3926);
    assert_eq!(get_crc32_checksum(b"", 0), 0);
}

#[test]
fn checksum_matches_the_crate_on_whole_content() {
    for len in [0usize, 1, 1023, 1024, 1025, 2048, 5000] {
        let content = sample(len);
        assert_eq!(get_crc32_checksum(&content, 0), crc32fast::hash(&content));
    }
}

#[test]
fn checksum_covers_exactly_the_head() {
    let content = sample(5000);
    for head in [1usize, 500, 1000, 1024, 1500, 2048, 4999, 5000] {
        assert_eq!(
            get_crc32_checksum(&content, head),
            crc32fast::hash(&content[..head])
        );
    }
}

#[test]
fn head_longer_than_content_covers_all_of_it() {
    let content = sample(300);
    assert_eq!(get_crc32_checksum(&content, 1024), crc32fast::hash(&content));
    assert_eq!(get_crc32_checksum(&content, usize::MAX), crc32fast::hash(&content));
}

#[test]
fn zero_head_means_whole_content() {
    let content = sample(3000);
    assert_eq!(get_crc32_checksum(&content, 0), crc32fast::hash(&content));
    assert_ne!(get_crc32_checksum(&content, 0), get_crc32_checksum(&content, 1024));
}

#[test]
fn fingerprint_is_checksum_plus_size() {
    assert_eq!(fingerprint(7, 5), 12);
    assert_eq!(fingerprint(0, 0), 0);
    assert_eq!(fingerprint(u32::MAX, 1), 4_294_967_296);
    assert_eq!(fingerprint(0xCBF4_3926, 9), 0xCBF4_3926u64 + 9);
}

#[test]
fn get_hash_combines_head_checksum_and_size() {
    assert_eq!(get_hash(b"", 9, 0), 9);
    assert_eq!(get_hash(b"123456789", 9, 0), 0xCBF4_3926u64 + 9);
    let content = sample(4000);
    assert_eq!(
        get_hash(&content, 4000, 1024),
        crc32fast::hash(&content[..1024]) as u64 + 4000
    );
}

#[test]
fn get_hash_uses_the_whole_size_not_the_bytes_read() {
    let content = sample(2000);
    let short = get_hash(&content, 2000, 1024);
    let long = get_hash(&content, 1_000_000, 1024);
    assert_eq!(long - short, 1_000_000 - 2000);
}

#[test]
fn same_head_and_size_give_the_same_fingerprint() {
    let mut first = sample(3000);
    let mut second = first.clone();
    first[2000] = 1;
    second[2000] = 2;
    assert_ne!(first, second);
    assert_eq!(get_hash(&first, 3000, 1024), get_hash(&second, 3000, 1024));
    assert_ne!(get_hash(&first, 3000, 0), get_hash(&second, 3000, 0));
}

#[test]
fn same_head_but_other_size_gives_another_fingerprint() {
    let content = sample(3000);
    assert_ne!(get_hash(&content, 3000, 1024), get_hash(&content, 3001, 1024));
}

#[test]
fn checksummer_asks_for_a_buffer_at_a_time() {
    let ck = Checksummer::new(0);
    assert_eq!(ck.wanted(), BUF_SIZE);
    let ck = Checksummer::new(1500);
    assert_eq!(ck.wanted(), 1024);
    let ck = Checksummer::new(10);
    assert_eq!(ck.wanted(), 10);
}

#[test]
fn checksummer_stops_at_the_budget() {
    let content = sample(4000);
    let mut ck = Checksummer::new(1500);
    ck.feed(&content[..1024]);
    assert_eq!(ck.wanted(), 476);
    ck.feed(&content[1024..2048]);
    assert_eq!(ck.wanted(), 0);
    ck.feed(&content[2048..]);
    assert_eq!(ck.finish(), crc32fast::hash(&content[..1500]));
}

#[test]
fn checksummer_does_not_depend_on_the_chunking() {
    let content = sample(3000);
    for head in [0usize, 700, 1024, 2999] {
        let whole = get_crc32_checksum(&content, head);
        for step in [1usize, 7, 100, 1024, 4096] {
            let mut ck = Checksummer::new(head);
            let mut pos = 0;
            while pos < content.len() {
                let end = usize::min(pos + step, content.len());
                ck.feed(&content[pos..end]);
                pos = end;
            }
            assert_eq!(ck.finish(), whole);
        }
    }
}

#[test]
fn checksummer_without_input_gives_the_empty_checksum() {
    assert_eq!(Checksummer::new(0).finish(), 0);
    assert_eq!(Checksummer::new(1024).finish(), crc32fast::hash(b""));
}
