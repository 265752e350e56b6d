use station_stats::scan::{
    find_lane, find_newline, find_next_byte, find_next_newline_vectorized,
    find_next_semicolon_vectorized, find_semicolon, read_unaligned_u64,
};

#[test]
fn test_find_next_semicolon() {
    let mut station: [u8; 100] = [0; 100];

    let mut sf_hash_1: u64 = 0;
    let bytes = "san_francisco;100";
    let offset = 13;
    assert_eq!(
        find_next_semicolon_vectorized(bytes.as_bytes(), 0, &mut sf_hash_1, &mut station),
        offset
    );
    assert_eq!(&station[0..offset], "san_francisco".as_bytes());

    let mut chicago_hash: u64 = 0;
    let bytes = "chicago;100";
    let offset = 7;
    assert_eq!(
        find_next_semicolon_vectorized(bytes.as_bytes(), 0, &mut chicago_hash, &mut station),
        offset
    );
    assert_eq!(&station[0..offset], "chicago".as_bytes());

    let mut sf_hash_2: u64 = 0;
    let bytes = "san_francisco;111";
    let offset = 13;
    assert_eq!(
        find_next_semicolon_vectorized(bytes.as_bytes(), 0, &mut sf_hash_2, &mut station),
        offset
    );
    assert_eq!(&station[0..offset], "san_francisco".as_bytes());

    assert_ne!(sf_hash_1, chicago_hash);
    assert_eq!(sf_hash_1, sf_hash_2);
}

#[test]
fn test_find_next_newline() {
    let bytes = "1111111\n";
    assert_eq!(find_next_newline_vectorized(bytes.as_bytes(), 0), 7);

    let bytes = "11\n11111";
    assert_eq!(find_next_newline_vectorized(bytes.as_bytes(), 0), 2);

    let bytes = "0000000011\n11111";
    assert_eq!(find_next_newline_vectorized(bytes.as_bytes(), 0), 10);

    let bytes = "000000001111111122\n";
    assert_eq!(find_next_newline_vectorized(bytes.as_bytes(), 0), 18);
}

#[test]
fn lane_search_finds_first_match_in_each_lane() {
    for k in 0..8usize {
        let mut bytes = [b'a'; 8];
        bytes[k] = b'\n';
        if k + 1 < 8 {
            bytes[k + 1] = b'\n';
        }
        let word = read_unaligned_u64(&bytes, 0);
        assert_eq!(find_newline(word), k as i32);
        assert_eq!(find_semicolon(word), -1);
    }
}

#[test]
fn lane_search_reports_no_match() {
    let word = read_unaligned_u64(b"abcdefgh", 0);
    assert_eq!(find_lane(word, b';'), -1);
    assert_eq!(find_lane(word, b'd'), 3);
    assert_eq!(find_lane(word, b'h'), 7);
}

#[test]
fn lane_search_below_a_byte_that_borrows() {
    // A lane holding 0x01 after the xor must not be reported before the true match.
    let word = read_unaligned_u64(&[0x0B, 0x0A, 0x0B, 0x0B, 0x0B, 0x0B, 0x0B, 0x0B], 0);
    assert_eq!(find_newline(word), 1);
}

#[test]
fn word_read_is_little_endian() {
    let word = read_unaligned_u64(&[1, 2, 3, 4, 5, 6, 7, 8, 9], 1);
    assert_eq!(word, 0x0908070605040302);
}

#[test]
fn newline_search_without_newline_reaches_the_end() {
    let bytes = b"abcdefghijklmnopq";
    assert_eq!(find_next_newline_vectorized(bytes, 0), bytes.len());
    assert_eq!(find_next_newline_vectorized(bytes, 5), bytes.len());
    assert_eq!(find_next_newline_vectorized(bytes, bytes.len()), bytes.len());
}

#[test]
fn byte_search_starts_at_the_offset() {
    let bytes = b"a;b;c;dddddddddd;e";
    assert_eq!(find_next_byte(bytes, 0, b';'), 1);
    assert_eq!(find_next_byte(bytes, 2, b';'), 3);
    assert_eq!(find_next_byte(bytes, 6, b';'), 16);
    assert_eq!(find_next_byte(bytes, 17, b';'), 18);
}

#[test]
fn semicolon_search_hashes_like_djb2() {
    let mut station: [u8; 100] = [0; 100];
    let mut hash: u64 = 5381;
    let bytes = b"abcdefghijk;1.0";
    assert_eq!(find_next_semicolon_vectorized(bytes, 0, &mut hash, &mut station), 11);
    let mut expected: u64 = 5381;
    for b in &bytes[0..11] {
        expected = expected.wrapping_mul(33).wrapping_add(*b as u64);
    }
    assert_eq!(hash, expected);
}
