use std::collections::BTreeMap;

use station_stats::engine::{
    aggregate_result, compute, is_valid_input, process_range, run, SLOT_COUNT,
};
use station_stats::partition::{chunk_range, static_partition};
use station_stats::render::format_result;
use station_stats::table::LPTable;

const SAMPLE: &str = "chicago;10.0\nchicago;20.0\nnyc;-5.5\n";

fn render(buf: &[u8], workers: usize) -> String {
    String::from_utf8(format_result(&run(buf, workers))).unwrap()
}

fn render_ranges(buf: &[u8], bounds: &[usize], num_slots: usize) -> String {
    let mut tables = Vec::new();
    for k in 0..bounds.len() - 1 {
        tables.push(compute(buf, bounds[k], bounds[k + 1], num_slots));
    }
    String::from_utf8(format_result(&aggregate_result(&tables))).unwrap()
}

fn parse_tenths(v: &str) -> i64 {
    let neg = v.starts_with('-');
    let digits: String = v.chars().filter(|c| c.is_ascii_digit()).collect();
    let m: i64 = digits.parse().unwrap();
    if neg {
        -m
    } else {
        m
    }
}

/// A plain single-pass fold into an ordered map, kept apart from the library.
fn reference(text: &str) -> BTreeMap<Vec<u8>, (i64, i64, i64, i64)> {
    let mut m: BTreeMap<Vec<u8>, (i64, i64, i64, i64)> = BTreeMap::new();
    for line in text.lines() {
        let (k, v) = line.split_once(';').unwrap();
        let t = parse_tenths(v);
        let e = m.entry(k.as_bytes().to_vec()).or_insert((t, t, 0, 0));
        e.0 = e.0.min(t);
        e.1 = e.1.max(t);
        e.2 += t;
        e.3 += 1;
    }
    m
}

fn sample_text() -> String {
    let keys = ["a", "bb", "ccc", "chicago", "san_francisco", "zürich", "x;y", "nyc", "ab", "b"];
    let mut s = String::new();
    let mut v: i64 = -999;
    for i in 0..400 {
        let k = keys[i % keys.len()].replace(';', "_");
        let a = v.abs();
        let sign = if v < 0 { "-" } else { "" };
        s.push_str(&format!("{};{}{}.{}\n", k, sign, a / 10, a % 10));
        v = (v + 999 + 137) % 1999 - 999;
    }
    assert!(is_valid_input(s.as_bytes()));
    s
}

#[test]
fn scenario_one_worker() {
    assert_eq!(render(SAMPLE.as_bytes(), 1), "{chicago:10.0/20.0/15.0,nyc:-5.5/-5.5/-5.5}");
}

#[test]
fn scenario_split_inside_second_record() {
    let buf = SAMPLE.as_bytes();
    // The second line spans bytes 13..26; cut the input at byte 18, inside it.
    let out = render_ranges(buf, &[0, 18, buf.len()], SLOT_COUNT);
    assert_eq!(out, "{chicago:10.0/20.0/15.0,nyc:-5.5/-5.5/-5.5}");
}

#[test]
fn readings_round_trip_through_the_engine() {
    for v in ["-99.9", "0.0", "99.9", "5.3"] {
        let text = format!("k;{}\n", v);
        assert_eq!(render(text.as_bytes(), 1), format!("{{k:{}/{}/{}}}", v, v, v));
    }
}

#[test]
fn same_result_for_any_worker_count() {
    let text = sample_text();
    let one = render(text.as_bytes(), 1);
    for n in [2, 3, 7, 16] {
        assert_eq!(render(text.as_bytes(), n), one);
    }
}

#[test]
fn matches_single_pass_reference() {
    let text = sample_text();
    let table = run(text.as_bytes(), 3);
    let expected = reference(&text);
    let es = table.entries();
    assert_eq!(es.len(), expected.len());
    for (e, (k, v)) in es.iter().zip(expected.iter()) {
        assert_eq!(&e.station[0..e.len], &k[..]);
        assert_eq!(e.min as i64, v.0);
        assert_eq!(e.max as i64, v.1);
        assert_eq!(e.sum as i64, v.2);
        assert_eq!(e.count as i64, v.3);
    }
}

#[test]
fn boundaries_on_delimiters_count_each_record_once() {
    let text = "ab;1.0\ncd;2.0\nef;3.0\ngh;4.0\n";
    let buf = text.as_bytes();
    let one = render(buf, 1);
    // 6 is a newline, 9 a semicolon, 13 a newline, 14 the first byte of a record.
    for cut in [1, 2, 6, 7, 9, 13, 14, 20, 27] {
        let bounds = [0, cut, buf.len()];
        let first = compute(buf, bounds[0], bounds[1], SLOT_COUNT);
        let second = compute(buf, bounds[1], bounds[2], SLOT_COUNT);
        assert_eq!(first.row_count() + second.row_count(), 4);
        assert_eq!(render_ranges(buf, &bounds, SLOT_COUNT), one);
    }
}

#[test]
fn static_partition_splits_evenly() {
    assert_eq!(static_partition(10, 3), vec![0, 3, 6, 10]);
    assert_eq!(static_partition(2, 4), vec![0, 1, 2, 2, 2]);
    assert_eq!(static_partition(0, 2), vec![0, 0, 0]);
}

#[test]
fn dynamic_chunks_give_the_same_result() {
    let text = sample_text();
    let buf = text.as_bytes();
    let one = render(buf, 1);
    for chunk in [1usize, 5, 64, 1000, 100000] {
        let workers = 3;
        let mut tables: Vec<LPTable> = (0..workers).map(|_| LPTable::new(SLOT_COUNT, 2)).collect();
        let mut start = 0;
        let mut turn = 0;
        while start < buf.len() {
            let (lo, hi) = chunk_range(start, chunk, buf.len());
            process_range(buf, lo, hi, &mut tables[turn % workers]);
            start = hi;
            turn += 1;
        }
        let out = String::from_utf8(format_result(&aggregate_result(&tables))).unwrap();
        assert_eq!(out, one);
    }
}

#[test]
fn colliding_keys_keep_their_own_statistics() {
    let text = "aa;1.0\nbb;2.0\naa;3.0\ncc;-4.0\nbb;0.5\n";
    let buf = text.as_bytes();
    let expected = "{aa:1.0/3.0/2.0,bb:0.5/2.0/1.3,cc:-4.0/-4.0/-4.0}";
    for slots in [1usize, 2, 4, SLOT_COUNT] {
        let t = compute(buf, 0, buf.len(), slots);
        assert_eq!(t.len(), 3);
        assert_eq!(t.row_count(), 5);
        assert_eq!(render_ranges(buf, &[0, buf.len()], slots), expected);
    }
}

#[test]
fn mean_rounds_half_away_from_zero() {
    assert_eq!(render(b"k;1.0\nk;2.0\n", 1), "{k:1.0/2.0/1.5}");
    assert_eq!(render(b"k;1.0\nk;1.0\nk;2.0\n", 1), "{k:1.0/2.0/1.3}");
    assert_eq!(render(b"k;0.1\nk;0.0\n", 1), "{k:0.0/0.1/0.1}");
    assert_eq!(render(b"k;-0.1\nk;0.0\n", 1), "{k:-0.1/0.0/-0.1}");
}

#[test]
fn keys_come_out_in_byte_order() {
    assert_eq!(render(b"b;1.0\nab;1.0\na;1.0\nB;1.0\n", 2), "{B:1.0/1.0/1.0,a:1.0/1.0/1.0,ab:1.0/1.0/1.0,b:1.0/1.0/1.0}");
}

#[test]
fn last_line_without_newline_is_counted() {
    assert_eq!(render(b"a;1.0\nb;2.5", 1), "{a:1.0/1.0/1.0,b:2.5/2.5/2.5}");
    assert_eq!(render(b"a;1.0\nb;2.5", 2), "{a:1.0/1.0/1.0,b:2.5/2.5/2.5}");
}

#[test]
fn empty_input_gives_empty_table() {
    assert!(is_valid_input(b""));
    assert_eq!(render(b"", 1), "{}");
    assert_eq!(render(b"", 4), "{}");
}

#[test]
fn longest_key_is_kept_whole() {
    let key = "k".repeat(100);
    let text = format!("{};-12.3\n{};45.6\n", key, key);
    assert!(is_valid_input(text.as_bytes()));
    assert_eq!(render(text.as_bytes(), 2), format!("{{{}:-12.3/45.6/16.7}}", key));
}

#[test]
fn malformed_inputs_are_rejected() {
    assert!(is_valid_input(SAMPLE.as_bytes()));
    assert!(is_valid_input(b"a;1.0"));
    assert!(!is_valid_input(format!("{};1.0\n", "k".repeat(101)).as_bytes()));
    assert!(!is_valid_input(b"a;1.x\n"));
    assert!(!is_valid_input(b"a;100.0\n"));
    assert!(!is_valid_input(b"a;1\n"));
    assert!(!is_valid_input(b"a1.0\n"));
    assert!(!is_valid_input(b";1.0\n"));
    assert!(!is_valid_input(b"a;1.0\n\n"));
    assert!(!is_valid_input(b"a;--1.0\n"));
}

#[test]
fn collision_count_follows_the_chains() {
    let text = "aa;1.0\nbb;2.0\naa;3.0\ncc;-4.0\n";
    let buf = text.as_bytes();
    assert_eq!(compute(buf, 0, buf.len(), 1).get_collision_count(), 3);
    assert_eq!(compute(b"aa;1.0\naa;2.0\n", 0, 14, 1).get_collision_count(), 0);
    assert_eq!(LPTable::new(8, 1).get_collision_count(), 0);
}
