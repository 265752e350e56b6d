//! Walking a byte range record by record, and merging the tables of the workers.

use vstd::prelude::*;

use crate::cursor::{find_next_newline, reset, temprature, Cursor};
use crate::model::{
    aggregate, all_records, fold_records, key_end, lemma_aggregate_append, lemma_merge_empty,
    lemma_next_byte_bounds, lemma_next_byte_same, lemma_records_split, lemma_valid_from_later,
    line_end, merge_all, owned_records, range_start, record_at, records_between, valid_from,
    valid_input, valid_record, valid_value, value_of, DOT, MINUS, NEWLINE, SEMICOLON,
};
use crate::ordered::FinalTable;
use crate::partition::{as_ints, static_partition, valid_bounds};
use crate::scan::{
    find_next_byte, find_next_newline_vectorized, find_next_semicolon_vectorized, key_hash,
};
use crate::table::LPTable;

verus! {

/// Slots of a worker's table: a power of two well above the expected number of keys.
pub const SLOT_COUNT: usize = 131072;

/// Room reserved in each slot before it grows.
pub const MIN_SLOT_SIZE: usize = 4;

/// The walk from any position holds at most one record per byte left.
pub proof fn lemma_records_len(s: Seq<u8>, p: int, hi: int)
    requires
        0 <= p,
    ensures
        records_between(s, p, hi).len() <= if p < s.len() {
            s.len() - p
        } else {
            0
        },
    decreases s.len() + 1 - p,
{
    let e = line_end(s, p);
    lemma_next_byte_bounds(s, p, NEWLINE);
    if p < s.len() && p <= hi && e >= p && e <= s.len() {
        lemma_records_len(s, e + 1, hi);
    }
}

/// Folds into `table` every record owned by the byte range `[lo, hi)` of `buf`: the
/// records that start after the first newline at or after `lo` (or at 0 when `lo` is 0),
/// up to and including the one that straddles `hi`.
pub fn process_range(buf: &[u8], lo: usize, hi: usize, table: &mut LPTable)
    requires
        valid_input(buf@),
        lo <= hi <= buf@.len(),
        old(table).wf(),
        old(table).rows() + buf@.len() <= usize::MAX,
    ensures
        final(table).wf(),
        final(table)@ == fold_records(old(table)@, owned_records(buf@, lo as int, hi as int)),
        final(table).slots() == old(table).slots(),
        final(table).rows() == old(table).rows() + owned_records(
            buf@,
            lo as int,
            hi as int,
        ).len(),
{
    let ghost s = buf@;
    let ghost start = range_start(s, lo as int);
    let len = buf.len();
    let mut pos: usize = 0;
    if lo != 0 {
        let nl = find_next_newline_vectorized(buf, lo);
        proof {
            lemma_next_byte_bounds(s, lo as int, NEWLINE);
            lemma_valid_from_later(s, 0, lo as int);
        }
        if nl < len {
            pos = nl + 1;
        } else {
            pos = len;
            assert(records_between(s, start, hi as int) =~= seq![]);
            assert(records_between(s, pos as int, hi as int) =~= seq![]);
        }
    }
    proof {
        lemma_records_len(s, start, hi as int);
    }
    let mut c = Cursor::new();
    while pos <= hi && pos < len
        invariant
            s == buf@,
            len == s.len(),
            hi <= len,
            valid_from(s, pos as int),
            0 <= start,
            fold_records(table@, records_between(s, pos as int, hi as int)) == fold_records(
                old(table)@,
                owned_records(s, lo as int, hi as int),
            ),
            table.rows() + records_between(s, pos as int, hi as int).len() == old(table).rows()
                + owned_records(s, lo as int, hi as int).len(),
            owned_records(s, lo as int, hi as int).len() <= len,
            old(table).rows() + len <= usize::MAX,
            table.wf(),
            table.slots() == old(table).slots(),
            c.is_reset(),
        decreases len - pos,
    {
        let ghost p = pos as int;
        let ghost ce = key_end(s, p);
        let ghost e = line_end(s, p);
        proof {
            lemma_next_byte_bounds(s, p, NEWLINE);
            lemma_next_byte_bounds(s, p, SEMICOLON);
            assert(valid_record(s, p));
            lemma_records_len(s, e + 1, hi as int);
        }
        let semi = find_next_semicolon_vectorized(buf, pos, &mut c.hash, &mut c.station);
        c.station_idx = semi - pos;
        proof {
            lemma_next_byte_same(s, p, semi + 1, NEWLINE);
        }
        let nl = find_next_newline(buf, semi + 1, &mut c);
        let temp = temprature(&c);
        proof {
            let rec = record_at(s, p);
            let v = s.subrange(semi + 1, e);
            assert(temp == value_of(v));
            assert(rec.0 == c.station@.subrange(0, c.station_idx as int));
            assert(c.hash == key_hash(rec.0));
            if c.temp_multiplier == 1 {
                assert(temp == c.temp_int_part * 10 + c.temp_fraction_part);
            } else {
                assert(temp == -(c.temp_int_part * 10 + c.temp_fraction_part));
            }
            let rs = records_between(s, p, hi as int);
            assert(rs == seq![rec] + records_between(s, e + 1, hi as int));
            assert(rs[0] == rec);
            assert(rs.skip(1) =~= records_between(s, e + 1, hi as int));
        }
        table.insert_or_update(&c.station, c.station_idx, c.hash, temp);
        reset(&mut c);
        if nl < len {
            pos = nl + 1;
        } else {
            pos = len;
            assert(records_between(s, e + 1, hi as int) =~= seq![]);
            assert(records_between(s, len as int, hi as int) =~= seq![]);
        }
    }
    proof {
        assert(records_between(s, pos as int, hi as int) =~= seq![]);
    }
}

/// A fresh table of `num_slots` slots holding the records owned by `[start_offset, end_offset)`.
pub fn compute(buf: &[u8], start_offset: usize, end_offset: usize, num_slots: usize) -> (t: LPTable)
    requires
        valid_input(buf@),
        start_offset <= end_offset <= buf@.len(),
        num_slots > 0,
        num_slots & (num_slots - 1) as usize == 0,
    ensures
        t.wf(),
        t@ == aggregate(owned_records(buf@, start_offset as int, end_offset as int)),
        t.slots() == num_slots,
        t.rows() == owned_records(buf@, start_offset as int, end_offset as int).len(),
{
    let mut table = LPTable::new(num_slots, MIN_SLOT_SIZE);
    let n = buf.len();
    assert(n == buf@.len());
    process_range(buf, start_offset, end_offset, &mut table);
    table
}

/// The records of `buf`, aggregated by `workers` static ranges one after the other and
/// merged in range order.
pub fn run(buf: &[u8], workers: usize) -> (r: FinalTable)
    requires
        valid_input(buf@),
        workers >= 1,
    ensures
        r.wf(),
        r@ == aggregate(all_records(buf@)),
{
    let ghost s = buf@;
    let len = buf.len();
    let bounds = static_partition(len, workers);
    let ghost b = as_ints(bounds@);
    assert(valid_bounds(s, b));
    let mut out = FinalTable::new();
    let mut k: usize = 0;
    while k < workers
        invariant
            s == buf@,
            len == s.len(),
            valid_input(s),
            bounds@.len() == workers + 1,
            b == as_ints(bounds@),
            valid_bounds(s, b),
            k <= workers,
            out.wf(),
            k == 0 ==> out@ == Map::<Seq<u8>, crate::model::Summary>::empty() && out.rows() == 0,
            k > 0 ==> out@ == aggregate(records_between(s, 0, b[k as int])) && out.rows()
                == records_between(s, 0, b[k as int]).len(),
        decreases workers - k,
    {
        let lo = bounds[k];
        let hi = bounds[k + 1];
        assert(b[k as int] <= b[k + 1]);
        assert(SLOT_COUNT & (SLOT_COUNT - 1) as usize == 0) by (bit_vector);
        let t = compute(buf, lo, hi, SLOT_COUNT);
        proof {
            lemma_records_len(s, 0, hi as int);
            if k == 0 {
                assert(owned_records(s, lo as int, hi as int) == records_between(s, 0, hi as int));
            } else {
                lemma_records_split(s, 0, lo as int, hi as int);
                if len == 0 {
                    assert(records_between(s, line_end(s, lo as int) + 1, hi as int) =~= seq![]);
                    assert(owned_records(s, lo as int, hi as int) =~= seq![]);
                } else {
                    assert(lo > 0);
                }
                assert(owned_records(s, lo as int, hi as int) == records_between(s, line_end(s, lo as int) + 1, hi as int));
                lemma_aggregate_append(records_between(s, 0, lo as int), owned_records(s, lo as int, hi as int));
            }
        }
        t.merge_into(&mut out);
        proof {
            if k == 0 {
                lemma_merge_empty(t@);
            }
        }
        k = k + 1;
    }
    proof {
        assert(b[workers as int] == len);
    }
    out
}

/// Whether the bytes `from .. to` of `buf` are a reading: `-?\d{1,2}\.\d`.
pub fn is_valid_value(buf: &[u8], from: usize, to: usize) -> (r: bool)
    requires
        from <= to <= buf@.len(),
    ensures
        r == valid_value(buf@.subrange(from as int, to as int)),
{
    let ghost v = buf@.subrange(from as int, to as int);
    let mut u = from;
    if to > from && buf[from] == MINUS {
        u = from + 1;
    }
    proof {
        let w = crate::model::unsigned_part(v);
        assert(w =~= buf@.subrange(u as int, to as int));
    }
    let n = to - u;
    if n == 3 {
        buf[u] >= 48 && buf[u] <= 57 && buf[u + 1] == DOT && buf[u + 2] >= 48 && buf[u + 2] <= 57
    } else if n == 4 {
        buf[u] >= 48 && buf[u] <= 57 && buf[u + 1] >= 48 && buf[u + 1] <= 57 && buf[u + 2] == DOT
            && buf[u + 3] >= 48 && buf[u + 3] <= 57
    } else {
        false
    }
}

/// Whether every line of `buf` is a well-formed record: a key of 1 to 100 bytes, a
/// semicolon, and a reading; the last line may lack its newline.
pub fn is_valid_input(buf: &[u8]) -> (r: bool)
    ensures
        r == valid_input(buf@),
{
    let ghost s = buf@;
    let len = buf.len();
    let mut p: usize = 0;
    while p < len
        invariant
            s == buf@,
            len == s.len(),
            p <= len,
            valid_input(s) == valid_from(s, p as int),
        decreases len - p,
    {
        let e = find_next_byte(buf, p, NEWLINE);
        let c = find_next_byte(buf, p, SEMICOLON);
        proof {
            lemma_next_byte_bounds(s, p as int, NEWLINE);
            lemma_next_byte_bounds(s, p as int, SEMICOLON);
        }
        if !(p < c && c < e && c - p <= 100) {
            return false;
        }
        if !is_valid_value(buf, c + 1, e) {
            return false;
        }
        proof {
            assert(valid_record(s, p as int));
            assert(valid_from(s, p as int) == valid_from(s, e + 1));
        }
        if e < len {
            p = e + 1;
        } else {
            assert(valid_from(s, e + 1));
            assert(valid_from(s, len as int));
            p = len;
        }
    }
    true
}

/// The readings folded in by a sequence of tables.
pub open spec fn total_rows(ts: Seq<LPTable>) -> int
    decreases ts.len(),
{
    if ts.len() == 0 {
        0
    } else {
        total_rows(ts.drop_last()) + ts.last().rows()
    }
}

pub open spec fn table_views(ts: Seq<LPTable>) -> Seq<Map<Seq<u8>, crate::model::Summary>> {
    Seq::new(ts.len(), |i: int| ts[i]@)
}

proof fn lemma_total_rows_prefix(ts: Seq<LPTable>, j: int)
    requires
        0 <= j <= ts.len(),
    ensures
        total_rows(ts.take(j)) <= total_rows(ts),
    decreases ts.len(),
{
    if j == ts.len() {
        assert(ts.take(j) =~= ts);
    } else {
        assert(ts.drop_last().take(j) =~= ts.take(j));
        lemma_total_rows_prefix(ts.drop_last(), j);
    }
}

/// Merges the tables of the workers, in order, into one ordered table.
pub fn aggregate_result(tables: &Vec<LPTable>) -> (r: FinalTable)
    requires
        forall|i: int| 0 <= i < tables@.len() ==> (#[trigger] tables@[i]).wf(),
        total_rows(tables@) <= usize::MAX,
    ensures
        r.wf(),
        r@ == merge_all(table_views(tables@)),
{
    let mut out = FinalTable::new();
    let mut k: usize = 0;
    let n = tables.len();
    while k < n
        invariant
            n == tables@.len(),
            k <= n,
            forall|i: int| 0 <= i < tables@.len() ==> (#[trigger] tables@[i]).wf(),
            total_rows(tables@) <= usize::MAX,
            out.wf(),
            out@ == merge_all(table_views(tables@).take(k as int)),
            out.rows() == total_rows(tables@.take(k as int)),
        decreases n - k,
    {
        proof {
            lemma_total_rows_prefix(tables@, k + 1);
            assert(tables@.take(k + 1).drop_last() =~= tables@.take(k as int));
            assert(table_views(tables@).take(k + 1).drop_last() =~= table_views(tables@).take(k as int));
        }
        tables[k].merge_into(&mut out);
        k = k + 1;
    }
    assert(table_views(tables@).take(n as int) =~= table_views(tables@));
    out
}

} // verus!
