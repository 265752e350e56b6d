//! The meaning of an input: its records, read line by line, and the per-key statistics
//! they fold into, with the facts about splitting and merging that the engine rests on.

use vstd::prelude::*;

verus! {

pub const NEWLINE: u8 = 10;

pub const SEMICOLON: u8 = 59;

pub const MINUS: u8 = 45;

pub const DOT: u8 = 46;

/// Largest number of bytes a key may hold.
pub const KEY_CAPACITY: usize = 100;

/// Largest magnitude of a reading, in tenths.
pub const MAX_TENTHS: i32 = 999;

/// Index of the first `b` at or after `p`, or `s.len()` when there is none.
pub open spec fn next_byte(s: Seq<u8>, p: int, b: u8) -> int
    decreases s.len() - p,
{
    if p < 0 || p >= s.len() {
        s.len() as int
    } else if s[p] == b {
        p
    } else {
        next_byte(s, p + 1, b)
    }
}

/// End of the line that holds position `p` (a newline, or the end of the buffer).
pub open spec fn line_end(s: Seq<u8>, p: int) -> int {
    next_byte(s, p, NEWLINE)
}

/// End of the key of the record that starts at `p`.
pub open spec fn key_end(s: Seq<u8>, p: int) -> int {
    next_byte(s, p, SEMICOLON)
}

pub open spec fn is_digit(b: u8) -> bool {
    48 <= b <= 57
}

pub open spec fn digit_of(b: u8) -> int {
    b - 48
}

/// The digits of a reading without its sign: `d.d` or `dd.d`.
pub open spec fn valid_magnitude(u: Seq<u8>) -> bool {
    (u.len() == 3 && is_digit(u[0]) && u[1] == DOT && is_digit(u[2])) || (u.len() == 4
        && is_digit(u[0]) && is_digit(u[1]) && u[2] == DOT && is_digit(u[3]))
}

pub open spec fn magnitude_of(u: Seq<u8>) -> int {
    if u.len() == 3 {
        digit_of(u[0]) * 10 + digit_of(u[2])
    } else {
        digit_of(u[0]) * 100 + digit_of(u[1]) * 10 + digit_of(u[3])
    }
}

pub open spec fn is_negative(v: Seq<u8>) -> bool {
    v.len() > 0 && v[0] == MINUS
}

pub open spec fn unsigned_part(v: Seq<u8>) -> Seq<u8> {
    if is_negative(v) {
        v.subrange(1, v.len() as int)
    } else {
        v
    }
}

/// A reading as written in a record: `-?\d{1,2}\.\d`.
pub open spec fn valid_value(v: Seq<u8>) -> bool {
    valid_magnitude(unsigned_part(v))
}

/// The reading in tenths: `sign * (integer_part * 10 + fractional_digit)`.
pub open spec fn value_of(v: Seq<u8>) -> int {
    if is_negative(v) {
        -magnitude_of(unsigned_part(v))
    } else {
        magnitude_of(unsigned_part(v))
    }
}

/// The key and the reading of the record that starts at `p`.
pub open spec fn record_at(s: Seq<u8>, p: int) -> (Seq<u8>, int) {
    let c = key_end(s, p);
    let e = line_end(s, p);
    (s.subrange(p, c), value_of(s.subrange(c + 1, e)))
}

/// The record at `p` is `<key>;<value>` followed by a newline or the end of the buffer.
pub open spec fn valid_record(s: Seq<u8>, p: int) -> bool {
    let c = key_end(s, p);
    let e = line_end(s, p);
    p < c < e && c - p <= KEY_CAPACITY && valid_value(s.subrange(c + 1, e))
}

/// The records that start at `p` and after it, walking line by line, while they start at or before `hi`.
pub open spec fn records_between(s: Seq<u8>, p: int, hi: int) -> Seq<(Seq<u8>, int)>
    decreases s.len() + 1 - p,
{
    let e = line_end(s, p);
    if p < 0 || p >= s.len() || p > hi || e < p || e > s.len() {
        seq![]
    } else {
        seq![record_at(s, p)] + records_between(s, e + 1, hi)
    }
}

/// Every record from `p` on is well formed.
pub open spec fn valid_from(s: Seq<u8>, p: int) -> bool
    decreases s.len() + 1 - p,
{
    let e = line_end(s, p);
    if p < 0 || p >= s.len() || e < p || e > s.len() {
        true
    } else {
        valid_record(s, p) && valid_from(s, e + 1)
    }
}

/// A whole input: every line is a well-formed record.
pub open spec fn valid_input(s: Seq<u8>) -> bool {
    valid_from(s, 0)
}

/// All records of an input.
pub open spec fn all_records(s: Seq<u8>) -> Seq<(Seq<u8>, int)> {
    records_between(s, 0, s.len() as int)
}

/// Where the first record owned by the range that begins at `lo` starts: the range that
/// begins at 0 starts there, any other skips past the first newline at or after `lo`.
pub open spec fn range_start(s: Seq<u8>, lo: int) -> int {
    if lo == 0 {
        0
    } else {
        line_end(s, lo) + 1
    }
}

/// The records owned by the byte range `[lo, hi)`: those that start after its first
/// newline (or at 0), up to the record that straddles `hi`.
pub open spec fn owned_records(s: Seq<u8>, lo: int, hi: int) -> Seq<(Seq<u8>, int)> {
    records_between(s, range_start(s, lo), hi)
}

/// Running statistic of one key, in tenths.
pub struct Summary {
    pub min: int,
    pub max: int,
    pub sum: int,
    pub count: int,
}

pub open spec fn single(v: int) -> Summary {
    Summary { min: v, max: v, sum: v, count: 1 }
}

pub open spec fn min_of(a: int, b: int) -> int {
    if a <= b {
        a
    } else {
        b
    }
}

pub open spec fn max_of(a: int, b: int) -> int {
    if a >= b {
        a
    } else {
        b
    }
}

pub open spec fn combine(a: Summary, b: Summary) -> Summary {
    Summary {
        min: min_of(a.min, b.min),
        max: max_of(a.max, b.max),
        sum: a.sum + b.sum,
        count: a.count + b.count,
    }
}

/// Folds one reading of `k` into a table.
pub open spec fn add_reading(m: Map<Seq<u8>, Summary>, k: Seq<u8>, v: int) -> Map<
    Seq<u8>,
    Summary,
> {
    if m.contains_key(k) {
        m.insert(k, combine(m[k], single(v)))
    } else {
        m.insert(k, single(v))
    }
}

/// Folds records, first to last, into a table.
pub open spec fn fold_records(m: Map<Seq<u8>, Summary>, rs: Seq<(Seq<u8>, int)>) -> Map<
    Seq<u8>,
    Summary,
>
    decreases rs.len(),
{
    if rs.len() == 0 {
        m
    } else {
        fold_records(add_reading(m, rs[0].0, rs[0].1), rs.skip(1))
    }
}

/// The table of a sequence of records.
pub open spec fn aggregate(rs: Seq<(Seq<u8>, int)>) -> Map<Seq<u8>, Summary> {
    fold_records(Map::empty(), rs)
}

/// Two tables combined key by key.
pub open spec fn merge(a: Map<Seq<u8>, Summary>, b: Map<Seq<u8>, Summary>) -> Map<
    Seq<u8>,
    Summary,
> {
    Map::new(
        |k: Seq<u8>| a.contains_key(k) || b.contains_key(k),
        |k: Seq<u8>|
            if a.contains_key(k) && b.contains_key(k) {
                combine(a[k], b[k])
            } else if a.contains_key(k) {
                a[k]
            } else {
                b[k]
            },
    )
}

/// Tables merged first to last.
pub open spec fn merge_all(ms: Seq<Map<Seq<u8>, Summary>>) -> Map<Seq<u8>, Summary>
    decreases ms.len(),
{
    if ms.len() == 0 {
        Map::empty()
    } else {
        merge(merge_all(ms.drop_last()), ms.last())
    }
}

/// Every statistic of a table is one that a run of at most `rows` readings can give.
pub open spec fn summary_in_range(st: Summary, rows: int) -> bool {
    &&& 1 <= st.count <= rows
    &&& -999 <= st.min <= st.max <= 999
    &&& -999 * st.count <= st.sum <= 999 * st.count
}

pub open spec fn table_in_range(m: Map<Seq<u8>, Summary>, rows: int) -> bool {
    forall|k: Seq<u8>| #[trigger] m.contains_key(k) ==> summary_in_range(m[k], rows)
}

pub proof fn lemma_next_byte_bounds(s: Seq<u8>, p: int, b: u8)
    requires
        0 <= p,
    ensures
        p <= next_byte(s, p, b) <= s.len() || (p > s.len() && next_byte(s, p, b) == s.len()),
        next_byte(s, p, b) < s.len() ==> s[next_byte(s, p, b)] == b,
    decreases s.len() - p,
{
    if p < s.len() && s[p] != b {
        lemma_next_byte_bounds(s, p + 1, b);
    }
}

/// Starting the search anywhere before the first match finds the same match.
pub proof fn lemma_next_byte_same(s: Seq<u8>, p: int, q: int, b: u8)
    requires
        0 <= p <= q <= next_byte(s, p, b),
    ensures
        next_byte(s, q, b) == next_byte(s, p, b),
    decreases q - p,
{
    if p < q && p < s.len() {
        lemma_next_byte_same(s, p + 1, q, b);
    }
}

/// No `b` in `[p, q)`: the search from `p` goes on from `q`.
pub proof fn lemma_next_byte_skip(s: Seq<u8>, p: int, q: int, b: u8)
    requires
        0 <= p <= q <= s.len(),
        forall|j: int| p <= j < q ==> s[j] != b,
    ensures
        next_byte(s, p, b) == next_byte(s, q, b),
    decreases q - p,
{
    if p < q {
        lemma_next_byte_skip(s, p + 1, q, b);
    }
}

/// The walk from `p` splits at the record that straddles `b`.
pub proof fn lemma_records_split(s: Seq<u8>, p: int, b: int, hi: int)
    requires
        0 <= p,
        0 <= b <= hi,
        p <= b || p == line_end(s, b) + 1,
    ensures
        records_between(s, p, hi) == records_between(s, p, b) + records_between(
            s,
            line_end(s, b) + 1,
            hi,
        ),
    decreases s.len() + 1 - p,
{
    let e = line_end(s, p);
    lemma_next_byte_bounds(s, p, NEWLINE);
    if p > b {
        assert(records_between(s, p, b) =~= seq![]);
        assert(records_between(s, p, b) + records_between(s, line_end(s, b) + 1, hi)
            =~= records_between(s, p, hi));
    } else if p >= s.len() {
        lemma_next_byte_bounds(s, b, NEWLINE);
        assert(records_between(s, line_end(s, b) + 1, hi) =~= seq![]);
        assert(records_between(s, p, b) =~= seq![]);
        assert(records_between(s, p, hi) =~= seq![]);
    } else {
        if e >= b {
            lemma_next_byte_same(s, p, b, NEWLINE);
            assert(records_between(s, e + 1, b) =~= seq![]);
        } else {
            lemma_records_split(s, e + 1, b, hi);
        }
        assert(records_between(s, p, hi) =~= records_between(s, p, b) + records_between(
            s,
            line_end(s, b) + 1,
            hi,
        ));
    }
}

/// Validity of the walk from `p` carries over to the walk from any later range start.
pub proof fn lemma_valid_from_later(s: Seq<u8>, p: int, b: int)
    requires
        0 <= p <= b,
        valid_from(s, p),
    ensures
        valid_from(s, line_end(s, b) + 1),
    decreases s.len() + 1 - p,
{
    let e = line_end(s, p);
    lemma_next_byte_bounds(s, p, NEWLINE);
    lemma_next_byte_bounds(s, b, NEWLINE);
    if p >= s.len() {
    } else if e >= b {
        lemma_next_byte_same(s, p, b, NEWLINE);
    } else {
        lemma_valid_from_later(s, e + 1, b);
    }
}

pub proof fn lemma_fold_append(m: Map<Seq<u8>, Summary>, a: Seq<(Seq<u8>, int)>, b: Seq<(Seq<u8>, int)>)
    ensures
        fold_records(m, a + b) == fold_records(fold_records(m, a), b),
    decreases a.len(),
{
    if a.len() == 0 {
        assert(a + b =~= b);
    } else {
        assert((a + b).skip(1) =~= a.skip(1) + b);
        assert((a + b)[0] == a[0]);
        lemma_fold_append(add_reading(m, a[0].0, a[0].1), a.skip(1), b);
    }
}

pub proof fn lemma_merge_empty(m: Map<Seq<u8>, Summary>)
    ensures
        merge(m, Map::empty()) == m,
        merge(Map::empty(), m) == m,
{
    assert(merge(m, Map::empty()) =~= m);
    assert(merge(Map::empty(), m) =~= m);
}

pub proof fn lemma_merge_assoc(
    a: Map<Seq<u8>, Summary>,
    b: Map<Seq<u8>, Summary>,
    c: Map<Seq<u8>, Summary>,
)
    ensures
        merge(merge(a, b), c) == merge(a, merge(b, c)),
{
    assert(merge(merge(a, b), c) =~= merge(a, merge(b, c)));
}

pub proof fn lemma_add_is_merge(m: Map<Seq<u8>, Summary>, k: Seq<u8>, v: int)
    ensures
        add_reading(m, k, v) == merge(m, add_reading(Map::empty(), k, v)),
{
    assert(add_reading(m, k, v) =~= merge(m, add_reading(Map::empty(), k, v)));
}

/// Folding records into a table is merging the table with their own table.
pub proof fn lemma_fold_is_merge(m: Map<Seq<u8>, Summary>, rs: Seq<(Seq<u8>, int)>)
    ensures
        fold_records(m, rs) == merge(m, aggregate(rs)),
    decreases rs.len(),
{
    if rs.len() == 0 {
        lemma_merge_empty(m);
    } else {
        let k = rs[0].0;
        let v = rs[0].1;
        let one = add_reading(Map::empty(), k, v);
        lemma_fold_is_merge(add_reading(m, k, v), rs.skip(1));
        lemma_fold_is_merge(one, rs.skip(1));
        lemma_add_is_merge(m, k, v);
        lemma_merge_assoc(m, one, aggregate(rs.skip(1)));
    }
}

pub proof fn lemma_aggregate_append(a: Seq<(Seq<u8>, int)>, b: Seq<(Seq<u8>, int)>)
    ensures
        aggregate(a + b) == merge(aggregate(a), aggregate(b)),
{
    lemma_fold_append(Map::empty(), a, b);
    lemma_fold_is_merge(aggregate(a), b);
}

} // verus!
