//! Splitting an input into byte ranges, and why any split gives the same result.

use vstd::prelude::*;

use crate::model::{
    aggregate, all_records, lemma_aggregate_append, lemma_merge_assoc, lemma_merge_empty,
    lemma_records_split, line_end, merge, merge_all, owned_records, records_between, Summary,
};

verus! {

/// Range boundaries over an input: they start at 0, end at its length, never go back,
/// and only the first range begins at 0.
pub open spec fn valid_bounds(s: Seq<u8>, bounds: Seq<int>) -> bool {
    &&& bounds.len() >= 2
    &&& bounds[0] == 0
    &&& bounds.last() == s.len()
    &&& forall|i: int, j: int| 0 <= i <= j < bounds.len() ==> bounds[i] <= bounds[j]
    &&& forall|i: int| 1 <= i < bounds.len() ==> bounds[i] > 0 || s.len() == 0
}

/// The table that each range of `bounds` gives on its own.
pub open spec fn partial_tables(s: Seq<u8>, bounds: Seq<int>) -> Seq<Map<Seq<u8>, Summary>> {
    Seq::new(
        (bounds.len() - 1) as nat,
        |i: int| aggregate(owned_records(s, bounds[i], bounds[i + 1])),
    )
}

pub open spec fn as_ints(v: Seq<usize>) -> Seq<int> {
    v.map_values(|x: usize| x as int)
}

/// Bytes in each range of a static partition but the last.
pub open spec fn static_size(len: int, workers: int) -> int {
    if len / workers == 0 {
        1
    } else {
        len / workers
    }
}

/// The boundary of range `k` in a static partition of `len` bytes into ranges of `size`.
pub open spec fn static_bound(k: int, size: int, len: int) -> int {
    if k * size <= len {
        k * size
    } else {
        len
    }
}

proof fn lemma_prefix_tables(s: Seq<u8>, bounds: Seq<int>, j: int)
    requires
        valid_bounds(s, bounds),
        1 <= j < bounds.len(),
    ensures
        merge_all(partial_tables(s, bounds).take(j)) == aggregate(
            records_between(s, 0, bounds[j]),
        ),
    decreases j,
{
    let ps = partial_tables(s, bounds);
    assert(ps.take(j).drop_last() =~= ps.take(j - 1));
    if j == 1 {
        assert(ps.take(0) =~= Seq::<Map<Seq<u8>, Summary>>::empty());
        lemma_merge_empty(ps[0]);
        assert(merge_all(ps.take(0)) == Map::<Seq<u8>, Summary>::empty());
        assert(ps.take(1).last() == ps[0]);
        assert(merge_all(ps.take(1)) == merge(merge_all(ps.take(0)), ps[0]));
    } else {
        lemma_prefix_tables(s, bounds, j - 1);
        let b = bounds[j - 1];
        let hi = bounds[j];
        lemma_records_split(s, 0, b, hi);
        lemma_aggregate_append(records_between(s, 0, b), records_between(s, line_end(s, b) + 1, hi));
        if s.len() == 0 {
            assert(records_between(s, line_end(s, b) + 1, hi) =~= seq![]);
            assert(owned_records(s, b, hi) =~= seq![]);
        }
        assert(ps.take(j).last() == ps[j - 1]);
        assert(ps[j - 1] == aggregate(records_between(s, line_end(s, b) + 1, hi)));
        assert(merge_all(ps.take(j)) == merge(merge_all(ps.take(j - 1)), ps[j - 1]));
    }
}

/// Splitting an input into ranges, aggregating each range on its own and merging the
/// tables in range order gives the table of the whole input: no record is lost or
/// counted twice, whatever the number of ranges and wherever they are cut.
pub proof fn law_partition_invariance(s: Seq<u8>, bounds: Seq<int>)
    requires
        valid_bounds(s, bounds),
    ensures
        merge_all(partial_tables(s, bounds)) == aggregate(all_records(s)),
{
    lemma_prefix_tables(s, bounds, bounds.len() - 1);
    assert(partial_tables(s, bounds).take(bounds.len() - 1) =~= partial_tables(s, bounds));
}

/// Records owned by the first `j` ranges of `bounds`, counted range by range.
pub open spec fn owned_count(s: Seq<u8>, bounds: Seq<int>, j: int) -> int
    decreases j,
{
    if j <= 0 {
        0
    } else {
        owned_count(s, bounds, j - 1) + owned_records(s, bounds[j - 1], bounds[j]).len()
    }
}

proof fn lemma_prefix_counts(s: Seq<u8>, bounds: Seq<int>, j: int)
    requires
        valid_bounds(s, bounds),
        1 <= j < bounds.len(),
    ensures
        owned_count(s, bounds, j) == records_between(s, 0, bounds[j]).len(),
    decreases j,
{
    assert(owned_count(s, bounds, 0) == 0);
    if j > 1 {
        lemma_prefix_counts(s, bounds, j - 1);
        let b = bounds[j - 1];
        let hi = bounds[j];
        lemma_records_split(s, 0, b, hi);
        if s.len() == 0 {
            assert(records_between(s, line_end(s, b) + 1, hi) =~= seq![]);
            assert(owned_records(s, b, hi) =~= seq![]);
        } else {
            assert(b > 0);
            assert(owned_records(s, b, hi) == records_between(s, line_end(s, b) + 1, hi));
        }
    }
}

/// Whatever the cuts, the records owned by the ranges add up to the records of the
/// input: a record whose delimiters fall on a cut is neither dropped nor counted twice.
pub proof fn law_partition_counts(s: Seq<u8>, bounds: Seq<int>)
    requires
        valid_bounds(s, bounds),
    ensures
        owned_count(s, bounds, bounds.len() - 1) == all_records(s).len(),
{
    lemma_prefix_counts(s, bounds, bounds.len() - 1);
}

/// The order in which two tables are merged does not matter.
pub proof fn law_merge_commutes(a: Map<Seq<u8>, Summary>, b: Map<Seq<u8>, Summary>)
    ensures
        merge(a, b) == merge(b, a),
{
    assert(merge(a, b) =~= merge(b, a));
}

/// How tables are grouped while merging does not matter.
pub proof fn law_merge_associates(
    a: Map<Seq<u8>, Summary>,
    b: Map<Seq<u8>, Summary>,
    c: Map<Seq<u8>, Summary>,
)
    ensures
        merge(merge(a, b), c) == merge(a, merge(b, c)),
{
    lemma_merge_assoc(a, b, c);
}

/// The chunk of a dynamic partition that starts at `start`: `chunk` bytes, cut at the end
/// of the input.
pub fn chunk_range(start: usize, chunk: usize, len: usize) -> (r: (usize, usize))
    requires
        start <= len,
    ensures
        r.0 == start,
        r.1 == (if len - start <= chunk {
            len as int
        } else {
            start + chunk
        }),
        r.0 <= r.1 <= len,
{
    if len - start <= chunk {
        (start, len)
    } else {
        (start, start + chunk)
    }
}

/// Boundaries of a static partition of `len` bytes among `workers` ranges: all ranges but
/// the last have `len / workers` bytes (at least one), the last absorbs the remainder.
pub fn static_partition(len: usize, workers: usize) -> (bounds: Vec<usize>)
    requires
        workers >= 1,
    ensures
        bounds@.len() == workers + 1,
        forall|k: int|
            0 <= k < workers ==> bounds@[k] == static_bound(
                k,
                static_size(len as int, workers as int),
                len as int,
            ),
        bounds@[workers as int] == len,
        forall|s: Seq<u8>| s.len() == len ==> #[trigger] valid_bounds(s, as_ints(bounds@)),
{
    let mut size: usize = len / workers;
    if size == 0 {
        size = 1;
    }
    let mut bounds: Vec<usize> = Vec::new();
    let mut prev: usize = 0;
    let mut k: usize = 0;
    while k < workers
        invariant
            size >= 1,
            size == static_size(len as int, workers as int),
            k <= workers,
            bounds@.len() == k,
            prev == static_bound(k as int, size as int, len as int),
            forall|i: int| 0 <= i < k ==> bounds@[i] == static_bound(i, size as int, len as int),
        decreases workers - k,
    {
        bounds.push(prev);
        proof {
            assert((k + 1) * size == k * size + size) by (nonlinear_arith);
        }
        if len - prev <= size {
            prev = len;
        } else {
            prev = prev + size;
        }
        k = k + 1;
    }
    bounds.push(len);
    proof {
        assert forall|s: Seq<u8>| s.len() == len implies #[trigger] valid_bounds(
            s,
            as_ints(bounds@),
        ) by {
            let b = as_ints(bounds@);
            assert(b[0] == 0);
            assert forall|i: int, j: int| 0 <= i <= j < b.len() implies b[i] <= b[j] by {
                if j < workers {
                    assert(i * size <= j * size) by (nonlinear_arith)
                        requires
                            0 <= i <= j,
                            size >= 1,
                    ;
                }
            }
            assert forall|i: int| 1 <= i < b.len() implies b[i] > 0 || s.len() == 0 by {
                if i < workers {
                    assert(i * size >= size) by (nonlinear_arith)
                        requires
                            i >= 1,
                            size >= 1,
                    ;
                }
            }
        }
    }
    bounds
}

} // verus!
