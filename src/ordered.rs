//! The final table, kept in byte-lexicographic key order.

use vstd::prelude::*;

use crate::model::{combine, summary_in_range, table_in_range, Summary};
use crate::table::KeyedStat;

verus! {

/// Byte-lexicographic order on keys: the first differing byte decides, and a proper
/// prefix comes first.
pub open spec fn key_lt(a: Seq<u8>, b: Seq<u8>) -> bool
    decreases a.len(),
{
    if a.len() == 0 {
        b.len() > 0
    } else if b.len() == 0 {
        false
    } else if a[0] != b[0] {
        a[0] < b[0]
    } else {
        key_lt(a.skip(1), b.skip(1))
    }
}

pub proof fn lemma_key_lt_irreflexive(a: Seq<u8>)
    ensures
        !key_lt(a, a),
    decreases a.len(),
{
    if a.len() > 0 {
        lemma_key_lt_irreflexive(a.skip(1));
    }
}

pub proof fn lemma_key_lt_transitive(a: Seq<u8>, b: Seq<u8>, c: Seq<u8>)
    requires
        key_lt(a, b),
        key_lt(b, c),
    ensures
        key_lt(a, c),
    decreases a.len(),
{
    if a.len() > 0 && b.len() > 0 && c.len() > 0 && a[0] == b[0] && b[0] == c[0] {
        lemma_key_lt_transitive(a.skip(1), b.skip(1), c.skip(1));
    }
}

pub proof fn lemma_key_lt_total(a: Seq<u8>, b: Seq<u8>)
    requires
        a != b,
    ensures
        key_lt(a, b) || key_lt(b, a),
    decreases a.len(),
{
    if a.len() > 0 && b.len() > 0 && a[0] == b[0] {
        assert(a =~= seq![a[0]] + a.skip(1));
        assert(b =~= seq![b[0]] + b.skip(1));
        lemma_key_lt_total(a.skip(1), b.skip(1));
    } else if a.len() == 0 && b.len() == 0 {
        assert(a =~= b);
    }
}

/// Compares the first `alen` bytes of `a` with the first `blen` bytes of `b`: negative
/// when the first comes first, zero when they are equal, positive otherwise.
pub fn compare_keys(a: &[u8; 100], alen: usize, b: &[u8; 100], blen: usize) -> (r: i32)
    requires
        alen <= 100,
        blen <= 100,
    ensures
        (r < 0) == key_lt(a@.subrange(0, alen as int), b@.subrange(0, blen as int)),
        (r == 0) == (a@.subrange(0, alen as int) == b@.subrange(0, blen as int)),
        (r > 0) == key_lt(b@.subrange(0, blen as int), a@.subrange(0, alen as int)),
{
    let ghost ka = a@.subrange(0, alen as int);
    let ghost kb = b@.subrange(0, blen as int);
    let mut i: usize = 0;
    assert(ka.skip(0) =~= ka);
    assert(kb.skip(0) =~= kb);
    while i < alen && i < blen
        invariant
            alen <= 100,
            blen <= 100,
            ka == a@.subrange(0, alen as int),
            kb == b@.subrange(0, blen as int),
            i <= alen,
            i <= blen,
            forall|j: int| 0 <= j < i ==> a@[j] == b@[j],
            key_lt(ka, kb) == key_lt(ka.skip(i as int), kb.skip(i as int)),
            key_lt(kb, ka) == key_lt(kb.skip(i as int), ka.skip(i as int)),
        decreases alen - i,
    {
        let x = a[i];
        let y = b[i];
        assert(ka.skip(i as int)[0] == x);
        assert(kb.skip(i as int)[0] == y);
        if x != y {
            proof {
                lemma_key_lt_irreflexive(ka);
                if ka == kb {
                    assert(ka[i as int] == kb[i as int]);
                }
            }
            if x < y {
                return -1;
            } else {
                return 1;
            }
        }
        assert(ka.skip(i as int).skip(1) =~= ka.skip(i + 1));
        assert(kb.skip(i as int).skip(1) =~= kb.skip(i + 1));
        i = i + 1;
    }
    proof {
        lemma_key_lt_irreflexive(ka);
    }
    if alen == blen {
        assert(ka =~= kb);
        0
    } else if alen < blen {
        assert(ka.skip(i as int).len() == 0);
        assert(ka != kb);
        -1
    } else {
        assert(kb.skip(i as int).len() == 0);
        assert(ka != kb);
        1
    }
}

/// The entries of an ordered table: keys strictly increasing, each agreeing with the
/// model, and every key of the model present.
pub open spec fn ordered_inv(es: Seq<KeyedStat>, m: Map<Seq<u8>, Summary>, rows: int) -> bool {
    &&& forall|i: int| 0 <= i < es.len() ==> (#[trigger] es[i]).len <= 100
    &&& forall|i: int|
        0 <= i < es.len() ==> m.contains_key((#[trigger] es[i]).key()) && m[es[i].key()]
            == es[i].summary()
    &&& forall|i: int, j: int|
        0 <= i < j < es.len() ==> key_lt((#[trigger] es[i]).key(), (#[trigger] es[j]).key())
    &&& forall|k: Seq<u8>| #[trigger]
        m.contains_key(k) ==> exists|i: int| 0 <= i < es.len() && (#[trigger] es[i]).key() == k
    &&& table_in_range(m, rows)
}

/// The result of a run: per-key statistics in byte-lexicographic key order.
pub struct FinalTable {
    entries: Vec<KeyedStat>,
    rows: usize,
    model: Ghost<Map<Seq<u8>, Summary>>,
}

impl View for FinalTable {
    type V = Map<Seq<u8>, Summary>;

    closed spec fn view(&self) -> Map<Seq<u8>, Summary> {
        self.model@
    }
}

impl FinalTable {
    /// Number of readings the table accounts for, as far as its bounds go.
    pub closed spec fn rows(&self) -> nat {
        self.rows as nat
    }

    pub closed spec fn wf(&self) -> bool {
        ordered_inv(self.entries@, self.model@, self.rows as int)
    }

    pub closed spec fn entries_view(&self) -> Seq<KeyedStat> {
        self.entries@
    }

    pub fn new() -> (t: FinalTable)
        ensures
            t.wf(),
            t@ == Map::<Seq<u8>, Summary>::empty(),
            t.rows() == 0,
    {
        FinalTable { entries: Vec::new(), rows: 0, model: Ghost(Map::empty()) }
    }

    pub proof fn lemma_in_range(&self)
        requires
            self.wf(),
        ensures
            table_in_range(self@, self.rows() as int),
    {
    }

    /// Raises the bound on the readings the table accounts for.
    pub fn reserve_rows(&mut self, extra: usize)
        requires
            old(self).wf(),
            old(self).rows() + extra <= usize::MAX,
        ensures
            final(self).wf(),
            final(self)@ == old(self)@,
            final(self).rows() == old(self).rows() + extra,
    {
        self.rows = self.rows + extra;
        proof {
            assert forall|k: Seq<u8>| #[trigger] self.model@.contains_key(k) implies summary_in_range(
                self.model@[k],
                self.rows as int,
            ) by {
                assert(summary_in_range(self.model@[k], self.rows - extra));
            }
        }
    }

    /// Number of keys.
    pub fn len(&self) -> (r: usize)
        ensures
            r == self.entries_view().len(),
    {
        self.entries.len()
    }

    /// The entries, in key order.
    pub fn entries(&self) -> (r: &Vec<KeyedStat>)
        requires
            self.wf(),
        ensures
            r@ == self.entries_view(),
            ordered_inv(r@, self@, self.rows() as int),
    {
        &self.entries
    }

    /// Index of the first entry whose key does not come before `key`.
    fn position(&self, key: &[u8; 100], len: usize) -> (p: usize)
        requires
            self.wf(),
            len <= 100,
        ensures
            p <= self.entries@.len(),
            forall|i: int| 0 <= i < p ==> key_lt(self.entries@[i].key(), key@.subrange(0, len as int)),
            p < self.entries@.len() ==> !key_lt(self.entries@[p as int].key(), key@.subrange(0, len as int)),
    {
        let ghost k = key@.subrange(0, len as int);
        let mut lo: usize = 0;
        let mut hi: usize = self.entries.len();
        while lo < hi
            invariant
                self.wf(),
                len <= 100,
                k == key@.subrange(0, len as int),
                lo <= hi <= self.entries@.len(),
                forall|i: int| 0 <= i < lo ==> key_lt(self.entries@[i].key(), k),
                hi < self.entries@.len() ==> !key_lt(self.entries@[hi as int].key(), k),
            decreases hi - lo,
        {
            let mid = lo + (hi - lo) / 2;
            let e = &self.entries[mid];
            if compare_keys(&e.station, e.len, key, len) < 0 {
                proof {
                    assert forall|i: int| 0 <= i < mid + 1 implies key_lt(self.entries@[i].key(), k) by {
                        if i < mid {
                            lemma_key_lt_transitive(self.entries@[i].key(), self.entries@[mid as int].key(), k);
                        }
                    }
                }
                lo = mid + 1;
            } else {
                hi = mid;
            }
        }
        lo
    }

    /// Folds an entry of a partial table in: its statistic is combined with the one
    /// already held for its key, or placed at its key's position.
    pub fn absorb(&mut self, ks: &KeyedStat)
        requires
            old(self).wf(),
            ks.len <= 100,
            1 <= ks.count,
            -999 <= ks.min <= ks.max <= 999,
            -999 * ks.count <= ks.sum <= 999 * ks.count,
            (if old(self)@.contains_key(ks.key()) {
                old(self)@[ks.key()].count
            } else {
                0
            }) + ks.count <= old(self).rows(),
        ensures
            final(self).wf(),
            final(self).rows() == old(self).rows(),
            final(self)@ == (if old(self)@.contains_key(ks.key()) {
                old(self)@.insert(ks.key(), combine(old(self)@[ks.key()], ks.summary()))
            } else {
                old(self)@.insert(ks.key(), ks.summary())
            }),
    {
        let ghost key = ks.key();
        let ghost m0 = self.model@;
        let ghost e0 = self.entries@;
        let p = self.position(&ks.station, ks.len);
        if p < self.entries.len() && compare_keys(&self.entries[p].station, self.entries[p].len, &ks.station, ks.len) == 0 {
            let e = self.entries[p];
            proof {
                assert(m0.contains_key(key));
                assert(summary_in_range(m0[key], self.rows as int));
            }
            let mut ne = e;
            ne.sum = e.sum + ks.sum;
            ne.count = e.count + ks.count;
            if ks.min < e.min {
                ne.min = ks.min;
            }
            if ks.max > e.max {
                ne.max = ks.max;
            }
            self.entries.set(p, ne);
            self.model = Ghost(m0.insert(key, combine(m0[key], ks.summary())));
            proof {
                let es = self.entries@;
                let m1 = self.model@;
                assert(ne.key() == key);
                assert(ne.summary() == combine(m0[key], ks.summary()));
                assert forall|i: int| 0 <= i < es.len() implies m1.contains_key((#[trigger] es[i]).key())
                    && m1[es[i].key()] == es[i].summary() by {
                    if i != p {
                        assert(es[i] == e0[i]);
                        lemma_key_lt_irreflexive(key);
                        if i < p {
                            assert(key_lt(e0[i].key(), e0[p as int].key()));
                        } else {
                            assert(key_lt(e0[p as int].key(), e0[i].key()));
                        }
                    }
                }
                assert forall|i: int, j: int| 0 <= i < j < es.len() implies key_lt(
                    (#[trigger] es[i]).key(),
                    (#[trigger] es[j]).key(),
                ) by {
                    assert(key_lt(e0[i].key(), e0[j].key()));
                }
                assert forall|k: Seq<u8>| #[trigger] m1.contains_key(k) implies exists|i: int|
                    0 <= i < es.len() && (#[trigger] es[i]).key() == k by {
                    if k == key {
                        assert(es[p as int].key() == k);
                    } else {
                        let i = choose|i: int| 0 <= i < e0.len() && (#[trigger] e0[i]).key() == k;
                        assert(es[i].key() == k);
                    }
                }
                assert forall|k: Seq<u8>| #[trigger] m1.contains_key(k) implies summary_in_range(
                    m1[k],
                    self.rows as int,
                ) by {
                    assert(m0.contains_key(k));
                    assert(summary_in_range(m0[k], self.rows as int));
                }
            }
        } else {
            proof {
                lemma_key_lt_irreflexive(key);
                if p < e0.len() {
                    lemma_key_lt_total(e0[p as int].key(), key);
                }
                assert(!m0.contains_key(key)) by {
                    if m0.contains_key(key) {
                        let i = choose|i: int| 0 <= i < e0.len() && (#[trigger] e0[i]).key() == key;
                        if i < p {
                        } else if i == p {
                        } else {
                            lemma_key_lt_transitive(key, e0[p as int].key(), e0[i].key());
                        }
                    }
                }
            }
            self.entries.insert(p, *ks);
            self.model = Ghost(m0.insert(key, ks.summary()));
            proof {
                let es = self.entries@;
                let m1 = self.model@;
                assert(es[p as int] == *ks);
                assert forall|i: int| 0 <= i < es.len() implies (#[trigger] es[i]).len <= 100 by {
                    if i < p {
                        assert(es[i] == e0[i]);
                    } else if i > p {
                        assert(es[i] == e0[i - 1]);
                    }
                }
                assert forall|i: int| 0 <= i < es.len() implies m1.contains_key((#[trigger] es[i]).key())
                    && m1[es[i].key()] == es[i].summary() by {
                    if i < p {
                        assert(es[i] == e0[i]);
                    } else if i > p {
                        assert(es[i] == e0[i - 1]);
                    }
                    if i != p {
                        assert(m0.contains_key(es[i].key()));
                    }
                }
                assert forall|i: int, j: int| 0 <= i < j < es.len() implies key_lt(
                    (#[trigger] es[i]).key(),
                    (#[trigger] es[j]).key(),
                ) by {
                    if j < p {
                        assert(es[i] == e0[i] && es[j] == e0[j]);
                    } else if j == p {
                        assert(es[i] == e0[i]);
                    } else if i < p {
                        assert(es[i] == e0[i] && es[j] == e0[j - 1]);
                        assert(key_lt(e0[i].key(), key));
                        assert(key_lt(key, e0[p as int].key()));
                        if j - 1 > p {
                            assert(key_lt(e0[p as int].key(), e0[j - 1].key()));
                            lemma_key_lt_transitive(key, e0[p as int].key(), e0[j - 1].key());
                        }
                        lemma_key_lt_transitive(e0[i].key(), key, e0[j - 1].key());
                    } else if i == p {
                        assert(es[j] == e0[j - 1]);
                        assert(key_lt(key, e0[p as int].key()));
                        if j - 1 > p {
                            assert(key_lt(e0[p as int].key(), e0[j - 1].key()));
                            lemma_key_lt_transitive(key, e0[p as int].key(), e0[j - 1].key());
                        }
                    } else {
                        assert(es[i] == e0[i - 1] && es[j] == e0[j - 1]);
                        assert(key_lt(e0[i - 1].key(), e0[j - 1].key()));
                    }
                }
                assert forall|k: Seq<u8>| #[trigger] m1.contains_key(k) implies exists|i: int|
                    0 <= i < es.len() && (#[trigger] es[i]).key() == k by {
                    if k == key {
                        assert(es[p as int].key() == k);
                    } else {
                        let i = choose|i: int| 0 <= i < e0.len() && (#[trigger] e0[i]).key() == k;
                        if i < p {
                            assert(es[i] == e0[i]);
                        } else {
                            assert(es[i + 1] == e0[i]);
                        }
                    }
                }
                assert forall|k: Seq<u8>| #[trigger] m1.contains_key(k) implies summary_in_range(
                    m1[k],
                    self.rows as int,
                ) by {
                    if k != key {
                        assert(m0.contains_key(k));
                    }
                }
            }
        }
    }
}

} // verus!
