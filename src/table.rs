//! The partial table of one worker: fixed slots, chained by exact key bytes.

use vstd::prelude::*;

use crate::model::{
    add_reading, combine, merge, single, summary_in_range, table_in_range, Summary, MAX_TENTHS,
};
use crate::ordered::FinalTable;
use crate::scan::key_hash;

verus! {

/// One key, stored inline with its length, and its running statistic in tenths.
#[derive(Clone, Copy)]
pub struct KeyedStat {
    pub station: [u8; 100],
    pub len: usize,
    pub min: i32,
    pub max: i32,
    pub sum: i128,
    pub count: usize,
}

impl KeyedStat {
    pub open spec fn key(&self) -> Seq<u8> {
        self.station@.subrange(0, self.len as int)
    }

    pub open spec fn summary(&self) -> Summary {
        Summary {
            min: self.min as int,
            max: self.max as int,
            sum: self.sum as int,
            count: self.count as int,
        }
    }
}

/// The slot of a key with hash `hash` in a table of `n` slots.
pub open spec fn slot_for(hash: u64, n: usize) -> int {
    (hash & ((n - 1) as u64)) as int
}

proof fn lemma_and_le(a: u64, b: u64)
    by (bit_vector)
    ensures
        a & b <= b,
{
}

/// Whether the first `alen` bytes of `a` are the first `blen` bytes of `b`.
pub fn same_key(a: &[u8; 100], alen: usize, b: &[u8; 100], blen: usize) -> (r: bool)
    requires
        alen <= 100,
        blen <= 100,
    ensures
        r == (a@.subrange(0, alen as int) == b@.subrange(0, blen as int)),
{
    if alen != blen {
        assert(a@.subrange(0, alen as int).len() != b@.subrange(0, blen as int).len());
        return false;
    }
    let mut i: usize = 0;
    while i < alen
        invariant
            alen == blen,
            alen <= 100,
            i <= alen,
            forall|j: int| 0 <= j < i ==> a@[j] == b@[j],
        decreases alen - i,
    {
        if a[i] != b[i] {
            assert(a@.subrange(0, alen as int)[i as int] != b@.subrange(0, blen as int)[i as int]);
            return false;
        }
        i = i + 1;
    }
    assert(a@.subrange(0, alen as int) =~= b@.subrange(0, blen as int));
    true
}

/// Number of entries over all chains.
pub open spec fn chain_total(t: Seq<Vec<KeyedStat>>) -> int
    decreases t.len(),
{
    if t.len() == 0 {
        0
    } else {
        chain_total(t.drop_last()) + t.last()@.len()
    }
}

/// Number of entries in chains that hold more than one key.
pub open spec fn collisions(t: Seq<Vec<KeyedStat>>) -> int
    decreases t.len(),
{
    if t.len() == 0 {
        0
    } else {
        collisions(t.drop_last()) + if t.last()@.len() > 1 {
            t.last()@.len() as int
        } else {
            0
        }
    }
}

proof fn lemma_chain_total_update(t: Seq<Vec<KeyedStat>>, i: int, x: Vec<KeyedStat>)
    requires
        0 <= i < t.len(),
    ensures
        chain_total(t.update(i, x)) == chain_total(t) - t[i]@.len() + x@.len(),
    decreases t.len(),
{
    if i == t.len() - 1 {
        assert(t.update(i, x).drop_last() =~= t.drop_last());
    } else {
        assert(t.update(i, x).drop_last() =~= t.drop_last().update(i, x));
        lemma_chain_total_update(t.drop_last(), i, x);
    }
}

proof fn lemma_chain_total_empty(t: Seq<Vec<KeyedStat>>)
    requires
        forall|j: int| 0 <= j < t.len() ==> (#[trigger] t[j])@.len() == 0,
    ensures
        chain_total(t) == 0,
    decreases t.len(),
{
    if t.len() > 0 {
        lemma_chain_total_empty(t.drop_last());
    }
}

proof fn lemma_collisions_bounded(t: Seq<Vec<KeyedStat>>, i: int)
    requires
        0 <= i <= t.len(),
    ensures
        0 <= collisions(t.take(i)) <= chain_total(t.take(i)) <= chain_total(t),
    decreases t.len(),
{
    if i == t.len() {
        assert(t.take(i) =~= t);
        lemma_collisions_le_total(t);
    } else {
        assert(t.drop_last().take(i) =~= t.take(i));
        lemma_collisions_bounded(t.drop_last(), i);
    }
}

proof fn lemma_collisions_le_total(t: Seq<Vec<KeyedStat>>)
    ensures
        0 <= collisions(t) <= chain_total(t),
    decreases t.len(),
{
    if t.len() > 0 {
        lemma_collisions_le_total(t.drop_last());
    }
}

/// The invariant of a partial table, over the values of its fields: every entry sits in
/// the slot of its key's hash and agrees with the model, a chain holds a key at most
/// once, every key of the model has an entry, and the slots in use are listed once each.
pub open spec fn table_inv(
    n: usize,
    t: Seq<Vec<KeyedStat>>,
    occ: Seq<usize>,
    m: Map<Seq<u8>, Summary>,
    size: int,
    rows: int,
) -> bool {
    &&& n > 0
    &&& t.len() == n
    &&& m.dom().finite()
    &&& size == m.dom().len()
    &&& chain_total(t) == size
    &&& size <= rows
    &&& table_in_range(m, rows)
    &&& forall|i: int, j: int|
        0 <= i < n && 0 <= j < t[i]@.len() ==> {
            let e = #[trigger] t[i]@[j];
            &&& e.len <= 100
            &&& slot_for(key_hash(e.key()), n) == i
            &&& m.contains_key(e.key())
            &&& m[e.key()] == e.summary()
        }
    &&& forall|i: int, j1: int, j2: int|
        0 <= i < n && 0 <= j1 < t[i]@.len() && 0 <= j2 < t[i]@.len() && j1 != j2 ==> (
        #[trigger] t[i]@[j1]).key() != (#[trigger] t[i]@[j2]).key()
    &&& forall|k: Seq<u8>| #[trigger]
        m.contains_key(k) ==> exists|j: int|
            0 <= j < t[slot_for(key_hash(k), n)]@.len() && (#[trigger] t[slot_for(
                key_hash(k),
                n,
            )]@[j]).key() == k
    &&& forall|a: int| 0 <= a < occ.len() ==> (#[trigger] occ[a]) < n && t[occ[a] as int]@.len() > 0
    &&& forall|a: int, b: int| 0 <= a < occ.len() && 0 <= b < occ.len() && a != b ==> occ[a] != occ[b]
    &&& forall|i: int|
        0 <= i < n && (#[trigger] t[i]@.len()) > 0 ==> exists|a: int| 0 <= a < occ.len() && occ[a] == i
}

proof fn lemma_update_keeps_inv(
    n: usize,
    t0: Seq<Vec<KeyedStat>>,
    t1: Seq<Vec<KeyedStat>>,
    occ: Seq<usize>,
    m0: Map<Seq<u8>, Summary>,
    size: int,
    rows: int,
    slot: int,
    j: int,
    ne: KeyedStat,
    v: int,
)
    requires
        table_inv(n, t0, occ, m0, size, rows),
        0 <= slot < n,
        0 <= j < t0[slot]@.len(),
        ne.key() == t0[slot]@[j].key(),
        ne.len <= 100,
        -MAX_TENTHS <= v <= MAX_TENTHS,
        ne.summary() == combine(m0[ne.key()], single(v)),
        t1.len() == t0.len(),
        forall|i: int| 0 <= i < n && i != slot ==> t1[i] == t0[i],
        t1[slot]@ == t0[slot]@.update(j, ne),
    ensures
        m0.contains_key(ne.key()),
        table_inv(n, t1, occ, m0.insert(ne.key(), ne.summary()), size, rows + 1),
{
    let key = ne.key();
    let m1 = m0.insert(key, ne.summary());
    assert(t1 =~= t0.update(slot, t1[slot]));
    lemma_chain_total_update(t0, slot, t1[slot]);
    assert(m0.contains_key(key));
    assert(m1.dom() =~= m0.dom());
    assert forall|i: int, jj: int| 0 <= i < n && 0 <= jj < t1[i]@.len() implies {
        let e = #[trigger] t1[i]@[jj];
        &&& e.len <= 100
        &&& slot_for(key_hash(e.key()), n) == i
        &&& m1.contains_key(e.key())
        &&& m1[e.key()] == e.summary()
    } by {
        if i == slot && jj == j {
        } else {
            assert(t1[i]@[jj] == t0[i]@[jj]);
            assert(t0[i]@[jj].key() != key);
        }
    }
    assert forall|i: int, j1: int, j2: int|
        0 <= i < n && 0 <= j1 < t1[i]@.len() && 0 <= j2 < t1[i]@.len() && j1 != j2 implies (
        #[trigger] t1[i]@[j1]).key() != (#[trigger] t1[i]@[j2]).key() by {
        assert(t0[i]@[j1].key() != t0[i]@[j2].key());
    }
    assert forall|k: Seq<u8>| #[trigger] m1.contains_key(k) implies exists|jj: int|
        0 <= jj < t1[slot_for(key_hash(k), n)]@.len() && (#[trigger] t1[slot_for(
            key_hash(k),
            n,
        )]@[jj]).key() == k by {
        let s = slot_for(key_hash(k), n);
        lemma_and_le(key_hash(k), (n - 1) as u64);
        assert(m0.contains_key(k));
        let jj = choose|jj: int| 0 <= jj < t0[s]@.len() && (#[trigger] t0[s]@[jj]).key() == k;
        assert(t1[s]@[jj].key() == k);
    }
    assert forall|k: Seq<u8>| #[trigger] m1.contains_key(k) implies summary_in_range(m1[k], rows + 1) by {
        assert(m0.contains_key(k));
        assert(summary_in_range(m0[k], rows));
        if k == key {
            assert(m1[k] == combine(m0[key], single(v)));
            assert(m1[k].count == m0[k].count + 1);
            assert(m1[k].sum == m0[k].sum + v);
            assert(-999 <= v <= 999);
        }
    }
    assert forall|a: int| 0 <= a < occ.len() implies (#[trigger] occ[a]) < n && t1[occ[a] as int]@.len() > 0 by {
    }
    assert forall|i: int| 0 <= i < n && (#[trigger] t1[i]@.len()) > 0 implies exists|a: int|
        0 <= a < occ.len() && occ[a] == i by {
        assert(t0[i]@.len() > 0);
    }
}

proof fn lemma_insert_keeps_inv(
    n: usize,
    t0: Seq<Vec<KeyedStat>>,
    t1: Seq<Vec<KeyedStat>>,
    occ0: Seq<usize>,
    occ1: Seq<usize>,
    m0: Map<Seq<u8>, Summary>,
    size: int,
    rows: int,
    slot: int,
    ks: KeyedStat,
    v: int,
)
    requires
        table_inv(n, t0, occ0, m0, size, rows),
        0 <= slot < n,
        slot == slot_for(key_hash(ks.key()), n),
        !m0.contains_key(ks.key()),
        ks.len <= 100,
        -MAX_TENTHS <= v <= MAX_TENTHS,
        ks.summary() == single(v),
        t1.len() == t0.len(),
        forall|i: int| 0 <= i < n && i != slot ==> t1[i] == t0[i],
        t1[slot]@ == t0[slot]@.push(ks),
        occ1 == (if t0[slot]@.len() == 0 {
            occ0.push(slot as usize)
        } else {
            occ0
        }),
    ensures
        table_inv(n, t1, occ1, m0.insert(ks.key(), single(v)), size + 1, rows + 1),
{
    let key = ks.key();
    let m1 = m0.insert(key, single(v));
    assert(m1.dom() =~= m0.dom().insert(key));
    assert(t1 =~= t0.update(slot, t1[slot]));
    lemma_chain_total_update(t0, slot, t1[slot]);
    assert forall|i: int, jj: int| 0 <= i < n && 0 <= jj < t1[i]@.len() implies {
        let e = #[trigger] t1[i]@[jj];
        &&& e.len <= 100
        &&& slot_for(key_hash(e.key()), n) == i
        &&& m1.contains_key(e.key())
        &&& m1[e.key()] == e.summary()
    } by {
        if i == slot && jj == t0[slot]@.len() {
        } else {
            assert(t1[i]@[jj] == t0[i]@[jj]);
            assert(m0.contains_key(t0[i]@[jj].key()));
        }
    }
    assert forall|i: int, j1: int, j2: int|
        0 <= i < n && 0 <= j1 < t1[i]@.len() && 0 <= j2 < t1[i]@.len() && j1 != j2 implies (
        #[trigger] t1[i]@[j1]).key() != (#[trigger] t1[i]@[j2]).key() by {
        if i == slot && j1 < t0[slot]@.len() {
            assert(t1[i]@[j1] == t0[i]@[j1]);
            assert(m0.contains_key(t0[i]@[j1].key()));
        }
        if i == slot && j2 < t0[slot]@.len() {
            assert(t1[i]@[j2] == t0[i]@[j2]);
            assert(m0.contains_key(t0[i]@[j2].key()));
        }
        if i != slot {
            assert(t1[i]@[j1] == t0[i]@[j1]);
            assert(t1[i]@[j2] == t0[i]@[j2]);
        }
    }
    assert forall|k: Seq<u8>| #[trigger] m1.contains_key(k) implies exists|jj: int|
        0 <= jj < t1[slot_for(key_hash(k), n)]@.len() && (#[trigger] t1[slot_for(
            key_hash(k),
            n,
        )]@[jj]).key() == k by {
        let s = slot_for(key_hash(k), n);
        lemma_and_le(key_hash(k), (n - 1) as u64);
        if k == key {
            assert(t1[s]@[t0[slot]@.len() as int] == ks);
        } else {
            assert(m0.contains_key(k));
            let jj = choose|jj: int| 0 <= jj < t0[s]@.len() && (#[trigger] t0[s]@[jj]).key() == k;
            assert(t1[s]@[jj] == t0[s]@[jj]);
        }
    }
    assert forall|k: Seq<u8>| #[trigger] m1.contains_key(k) implies summary_in_range(m1[k], rows + 1) by {
        if k != key {
            assert(m0.contains_key(k));
        }
    }
    assert forall|a: int| 0 <= a < occ1.len() implies (#[trigger] occ1[a]) < n && t1[occ1[a] as int]@.len() > 0 by {
        if a < occ0.len() {
            assert(occ1[a] == occ0[a]);
        }
    }
    assert forall|a: int, b: int| 0 <= a < occ1.len() && 0 <= b < occ1.len() && a != b implies occ1[a] != occ1[b] by {
        if t0[slot]@.len() == 0 {
            if a == occ0.len() && b < occ0.len() {
                assert(occ0[b] != slot);
            }
            if b == occ0.len() && a < occ0.len() {
                assert(occ0[a] != slot);
            }
        }
    }
    assert forall|i: int| 0 <= i < n && (#[trigger] t1[i]@.len()) > 0 implies exists|a: int|
        0 <= a < occ1.len() && occ1[a] == i by {
        if i == slot && t0[slot]@.len() == 0 {
            assert(occ1[occ0.len() as int] == i);
        } else {
            assert(t0[i]@.len() > 0);
            let a = choose|a: int| 0 <= a < occ0.len() && occ0[a] == i;
            assert(occ1[a] == i);
        }
    }
}

/// A table of per-key statistics local to one worker: a fixed number of slots, each a
/// chain of the keys whose hash falls in it, and the list of slots in use.
pub struct LPTable {
    num_slots: usize,
    table: Vec<Vec<KeyedStat>>,
    size: usize,
    occupied_slots: Vec<usize>,
    rows: usize,
    model: Ghost<Map<Seq<u8>, Summary>>,
}

impl View for LPTable {
    type V = Map<Seq<u8>, Summary>;

    closed spec fn view(&self) -> Map<Seq<u8>, Summary> {
        self.model@
    }
}

impl LPTable {
    /// Number of slots.
    pub closed spec fn slots(&self) -> nat {
        self.num_slots as nat
    }

    /// The chains of all slots.
    pub closed spec fn chains(&self) -> Seq<Vec<KeyedStat>> {
        self.table@
    }

    /// Number of readings folded in so far.
    pub closed spec fn rows(&self) -> nat {
        self.rows as nat
    }

    pub closed spec fn wf(&self) -> bool {
        table_inv(
            self.num_slots,
            self.table@,
            self.occupied_slots@,
            self.model@,
            self.size as int,
            self.rows as int,
        )
    }

    /// An empty table of `num_slots` slots (a power of two), each with room for
    /// `min_slot_size` keys before it grows.
    pub fn new(num_slots: usize, min_slot_size: usize) -> (t: LPTable)
        requires
            num_slots > 0,
            num_slots & (num_slots - 1) as usize == 0,
        ensures
            t.wf(),
            t@ == Map::<Seq<u8>, Summary>::empty(),
            t.slots() == num_slots,
            t.rows() == 0,
    {
        let mut table: Vec<Vec<KeyedStat>> = Vec::new();
        let mut i: usize = 0;
        while i < num_slots
            invariant
                i <= num_slots,
                table@.len() == i,
                forall|j: int| 0 <= j < i ==> (#[trigger] table@[j])@.len() == 0,
            decreases num_slots - i,
        {
            table.push(Vec::with_capacity(min_slot_size));
            i = i + 1;
        }
        let t = LPTable {
            num_slots,
            table,
            size: 0,
            occupied_slots: Vec::new(),
            rows: 0,
            model: Ghost(Map::empty()),
        };
        proof {
            assert(t.model@.dom() =~= Set::<Seq<u8>>::empty());
            lemma_chain_total_empty(t.table@);
        }
        t
    }

    /// Number of entries in chains that hold more than one key: a measure of how well
    /// the hash spreads the keys, not needed for the results.
    pub fn get_collision_count(&self) -> (r: usize)
        requires
            self.wf(),
        ensures
            r == collisions(self.chains()),
    {
        let mut count: usize = 0;
        let mut i: usize = 0;
        while i < self.num_slots
            invariant
                self.wf(),
                i <= self.num_slots,
                count == collisions(self.table@.take(i as int)),
            decreases self.num_slots - i,
        {
            proof {
                lemma_collisions_bounded(self.table@, i + 1);
                assert(self.table@.take(i + 1).drop_last() =~= self.table@.take(i as int));
            }
            let l = self.table[i].len();
            if l > 1 {
                count = count + l;
            }
            i = i + 1;
        }
        assert(self.table@.take(self.num_slots as int) =~= self.table@);
        count
    }

    /// Number of distinct keys.
    pub fn len(&self) -> (r: usize)
        requires
            self.wf(),
        ensures
            r == self@.dom().len(),
    {
        self.size
    }

    /// Number of readings folded in.
    pub fn row_count(&self) -> (r: usize)
        ensures
            r == self.rows(),
    {
        self.rows
    }

    /// Number of slots.
    pub fn num_slots(&self) -> (r: usize)
        ensures
            r == self.slots(),
    {
        self.num_slots
    }

    /// Folds the reading `temp` of the key held in the first `len` bytes of `station`,
    /// whose hash is `hash`: its chain is searched by exact key bytes, and the key is
    /// appended to the chain when it is not there.
    pub fn insert_or_update(&mut self, station: &[u8; 100], len: usize, hash: u64, temp: i32)
        requires
            old(self).wf(),
            len <= 100,
            hash == key_hash(station@.subrange(0, len as int)),
            -MAX_TENTHS <= temp <= MAX_TENTHS,
            old(self).rows() < usize::MAX,
        ensures
            final(self).wf(),
            final(self)@ == add_reading(old(self)@, station@.subrange(0, len as int), temp as int),
            final(self).slots() == old(self).slots(),
            final(self).rows() == old(self).rows() + 1,
    {
        let ghost key = station@.subrange(0, len as int);
        let ghost m0 = self.model@;
        let mask: u64 = (self.num_slots - 1) as u64;
        let slot: usize = (hash & mask) as usize;
        proof {
            lemma_and_le(hash, mask);
        }
        let chain_len = self.table[slot].len();
        let mut j: usize = 0;
        while j < chain_len
            invariant
                *self == *old(self),
                m0 == self.model@,
                self.wf(),
                len <= 100,
                key == station@.subrange(0, len as int),
                hash == key_hash(key),
                -MAX_TENTHS <= temp <= MAX_TENTHS,
                self.rows < usize::MAX,
                slot < self.num_slots,
                slot == slot_for(hash, self.num_slots),
                chain_len == self.table@[slot as int]@.len(),
                j <= chain_len,
                forall|jj: int| 0 <= jj < j ==> (#[trigger] self.table@[slot as int]@[jj]).key() != key,
            decreases chain_len - j,
        {
            let e: KeyedStat = self.table[slot][j];
            if same_key(&e.station, e.len, station, len) {
                let ghost t0 = self.table@;
                proof {
                    assert(t0[slot as int]@[j as int] == e);
                    assert(m0.contains_key(key));
                    assert(summary_in_range(m0[key], self.rows as int));
                    assert(e.summary() == m0[key]);
                    assert(MAX_TENTHS == 999);
                    assert(-999 * e.count <= e.sum <= 999 * e.count);
                    assert(e.count <= self.rows);
                }
                let mut ne = e;
                ne.sum = e.sum + temp as i128;
                ne.count = e.count + 1;
                if temp < e.min {
                    ne.min = temp;
                }
                if temp > e.max {
                    ne.max = temp;
                }
                self.table[slot][j] = ne;
                proof {
                    lemma_update_keeps_inv(
                        self.num_slots,
                        t0,
                        self.table@,
                        self.occupied_slots@,
                        m0,
                        self.size as int,
                        self.rows as int,
                        slot as int,
                        j as int,
                        ne,
                        temp as int,
                    );
                }
                self.rows = self.rows + 1;
                self.model = Ghost(m0.insert(key, ne.summary()));
                return ;
            }
            j = j + 1;
        }
        let ks = KeyedStat { station: *station, len, min: temp, max: temp, sum: temp as i128, count: 1 };
        let ghost t0 = self.table@;
        let ghost occ0 = self.occupied_slots@;
        proof {
            assert(!m0.contains_key(key)) by {
                if m0.contains_key(key) {
                    let jj = choose|jj: int|
                        0 <= jj < t0[slot_for(key_hash(key), self.num_slots)]@.len() && (
                        #[trigger] t0[slot_for(key_hash(key), self.num_slots)]@[jj]).key() == key;
                    assert(t0[slot as int]@[jj].key() == key);
                }
            }
            assert(ks.key() == key);
        }
        if self.table[slot].len() == 0 {
            self.occupied_slots.push(slot);
        }
        self.table[slot].push(ks);
        proof {
            lemma_insert_keeps_inv(
                self.num_slots,
                t0,
                self.table@,
                occ0,
                self.occupied_slots@,
                m0,
                self.size as int,
                self.rows as int,
                slot as int,
                ks,
                temp as int,
            );
        }
        self.size = self.size + 1;
        self.rows = self.rows + 1;
        self.model = Ghost(m0.insert(key, single(temp as int)));
    }
}

/// Folding in one more key of `lp` extends the merge by that key.
proof fn lemma_merge_one_more(
    m0: Map<Seq<u8>, Summary>,
    lp: Map<Seq<u8>, Summary>,
    done: Set<Seq<u8>>,
    k: Seq<u8>,
)
    requires
        lp.contains_key(k),
        !done.contains(k),
    ensures
        merge(m0, lp.restrict(done.insert(k))) == ({
            let cur = merge(m0, lp.restrict(done));
            if cur.contains_key(k) {
                cur.insert(k, combine(cur[k], lp[k]))
            } else {
                cur.insert(k, lp[k])
            }
        }),
{
    let cur = merge(m0, lp.restrict(done));
    let next = if cur.contains_key(k) {
        cur.insert(k, combine(cur[k], lp[k]))
    } else {
        cur.insert(k, lp[k])
    };
    assert(merge(m0, lp.restrict(done.insert(k))) =~= next);
}

impl LPTable {
    /// Folds every entry of this table into `out`, visiting only the slots in use.
    pub fn merge_into(&self, out: &mut FinalTable)
        requires
            self.wf(),
            old(out).wf(),
            old(out).rows() + self.rows() <= usize::MAX,
        ensures
            final(out).wf(),
            final(out)@ == merge(old(out)@, self@),
            final(out).rows() == old(out).rows() + self.rows(),
    {
        let ghost m0 = out@;
        let ghost lp = self@;
        let ghost rows0 = out.rows();
        let ghost n = self.num_slots;
        let ghost t = self.table@;
        let ghost occ = self.occupied_slots@;
        proof {
            out.lemma_in_range();
            assert(lp.restrict(Set::empty()) =~= Map::empty());
            assert(merge(m0, Map::empty()) =~= m0);
        }
        out.reserve_rows(self.rows);
        let ghost mut done: Set<Seq<u8>> = Set::empty();
        let n_occ = self.occupied_slots.len();
        let mut a: usize = 0;
        while a < n_occ
            invariant
                self.wf(),
                out.wf(),
                lp == self@,
                n == self.num_slots,
                t == self.table@,
                occ == self.occupied_slots@,
                n_occ == occ.len(),
                a <= n_occ,
                out.rows() == rows0 + self.rows,
                table_in_range(m0, rows0 as int),
                out@ == merge(m0, lp.restrict(done)),
                forall|k: Seq<u8>| #[trigger] done.contains(k) ==> lp.contains_key(k),
                forall|b: int, jj: int|
                    0 <= b < a && 0 <= jj < t[occ[b] as int]@.len() ==> done.contains(
                        (#[trigger] t[occ[b] as int]@[jj]).key(),
                    ),
                forall|k: Seq<u8>| #[trigger]
                    done.contains(k) ==> exists|b: int|
                        0 <= b < a && occ[b] as int == slot_for(key_hash(k), n),
            decreases n_occ - a,
        {
            let slot = self.occupied_slots[a];
            let chain_len = self.table[slot].len();
            let mut j: usize = 0;
            while j < chain_len
                invariant
                    self.wf(),
                    out.wf(),
                    lp == self@,
                    n == self.num_slots,
                    t == self.table@,
                    occ == self.occupied_slots@,
                    n_occ == occ.len(),
                    a < n_occ,
                    slot == occ[a as int],
                    slot < n,
                    chain_len == t[slot as int]@.len(),
                    j <= chain_len,
                    out.rows() == rows0 + self.rows,
                    table_in_range(m0, rows0 as int),
                    out@ == merge(m0, lp.restrict(done)),
                    forall|k: Seq<u8>| #[trigger] done.contains(k) ==> lp.contains_key(k),
                    forall|b: int, jj: int|
                        0 <= b < a && 0 <= jj < t[occ[b] as int]@.len() ==> done.contains(
                            (#[trigger] t[occ[b] as int]@[jj]).key(),
                        ),
                    forall|jj: int| 0 <= jj < j ==> done.contains((#[trigger] t[slot as int]@[jj]).key()),
                    forall|k: Seq<u8>| #[trigger]
                        done.contains(k) ==> (exists|b: int|
                            0 <= b < a && occ[b] as int == slot_for(key_hash(k), n)) || (slot_for(
                            key_hash(k),
                            n,
                        ) == slot && exists|jj: int|
                            0 <= jj < j && (#[trigger] t[slot as int]@[jj]).key() == k),
                decreases chain_len - j,
            {
                let e = &self.table[slot][j];
                let ghost kn = e.key();
                proof {
                    assert(t[slot as int]@[j as int] == *e);
                    assert(slot_for(key_hash(kn), n) == slot);
                    assert(!done.contains(kn)) by {
                        if done.contains(kn) {
                            if exists|b: int| 0 <= b < a && occ[b] as int == slot_for(key_hash(kn), n) {
                                let b = choose|b: int| 0 <= b < a && occ[b] as int == slot_for(key_hash(kn), n);
                                assert(occ[b] == occ[a as int]);
                            } else {
                                let jj = choose|jj: int| 0 <= jj < j && (#[trigger] t[slot as int]@[jj]).key() == kn;
                                assert(t[slot as int]@[jj].key() != t[slot as int]@[j as int].key());
                            }
                        }
                    }
                    assert(lp.contains_key(kn));
                    assert(summary_in_range(lp[kn], self.rows as int));
                    assert(e.summary() == lp[kn]);
                    assert(!lp.restrict(done).contains_key(kn));
                    assert(out@.contains_key(kn) == m0.contains_key(kn));
                    if m0.contains_key(kn) {
                        assert(summary_in_range(m0[kn], rows0 as int));
                        assert(out@[kn] == m0[kn]);
                    }
                    lemma_merge_one_more(m0, lp, done, kn);
                    assert(e.count <= self.rows);
                    assert(out.rows() == rows0 + self.rows);
                    assert(m0.contains_key(kn) ==> m0[kn].count <= rows0);
                    if out@.contains_key(kn) {
                        assert(m0.contains_key(kn));
                        assert(out@[kn].count == m0[kn].count);
                        assert(out@[kn].count + e.count <= out.rows());
                    }
                    assert((if out@.contains_key(e.key()) {
                        out@[e.key()].count
                    } else {
                        0
                    }) + e.count <= out.rows());
                }
                out.absorb(e);
                proof {
                    done = done.insert(kn);
                    assert forall|k: Seq<u8>| #[trigger]
                        done.contains(k) implies (exists|b: int|
                            0 <= b < a && occ[b] as int == slot_for(key_hash(k), n)) || (slot_for(
                            key_hash(k),
                            n,
                        ) == slot && exists|jj: int|
                            0 <= jj < j + 1 && (#[trigger] t[slot as int]@[jj]).key() == k) by {
                        if k == kn {
                            assert(t[slot as int]@[j as int].key() == k);
                        }
                    }
                }
                j = j + 1;
            }
            proof {
                assert forall|k: Seq<u8>| #[trigger]
                    done.contains(k) implies exists|b: int|
                        0 <= b < a + 1 && occ[b] as int == slot_for(key_hash(k), n) by {
                    if !(exists|b: int| 0 <= b < a && occ[b] as int == slot_for(key_hash(k), n)) {
                        assert(occ[a as int] as int == slot_for(key_hash(k), n));
                    }
                }
            }
            a = a + 1;
        }
        proof {
            assert(done =~= lp.dom()) by {
                assert forall|k: Seq<u8>| lp.contains_key(k) implies done.contains(k) by {
                    let s = slot_for(key_hash(k), n);
                    lemma_and_le(key_hash(k), (n - 1) as u64);
                    let jj = choose|jj: int| 0 <= jj < t[s]@.len() && (#[trigger] t[s]@[jj]).key() == k;
                    assert(t[s]@.len() > 0);
                    let b = choose|b: int| 0 <= b < occ.len() && occ[b] == s;
                    assert(t[occ[b] as int]@[jj].key() == k);
                }
            }
            assert(lp.restrict(done) =~= lp);
        }
    }
}

} // verus!
