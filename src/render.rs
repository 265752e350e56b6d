//! The result line: `{key:min/max/mean,...}` with one decimal per value.

use vstd::prelude::*;

use crate::model::{valid_value, value_of, DOT, MINUS};
use crate::ordered::FinalTable;
use crate::table::KeyedStat;

verus! {

pub const COLON: u8 = 58;

pub const SLASH: u8 = 47;

pub const COMMA: u8 = 44;

pub const OPEN_BRACE: u8 = 123;

pub const CLOSE_BRACE: u8 = 125;

/// The decimal digits of `n`, for `0 <= n <= 99`.
pub open spec fn small_digits(n: int) -> Seq<u8> {
    if n >= 10 {
        seq![(48 + n / 10) as u8, (48 + n % 10) as u8]
    } else {
        seq![(48 + n) as u8]
    }
}

/// A value in tenths written with one decimal: `-?\d+\.\d`.
pub open spec fn tenths_text(v: int) -> Seq<u8> {
    let a = if v < 0 {
        -v
    } else {
        v
    };
    let sign = if v < 0 {
        seq![MINUS]
    } else {
        Seq::<u8>::empty()
    };
    sign + small_digits(a / 10) + seq![DOT, (48 + a % 10) as u8]
}

/// `sum / count`, in tenths, rounded to the nearest tenth, halves away from zero.
pub open spec fn mean_tenths(sum: int, count: int) -> int {
    if sum >= 0 {
        (2 * sum + count) / (2 * count)
    } else {
        -((-2 * sum + count) / (2 * count))
    }
}

/// `key:min/max/mean` for one entry.
pub open spec fn entry_text(e: KeyedStat) -> Seq<u8> {
    e.key() + seq![COLON] + tenths_text(e.min as int) + seq![SLASH] + tenths_text(e.max as int)
        + seq![SLASH] + tenths_text(mean_tenths(e.sum as int, e.count as int))
}

/// The entries written one after the other, separated by commas.
pub open spec fn entries_text(es: Seq<KeyedStat>) -> Seq<u8>
    decreases es.len(),
{
    if es.len() == 0 {
        Seq::empty()
    } else if es.len() == 1 {
        entry_text(es[0])
    } else {
        entries_text(es.drop_last()) + seq![COMMA] + entry_text(es.last())
    }
}

/// The whole result line: `{key1:min1/max1/mean1,key2:...}`.
pub open spec fn table_text(es: Seq<KeyedStat>) -> Seq<u8> {
    seq![OPEN_BRACE] + entries_text(es) + seq![CLOSE_BRACE]
}

/// Appends `v` tenths written with one decimal.
pub fn push_tenths(out: &mut Vec<u8>, v: i32)
    requires
        -999 <= v <= 999,
    ensures
        final(out)@ == old(out)@ + tenths_text(v as int),
{
    let ghost o = old(out)@;
    let a: i32 = if v < 0 {
        -v
    } else {
        v
    };
    if v < 0 {
        out.push(MINUS);
    }
    let ip = a / 10;
    if ip >= 10 {
        out.push((48 + ip / 10) as u8);
        out.push((48 + ip % 10) as u8);
    } else {
        out.push((48 + ip) as u8);
    }
    out.push(DOT);
    out.push((48 + a % 10) as u8);
    assert(out@ =~= o + tenths_text(v as int));
}

proof fn lemma_mean_in_range(sum: int, count: int)
    requires
        count >= 1,
        -999 * count <= sum <= 999 * count,
    ensures
        -999 <= mean_tenths(sum, count) <= 999,
{
    if sum >= 0 {
        assert((2 * sum + count) / (2 * count) <= 999) by (nonlinear_arith)
            requires
                count >= 1,
                0 <= sum <= 999 * count,
        {
            assert(2 * sum + count < 1000 * (2 * count));
        }
        assert((2 * sum + count) / (2 * count) >= 0) by (nonlinear_arith)
            requires
                count >= 1,
                0 <= sum,
        ;
    } else {
        assert((-2 * sum + count) / (2 * count) <= 999) by (nonlinear_arith)
            requires
                count >= 1,
                0 <= -sum <= 999 * count,
        {
            assert(-2 * sum + count < 1000 * (2 * count));
        }
        assert((-2 * sum + count) / (2 * count) >= 0) by (nonlinear_arith)
            requires
                count >= 1,
                0 <= -sum,
        ;
    }
}

/// The mean of an entry in tenths, rounded halves away from zero.
pub fn mean_of(e: &KeyedStat) -> (r: i32)
    requires
        e.count >= 1,
        -999 * e.count <= e.sum <= 999 * e.count,
    ensures
        r == mean_tenths(e.sum as int, e.count as int),
        -999 <= r <= 999,
{
    proof {
        lemma_mean_in_range(e.sum as int, e.count as int);
    }
    let c: i128 = e.count as i128;
    let q: i128 = if e.sum >= 0 {
        (2 * e.sum + c) / (2 * c)
    } else {
        -((-2 * e.sum + c) / (2 * c))
    };
    q as i32
}

/// Appends `key:min/max/mean` for one entry.
pub fn push_entry(out: &mut Vec<u8>, e: &KeyedStat)
    requires
        e.len <= 100,
        e.count >= 1,
        -999 <= e.min <= 999,
        -999 <= e.max <= 999,
        -999 * e.count <= e.sum <= 999 * e.count,
    ensures
        final(out)@ == old(out)@ + entry_text(*e),
{
    let ghost before = out@;
    let mut j: usize = 0;
    while j < e.len
        invariant
            e.len <= 100,
            j <= e.len,
            out@ == before + e.key().take(j as int),
        decreases e.len - j,
    {
        out.push(e.station[j]);
        assert(e.key().take(j + 1) =~= e.key().take(j as int).push(e.station@[j as int]));
        j = j + 1;
    }
    assert(e.key().take(e.len as int) =~= e.key());
    out.push(COLON);
    push_tenths(out, e.min);
    out.push(SLASH);
    push_tenths(out, e.max);
    out.push(SLASH);
    let m = mean_of(e);
    push_tenths(out, m);
    assert(out@ =~= before + entry_text(*e));
}

/// Writes the table as one line: `{key1:min1/max1/mean1,key2:min2/max2/mean2,...}`, keys
/// in byte-lexicographic order, each value with one decimal.
pub fn format_result(table: &FinalTable) -> (r: Vec<u8>)
    requires
        table.wf(),
    ensures
        r@ == table_text(table.entries_view()),
{
    let es = table.entries();
    proof {
        table.lemma_in_range();
    }
    let ghost all = es@;
    let mut out: Vec<u8> = Vec::new();
    out.push(OPEN_BRACE);
    let n = es.len();
    let mut i: usize = 0;
    while i < n
        invariant
            n == all.len(),
            all == es@,
            all == table.entries_view(),
            crate::ordered::ordered_inv(all, table@, table.rows() as int),
            i <= n,
            out@ == seq![OPEN_BRACE] + entries_text(all.take(i as int)),
        decreases n - i,
    {
        let e = &es[i];
        proof {
            assert(all[i as int] == *e);
            assert(table@.contains_key(e.key()));
            assert(crate::model::summary_in_range(table@[e.key()], table.rows() as int));
            assert(all.take(i + 1).drop_last() =~= all.take(i as int));
            assert(all.take(i + 1).last() == *e);
        }
        if i > 0 {
            out.push(COMMA);
        }
        push_entry(&mut out, e);
        proof {
            if i == 0 {
                assert(all.take(1) =~= seq![*e]);
            }
            assert(out@ =~= seq![OPEN_BRACE] + entries_text(all.take(i + 1)));
        }
        i = i + 1;
    }
    out.push(CLOSE_BRACE);
    assert(all.take(n as int) =~= all);
    out
}

/// Writing a reading with one decimal and reading it back gives the same value.
pub proof fn law_reading_round_trip(v: int)
    requires
        -999 <= v <= 999,
    ensures
        valid_value(tenths_text(v)),
        value_of(tenths_text(v)) == v,
{
    let t = tenths_text(v);
    let a = if v < 0 {
        -v
    } else {
        v
    };
    let u = crate::model::unsigned_part(t);
    if v < 0 {
        assert(u =~= small_digits(a / 10) + seq![DOT, (48 + a % 10) as u8]);
    } else {
        assert(u =~= small_digits(a / 10) + seq![DOT, (48 + a % 10) as u8]);
    }
    if a / 10 >= 10 {
        assert(u.len() == 4);
        assert(u[0] == (48 + a / 100) as u8);
        assert(u[1] == (48 + (a / 10) % 10) as u8);
        assert(a == (a / 100) * 100 + ((a / 10) % 10) * 10 + a % 10);
    } else {
        assert(u.len() == 3);
        assert(a == (a / 10) * 10 + a % 10);
    }
}

} // verus!
