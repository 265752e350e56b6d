//! Word-at-a-time delimiter search over a byte buffer, and the rolling key hash.

use vstd::prelude::*;

use crate::model::{lemma_next_byte_bounds, lemma_next_byte_skip, next_byte, NEWLINE, SEMICOLON};

verus! {

/// The byte 0x01 in every lane of a word.
pub const LANE_ONES: u64 = 0x0101010101010101;

/// The top bit of every lane of a word.
pub const LANE_HIGHS: u64 = 0x8080808080808080;

/// Seed of the rolling key hash.
pub const HASH_SEED: u64 = 5381;

/// The byte in lane `k` of `w`; lane 0 is the least significant byte.
pub open spec fn lane(w: u64, k: u64) -> u64 {
    (w >> (8 * k) as u64) & 0xff
}

/// The first lane of `w`, from lane `k` on, that holds `b`, or -1.
pub open spec fn first_lane_from(w: u64, b: u8, k: u64) -> int
    decreases 8 - k,
{
    if k >= 8 {
        -1
    } else if lane(w, k) == b as u64 {
        k as int
    } else {
        first_lane_from(w, b, (k + 1) as u64)
    }
}

/// The first lane of `w` that holds `b`, or -1.
pub open spec fn first_lane(w: u64, b: u8) -> int {
    first_lane_from(w, b, 0)
}

/// The word-at-a-time zero test: the top bit of a lane is set at the lowest zero lane of
/// `x`, and no bit below it is set.
pub open spec fn zero_lanes(x: u64, d: u64) -> u64 {
    d & !x & LANE_HIGHS
}

/// One step of the DJB2 rolling hash: `hash * 33 + byte`, wrapping.
pub open spec fn hash_step(h: u64, b: u8) -> u64 {
    vstd::wrapping::u64_specs::wrapping_add(
        vstd::wrapping::u64_specs::wrapping_mul(h, 33),
        b as u64,
    )
}

/// The rolling hash of `key`, started from `h`.
pub open spec fn hash_from(h: u64, key: Seq<u8>) -> u64
    decreases key.len(),
{
    if key.len() == 0 {
        h
    } else {
        hash_step(hash_from(h, key.drop_last()), key.last())
    }
}

/// The rolling hash of a key.
pub open spec fn key_hash(key: Seq<u8>) -> u64 {
    hash_from(HASH_SEED, key)
}

/// Relies on `u64::trailing_zeros`: the number of zero bits below the lowest set bit.
#[verifier::external_body]
fn trailing_zeros(z: u64) -> (r: u32)
    ensures
        z != 0 ==> r < 64 && (z >> r as u64) & 1 == 1 && z & (((1u64 << r as u64) - 1) as u64)
            == 0,
{
    z.trailing_zeros()
}

proof fn lemma_first_lane_facts(w: u64, b: u8, k: u64)
    requires
        k <= 8,
    ensures
        first_lane_from(w, b, k) == -1 ==> forall|j: u64| k <= j < 8 ==> lane(w, j) != b as u64,
        first_lane_from(w, b, k) != -1 ==> k <= first_lane_from(w, b, k) < 8 && lane(
            w,
            first_lane_from(w, b, k) as u64,
        ) == b as u64 && forall|j: u64| k <= j < first_lane_from(w, b, k) ==> lane(w, j)
            != b as u64,
    decreases 8 - k,
{
    if k < 8 && lane(w, k) != b as u64 {
        lemma_first_lane_facts(w, b, (k + 1) as u64);
    }
}

proof fn lemma_lowest_bit(z: u64, t: u64, c: u64)
    requires
        t < 64,
        c < 64,
        (z >> t) & 1 == 1,
        z & (((1u64 << t) - 1) as u64) == 0,
        (z >> c) & 1 == 1,
        z & (((1u64 << c) - 1) as u64) == 0,
    ensures
        t == c,
{
    assert(t == c) by (bit_vector)
        requires
            t < 64,
            c < 64,
            (z >> t) & 1 == 1,
            z & (((1u64 << t) - 1) as u64) == 0,
            (z >> c) & 1 == 1,
            z & (((1u64 << c) - 1) as u64) == 0,
    ;
}

/// The word-at-a-time zero test, lane by lane: no bit is set when no lane of `x` is zero,
/// and otherwise the lowest set bit is the top bit of the lowest zero lane.
proof fn lemma_zero_lane_bits(x: u64, d: u64, z: u64)
    by (bit_vector)
    requires
        d == ((x as int - 0x0101010101010101) + (if x < 0x0101010101010101u64 {
            0x1_0000_0000_0000_0000int
        } else {
            0
        })) as u64,
        z == d & !x & 0x8080808080808080u64,
    ensures
        z == 0 <==> (lane(x, 0) != 0 && lane(x, 1) != 0 && lane(x, 2) != 0 && lane(x, 3) != 0
            && lane(x, 4) != 0 && lane(x, 5) != 0 && lane(x, 6) != 0 && lane(x, 7) != 0),
        lane(x, 0) == 0 ==> (z >> 7u64) & 1 == 1 && z & 0x7f == 0,
        lane(x, 0) != 0 && lane(x, 1) == 0 ==> (z >> 15u64) & 1 == 1 && z & 0x7fff == 0,
        lane(x, 0) != 0 && lane(x, 1) != 0 && lane(x, 2) == 0 ==> (z >> 23u64) & 1 == 1 && z
            & 0x7fffff == 0,
        lane(x, 0) != 0 && lane(x, 1) != 0 && lane(x, 2) != 0 && lane(x, 3) == 0 ==> (z
            >> 31u64) & 1 == 1 && z & 0x7fffffff == 0,
        lane(x, 0) != 0 && lane(x, 1) != 0 && lane(x, 2) != 0 && lane(x, 3) != 0 && lane(x, 4)
            == 0 ==> (z >> 39u64) & 1 == 1 && z & 0x7fffffffff == 0,
        lane(x, 0) != 0 && lane(x, 1) != 0 && lane(x, 2) != 0 && lane(x, 3) != 0 && lane(x, 4)
            != 0 && lane(x, 5) == 0 ==> (z >> 47u64) & 1 == 1 && z & 0x7fffffffffff == 0,
        lane(x, 0) != 0 && lane(x, 1) != 0 && lane(x, 2) != 0 && lane(x, 3) != 0 && lane(x, 4)
            != 0 && lane(x, 5) != 0 && lane(x, 6) == 0 ==> (z >> 55u64) & 1 == 1 && z
            & 0x7fffffffffffff == 0,
        lane(x, 0) != 0 && lane(x, 1) != 0 && lane(x, 2) != 0 && lane(x, 3) != 0 && lane(x, 4)
            != 0 && lane(x, 5) != 0 && lane(x, 6) != 0 && lane(x, 7) == 0 ==> (z >> 63u64) & 1
            == 1 && z & 0x7fffffffffffffff == 0,
{
}

proof fn lemma_low_masks()
    by (bit_vector)
    ensures
        ((1u64 << 7u64) - 1) as u64 == 0x7f,
        ((1u64 << 15u64) - 1) as u64 == 0x7fff,
        ((1u64 << 23u64) - 1) as u64 == 0x7fffff,
        ((1u64 << 31u64) - 1) as u64 == 0x7fffffff,
        ((1u64 << 39u64) - 1) as u64 == 0x7fffffffff,
        ((1u64 << 47u64) - 1) as u64 == 0x7fffffffffff,
        ((1u64 << 55u64) - 1) as u64 == 0x7fffffffffffff,
        ((1u64 << 63u64) - 1) as u64 == 0x7fffffffffffffff,
{
}

/// The zero test marks the lowest zero lane of `x` exactly, and nothing below it.
proof fn lemma_zero_lanes(x: u64, d: u64)
    requires
        d == vstd::wrapping::u64_specs::wrapping_sub(x, LANE_ONES),
    ensures
        zero_lanes(x, d) == 0 <==> first_lane(x, 0) == -1,
        first_lane(x, 0) != -1 ==> ({
            let c = (8 * first_lane(x, 0) + 7) as u64;
            (zero_lanes(x, d) >> c) & 1 == 1 && zero_lanes(x, d) & (((1u64 << c) - 1) as u64) == 0
        }),
{
    let z = zero_lanes(x, d);
    lemma_zero_lane_bits(x, d, z);
    lemma_low_masks();
    reveal_with_fuel(first_lane_from, 9);
}

proof fn lemma_xor_lane(w: u64, p: u64, bb: u64, k: u64)
    by (bit_vector)
    requires
        k < 8,
        bb < 256,
        p == bb * 0x0101010101010101u64,
    ensures
        ((w ^ p) >> (8 * k) as u64) & 0xff == 0 <==> (w >> (8 * k) as u64) & 0xff == bb,
{
}

proof fn lemma_word_lane(r: u64, b0: u64, b1: u64, b2: u64, b3: u64, b4: u64, b5: u64, b6: u64, b7: u64, k: u64)
    by (bit_vector)
    requires
        k < 8,
        b0 < 256,
        b1 < 256,
        b2 < 256,
        b3 < 256,
        b4 < 256,
        b5 < 256,
        b6 < 256,
        b7 < 256,
        r == b0 | (b1 << 8u64) | (b2 << 16u64) | (b3 << 24u64) | (b4 << 32u64) | (b5 << 40u64)
            | (b6 << 48u64) | (b7 << 56u64),
    ensures
        (r >> (8 * k) as u64) & 0xff == (if k == 0 {
            b0
        } else if k == 1 {
            b1
        } else if k == 2 {
            b2
        } else if k == 3 {
            b3
        } else if k == 4 {
            b4
        } else if k == 5 {
            b5
        } else if k == 6 {
            b6
        } else {
            b7
        }),
{
}

/// Lane `k` of `x ^ p`, with `b` in every lane of `p`, is zero exactly where lane `k` of
/// `w` holds `b`.
proof fn lemma_xor_lanes(w: u64, b: u8, p: u64, x: u64)
    requires
        p == b as u64 * LANE_ONES,
        x == w ^ p,
    ensures
        first_lane(x, 0) == first_lane(w, b),
{
    assert forall|k: u64| k < 8 implies (lane(x, k) == 0 <==> lane(w, k) == b as u64) by {
        lemma_xor_lane(w, p, b as u64, k);
    }
    reveal_with_fuel(first_lane_from, 9);
}

/// The first lane of `word` that holds `byte`, or -1 when none does.
pub fn find_lane(word: u64, byte: u8) -> (r: i32)
    ensures
        r == first_lane(word, byte),
{
    let pattern: u64 = (byte as u64) * LANE_ONES;
    let x: u64 = word ^ pattern;
    let d: u64 = x.wrapping_sub(LANE_ONES);
    let z: u64 = d & !x & LANE_HIGHS;
    proof {
        lemma_xor_lanes(word, byte, pattern, x);
        lemma_zero_lanes(x, d);
        lemma_first_lane_facts(x, 0, 0);
    }
    if z == 0 {
        -1
    } else {
        let t = trailing_zeros(z);
        proof {
            let c = (8 * first_lane(x, 0) + 7) as u64;
            lemma_lowest_bit(z, t as u64, c);
        }
        (t / 8) as i32
    }
}

/// The first lane of `data` that holds a newline, or -1.
pub fn find_newline(data: u64) -> (r: i32)
    ensures
        r == first_lane(data, NEWLINE),
{
    find_lane(data, NEWLINE)
}

/// The first lane of `data` that holds a semicolon, or -1.
pub fn find_semicolon(data: u64) -> (r: i32)
    ensures
        r == first_lane(data, SEMICOLON),
{
    find_lane(data, SEMICOLON)
}

/// The eight bytes of `buf` from `i`, as a little-endian word.
pub fn read_unaligned_u64(buf: &[u8], i: usize) -> (r: u64)
    requires
        i + 8 <= buf@.len(),
    ensures
        forall|k: u64| k < 8 ==> #[trigger] lane(r, k) == buf@[i + k] as u64,
{
    let b0 = buf[i] as u64;
    let b1 = buf[i + 1] as u64;
    let b2 = buf[i + 2] as u64;
    let b3 = buf[i + 3] as u64;
    let b4 = buf[i + 4] as u64;
    let b5 = buf[i + 5] as u64;
    let b6 = buf[i + 6] as u64;
    let b7 = buf[i + 7] as u64;
    let r = b0 | (b1 << 8u64) | (b2 << 16u64) | (b3 << 24u64) | (b4 << 32u64) | (b5 << 40u64) | (
    b6 << 48u64) | (b7 << 56u64);
    proof {
        assert forall|k: u64| k < 8 implies #[trigger] lane(r, k) == buf@[i + k] as u64 by {
            lemma_word_lane(r, b0, b1, b2, b3, b4, b5, b6, b7, k);
        }
    }
    r
}

/// What a word read at `i` says about the bytes `i .. i + 8`.
proof fn lemma_word_lanes(s: Seq<u8>, i: int, w: u64, b: u8)
    requires
        0 <= i,
        i + 8 <= s.len(),
        forall|k: u64| k < 8 ==> #[trigger] lane(w, k) == s[i + k] as u64,
    ensures
        first_lane(w, b) == -1 ==> next_byte(s, i, b) == next_byte(s, i + 8, b),
        first_lane(w, b) != -1 ==> next_byte(s, i, b) == i + first_lane(w, b),
{
    lemma_first_lane_facts(w, b, 0);
    if first_lane(w, b) == -1 {
        assert forall|j: int| i <= j < i + 8 implies s[j] != b by {
            assert(lane(w, (j - i) as u64) == s[j] as u64);
        }
        lemma_next_byte_skip(s, i, i + 8, b);
    } else {
        let f = first_lane(w, b);
        assert forall|j: int| i <= j < i + f implies s[j] != b by {
            assert(lane(w, (j - i) as u64) == s[j] as u64);
        }
        assert(lane(w, f as u64) == s[i + f] as u64);
        lemma_next_byte_skip(s, i, i + f, b);
    }
}

/// Index of the first `byte` at or after `from`, or `buf.len()` when there is none; the
/// search reads a word at a time and the last bytes one by one.
pub fn find_next_byte(buf: &[u8], from: usize, byte: u8) -> (r: usize)
    requires
        from <= buf@.len(),
    ensures
        r == next_byte(buf@, from as int, byte),
{
    let len = buf.len();
    let mut i: usize = from;
    while len - i >= 8
        invariant
            from <= i <= len,
            len == buf@.len(),
            next_byte(buf@, from as int, byte) == next_byte(buf@, i as int, byte),
        decreases len - i,
    {
        let word = read_unaligned_u64(buf, i);
        let k = find_lane(word, byte);
        proof {
            lemma_word_lanes(buf@, i as int, word, byte);
            lemma_first_lane_facts(word, byte, 0);
        }
        if k == -1 {
            i = i + 8;
        } else {
            return i + k as usize;
        }
    }
    while i < len
        invariant
            from <= i <= len,
            len == buf@.len(),
            next_byte(buf@, from as int, byte) == next_byte(buf@, i as int, byte),
        decreases len - i,
    {
        if buf[i] == byte {
            return i;
        }
        i = i + 1;
    }
    i
}

/// Index of the first newline at or after `from`, or `buf.len()` when there is none.
pub fn find_next_newline_vectorized(buf: &[u8], from: usize) -> (r: usize)
    requires
        from <= buf@.len(),
    ensures
        r == next_byte(buf@, from as int, NEWLINE),
{
    find_next_byte(buf, from, NEWLINE)
}

/// Index of the first semicolon at or after `from` (or `buf.len()`); on the way the key
/// bytes are copied into `name` and folded into `hash`, so that each is read once.
pub fn find_next_semicolon_vectorized(
    buf: &[u8],
    from: usize,
    hash: &mut u64,
    name: &mut [u8; 100],
) -> (r: usize)
    requires
        from <= buf@.len(),
        next_byte(buf@, from as int, SEMICOLON) - from <= 100,
    ensures
        r == next_byte(buf@, from as int, SEMICOLON),
        final(name)@.subrange(0, r - from) == buf@.subrange(from as int, r as int),
        *final(hash) == hash_from(*old(hash), buf@.subrange(from as int, r as int)),
{
    let len = buf.len();
    let ghost s = buf@;
    let ghost target = next_byte(s, from as int, SEMICOLON);
    let mut i: usize = from;
    proof {
        lemma_next_byte_bounds(s, from as int, SEMICOLON);
        assert(s.subrange(from as int, from as int) =~= Seq::<u8>::empty());
    }
    while len - i >= 8
        invariant
            from <= i <= len,
            len == s.len(),
            s == buf@,
            target == next_byte(s, from as int, SEMICOLON),
            target - from <= 100,
            from <= target <= len,
            target == next_byte(s, i as int, SEMICOLON),
            i <= target,
            name@.len() == 100,
            name@.subrange(0, i - from) == s.subrange(from as int, i as int),
            *hash == hash_from(*old(hash), s.subrange(from as int, i as int)),
        decreases len - i,
    {
        let word = read_unaligned_u64(buf, i);
        let k = find_semicolon(word);
        proof {
            lemma_word_lanes(s, i as int, word, SEMICOLON);
            lemma_first_lane_facts(word, SEMICOLON, 0);
            lemma_next_byte_bounds(s, i + 8, SEMICOLON);
        }
        let stop: usize = if k == -1 {
            8
        } else {
            k as usize
        };
        let mut j: usize = 0;
        while j < stop
            invariant
                from <= i <= len,
                i + 8 <= len,
                len == s.len(),
                s == buf@,
                target == next_byte(s, from as int, SEMICOLON),
                target - from <= 100,
                stop <= 8,
                i + stop <= target,
                j <= stop,
                name@.len() == 100,
                name@.subrange(0, i + j - from) == s.subrange(from as int, i + j),
                *hash == hash_from(*old(hash), s.subrange(from as int, i + j)),
            decreases stop - j,
        {
            let byte = buf[i + j];
            name[i + j - from] = byte;
            *hash = hash.wrapping_mul(33).wrapping_add(byte as u64);
            proof {
                let p = s.subrange(from as int, i + j + 1);
                assert(p.drop_last() =~= s.subrange(from as int, i + j));
                assert(name@.subrange(0, i + j + 1 - from) =~= p);
            }
            j = j + 1;
        }
        i = i + stop;
        if k != -1 {
            return i;
        }
    }
    while i < len
        invariant
            from <= i <= len,
            len == s.len(),
            s == buf@,
            target == next_byte(s, from as int, SEMICOLON),
            target - from <= 100,
            target == next_byte(s, i as int, SEMICOLON),
            i <= target,
            name@.len() == 100,
            name@.subrange(0, i - from) == s.subrange(from as int, i as int),
            *hash == hash_from(*old(hash), s.subrange(from as int, i as int)),
        decreases len - i,
    {
        let byte = buf[i];
        if byte == SEMICOLON {
            return i;
        }
        proof {
            assert(s[i as int] == byte);
            lemma_next_byte_bounds(s, i + 1, SEMICOLON);
            assert(target == next_byte(s, i + 1, SEMICOLON));
        }
        name[i - from] = byte;
        *hash = hash.wrapping_mul(33).wrapping_add(byte as u64);
        proof {
            let p = s.subrange(from as int, i + 1);
            assert(p.drop_last() =~= s.subrange(from as int, i as int));
            assert(name@.subrange(0, i + 1 - from) =~= p);
        }
        i = i + 1;
    }
    i
}

} // verus!
