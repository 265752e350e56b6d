//! The per-record parsing state and the byte-by-byte decoding of a reading.

use vstd::prelude::*;

use crate::model::{
    is_digit, lemma_next_byte_bounds, lemma_next_byte_skip, next_byte, valid_value, value_of,
    DOT, MINUS, NEWLINE,
};
use crate::scan::HASH_SEED;

verus! {

/// Parsing state of one record: the key bytes seen so far with their rolling hash, and
/// the sign, integer part and fractional digit of the reading.
pub struct Cursor {
    pub temp_int_part: u8,
    pub temp_fraction_part: u8,
    pub parsing_name: bool,
    pub parsing_int_part: bool,
    pub station_idx: usize,
    pub hash: u64,
    pub temp_multiplier: i32,
    pub station: [u8; 100],
}

/// Sign, integer part, fractional part and phase after the first `k` bytes of a reading.
pub open spec fn value_state(v: Seq<u8>, k: int) -> (int, int, int, bool)
    decreases k,
{
    if k <= 0 {
        (1, 0, 0, true)
    } else {
        let st = value_state(v, k - 1);
        let b = v[k - 1];
        if b == DOT {
            (st.0, st.1, st.2, false)
        } else if b == MINUS {
            (-1, st.1, st.2, st.3)
        } else if st.3 {
            (st.0, st.1 * 10 + (b - 48), st.2, st.3)
        } else {
            (st.0, st.1, st.2 * 10 + (b - 48), st.3)
        }
    }
}

impl Cursor {
    /// The reading fields hold the state after the first `k` bytes of `v`.
    pub open spec fn value_matches(&self, v: Seq<u8>, k: int) -> bool {
        let st = value_state(v, k);
        &&& self.temp_multiplier == st.0
        &&& self.temp_int_part == st.1
        &&& self.temp_fraction_part == st.2
        &&& self.parsing_int_part == st.3
    }

    /// The state at the start of a record.
    pub open spec fn is_reset(&self) -> bool {
        &&& self.station_idx == 0
        &&& self.hash == HASH_SEED
        &&& self.parsing_name
        &&& self.temp_int_part == 0
        &&& self.temp_fraction_part == 0
        &&& self.temp_multiplier == 1
        &&& self.parsing_int_part
    }

    pub fn new() -> (c: Cursor)
        ensures
            c.is_reset(),
    {
        Cursor {
            hash: HASH_SEED,
            station: [0; 100],
            station_idx: 0,
            parsing_name: true,
            temp_int_part: 0,
            temp_fraction_part: 0,
            temp_multiplier: 1,
            parsing_int_part: true,
        }
    }
}

/// The reading, in tenths: `sign * (integer_part * 10 + fractional_digit)`.
pub fn temprature(c: &Cursor) -> (t: i32)
    requires
        c.temp_multiplier == 1 || c.temp_multiplier == -1,
    ensures
        t == c.temp_multiplier * (c.temp_int_part * 10 + c.temp_fraction_part),
{
    c.temp_multiplier * (c.temp_int_part as i32 * 10 + c.temp_fraction_part as i32)
}

/// Back to the state at the start of a reading.
pub fn reset_temp_vars(
    temp_int_part: &mut u8,
    temp_fraction_part: &mut u8,
    temp_multiplier: &mut i32,
    parsing_int_part: &mut bool,
)
    ensures
        *final(temp_int_part) == 0,
        *final(temp_fraction_part) == 0,
        *final(temp_multiplier) == 1,
        *final(parsing_int_part),
{
    *temp_int_part = 0;
    *temp_fraction_part = 0;
    *temp_multiplier = 1;
    *parsing_int_part = true;
}

/// Back to the state at the start of a key.
pub fn reset_station_vars(
    station: &mut [u8; 100],
    station_idx: &mut usize,
    hash: &mut u64,
    parsing_name: &mut bool,
)
    ensures
        *final(station_idx) == 0,
        *final(hash) == HASH_SEED,
        *final(parsing_name),
{
    *station = [0; 100];
    *station_idx = 0;
    *hash = HASH_SEED;
    *parsing_name = true;
}

/// Back to the state at the start of a record.
pub fn reset(c: &mut Cursor)
    ensures
        final(c).is_reset(),
{
    reset_station_vars(&mut c.station, &mut c.station_idx, &mut c.hash, &mut c.parsing_name);
    reset_temp_vars(
        &mut c.temp_int_part,
        &mut c.temp_fraction_part,
        &mut c.temp_multiplier,
        &mut c.parsing_int_part,
    );
}

/// Feeds one digit of a reading into the part being read.
pub fn update_temp_vars(
    byte: u8,
    temp_int_part: &mut u8,
    temp_fraction_part: &mut u8,
    parsing_int_part: bool,
)
    requires
        is_digit(byte),
        parsing_int_part ==> *old(temp_int_part) <= 24,
        !parsing_int_part ==> *old(temp_fraction_part) <= 24,
    ensures
        parsing_int_part ==> *final(temp_int_part) == *old(temp_int_part) * 10 + (byte - 48)
            && *final(temp_fraction_part) == *old(temp_fraction_part),
        !parsing_int_part ==> *final(temp_fraction_part) == *old(temp_fraction_part) * 10 + (
        byte - 48) && *final(temp_int_part) == *old(temp_int_part),
{
    let digit = byte - 48;
    if parsing_int_part {
        *temp_int_part = *temp_int_part * 10 + digit;
    } else {
        *temp_fraction_part = *temp_fraction_part * 10 + digit;
    }
}

/// Feeds one byte of a reading: `.` ends the integer part, `-` makes it negative, a digit
/// extends the part being read.
pub fn update_temprature(c: &mut Cursor, byte: u8)
    requires
        byte == DOT || byte == MINUS || is_digit(byte),
        is_digit(byte) && old(c).parsing_int_part ==> old(c).temp_int_part <= 24,
        is_digit(byte) && !old(c).parsing_int_part ==> old(c).temp_fraction_part <= 24,
    ensures
        byte == DOT ==> *final(c) == (Cursor { parsing_int_part: false, ..*old(c) }),
        byte == MINUS ==> *final(c) == (Cursor { temp_multiplier: -1i32, ..*old(c) }),
        is_digit(byte) && old(c).parsing_int_part ==> *final(c) == (Cursor {
            temp_int_part: (old(c).temp_int_part * 10 + (byte - 48)) as u8,
            ..*old(c)
        }),
        is_digit(byte) && !old(c).parsing_int_part ==> *final(c) == (Cursor {
            temp_fraction_part: (old(c).temp_fraction_part * 10 + (byte - 48)) as u8,
            ..*old(c)
        }),
{
    if byte == DOT {
        c.parsing_int_part = false;
        return ;
    } else if byte == MINUS {
        c.temp_multiplier = -1;
        return ;
    }
    let parsing_int_part = c.parsing_int_part;
    update_temp_vars(byte, &mut c.temp_int_part, &mut c.temp_fraction_part, parsing_int_part);
}

/// Along a well-formed reading the parts stay small enough for a byte, and at its end
/// the state gives its value.
proof fn lemma_value_state(v: Seq<u8>, k: int)
    requires
        valid_value(v),
        0 <= k <= v.len(),
    ensures
        k < v.len() ==> (v[k] == DOT || v[k] == MINUS || is_digit(v[k])),
        k < v.len() && is_digit(v[k]) && value_state(v, k).3 ==> 0 <= value_state(v, k).1 <= 9,
        k < v.len() && is_digit(v[k]) && !value_state(v, k).3 ==> value_state(v, k).2 == 0,
        value_state(v, k).0 == 1 || value_state(v, k).0 == -1,
        0 <= value_state(v, k).1 <= 99,
        0 <= value_state(v, k).2 <= 9,
        k == v.len() ==> value_state(v, k).0 * (value_state(v, k).1 * 10 + value_state(v, k).2)
            == value_of(v),
{
    reveal_with_fuel(value_state, 6);
    let n = v.len() as int;
    if v.len() > 0 && v[0] == MINUS {
        let u = v.subrange(1, n);
        assert(u[0] == v[1]);
        assert(u[1] == v[2]);
        assert(u[2] == v[3]);
        if n == 5 {
            assert(u[3] == v[4]);
            assert(value_state(v, n) == (-1int, (v[1] - 48) * 10 + (v[2] - 48), v[4] - 48, false));
        } else {
            assert(value_state(v, n) == (-1int, v[1] - 48, v[3] - 48, false));
        }
    } else {
        if n == 4 {
            assert(value_state(v, n) == (1int, (v[0] - 48) * 10 + (v[1] - 48), v[3] - 48, false));
        } else {
            assert(value_state(v, n) == (1int, v[0] - 48, v[2] - 48, false));
        }
    }
}

/// Reads a reading from `from` up to the next newline (or the end of the buffer), one
/// byte at a time, into the cursor; returns where it ends.
pub fn find_next_newline(buf: &[u8], from: usize, c: &mut Cursor) -> (r: usize)
    requires
        from <= buf@.len(),
        valid_value(buf@.subrange(from as int, next_byte(buf@, from as int, NEWLINE))),
        old(c).value_matches(buf@.subrange(from as int, next_byte(buf@, from as int, NEWLINE)), 0),
    ensures
        r == next_byte(buf@, from as int, NEWLINE),
        final(c).value_matches(buf@.subrange(from as int, r as int), r - from),
        temprature_of(*final(c)) == value_of(buf@.subrange(from as int, r as int)),
        final(c).temp_multiplier == 1 || final(c).temp_multiplier == -1,
        final(c).temp_int_part <= 99,
        final(c).temp_fraction_part <= 9,
        final(c).station == old(c).station,
        final(c).station_idx == old(c).station_idx,
        final(c).hash == old(c).hash,
{
    let ghost s = buf@;
    let ghost e = next_byte(s, from as int, NEWLINE);
    let ghost v = s.subrange(from as int, e);
    let len = buf.len();
    let mut i: usize = from;
    proof {
        lemma_next_byte_bounds(s, from as int, NEWLINE);
    }
    while i < len
        invariant
            from <= i <= e <= len,
            len == s.len(),
            s == buf@,
            e == next_byte(s, from as int, NEWLINE),
            e == next_byte(s, i as int, NEWLINE),
            v == s.subrange(from as int, e),
            valid_value(v),
            c.value_matches(v, i - from),
            c.station == old(c).station,
            c.station_idx == old(c).station_idx,
            c.hash == old(c).hash,
        ensures
            i == e,
        decreases len - i,
    {
        let byte = buf[i];
        if byte == NEWLINE {
            assert(e == i);
            break;
        }
        proof {
            lemma_next_byte_bounds(s, i + 1, NEWLINE);
            assert(i < e);
            assert(v[i - from] == byte);
            lemma_value_state(v, i - from);
            lemma_next_byte_skip(s, i as int, i + 1, NEWLINE);
        }
        update_temprature(c, byte);
        i = i + 1;
    }
    proof {
        lemma_value_state(v, e - from);
    }
    i
}

pub open spec fn temprature_of(c: Cursor) -> int {
    c.temp_multiplier * (c.temp_int_part * 10 + c.temp_fraction_part)
}

} // verus!
