//! The integers of the wire format: fixed-width big-endian ones, and the
//! zigzag LEB128 ones inside a record batch.
use vstd::prelude::*;

verus! {

/// The unsigned value of the `n` big-endian bytes at `at`.
pub open spec fn be_unsigned(s: Seq<u8>, at: int, n: nat) -> nat
    decreases n,
{
    if n == 0 {
        0
    } else {
        be_unsigned(s, at, (n - 1) as nat) * 256 + s[at + n - 1] as nat
    }
}

/// The two's complement reading of a value in `0..limit`.
pub open spec fn signed(value: nat, limit: nat) -> int {
    if value < limit / 2 {
        value as int
    } else {
        value - limit
    }
}

/// The 16-bit integer at `at`.
pub open spec fn i16_of(s: Seq<u8>, at: int) -> i16 {
    signed(be_unsigned(s, at, 2), 0x1_0000) as i16
}

/// The 32-bit integer at `at`.
pub open spec fn i32_of(s: Seq<u8>, at: int) -> i32 {
    signed(be_unsigned(s, at, 4), 0x1_0000_0000) as i32
}

/// The unsigned 32-bit integer at `at`.
pub open spec fn u32_of(s: Seq<u8>, at: int) -> u32 {
    be_unsigned(s, at, 4) as u32
}

/// The 64-bit integer at `at`.
pub open spec fn i64_of(s: Seq<u8>, at: int) -> i64 {
    signed(be_unsigned(s, at, 8), 0x1_0000_0000_0000_0000) as i64
}

/// A big-endian 16-bit integer, or `None` where the buffer ends before it does.
pub fn i16_at(buf: &[u8], at: usize) -> (value: Option<i16>)
    ensures
        value == if at + 2 <= buf@.len() {
            Some(i16_of(buf@, at as int))
        } else {
            None
        },
{
    if at > buf.len() || buf.len() - at < 2 {
        return None;
    }
    let raw: u16 = (buf[at] as u16) * 256 + buf[at + 1] as u16;
    proof {
        reveal_with_fuel(be_unsigned, 3);
        assert((raw as i16) == if raw < 0x8000 {
            raw as int
        } else {
            raw - 0x1_0000
        }) by (bit_vector);
    }
    Some(raw as i16)
}

/// A big-endian unsigned 32-bit integer, or `None` where the buffer ends before it
/// does.
pub fn u32_at(buf: &[u8], at: usize) -> (value: Option<u32>)
    ensures
        value == if at + 4 <= buf@.len() {
            Some(u32_of(buf@, at as int))
        } else {
            None
        },
{
    if at > buf.len() || buf.len() - at < 4 {
        return None;
    }
    proof {
        reveal_with_fuel(be_unsigned, 5);
    }
    let high: u32 = (buf[at] as u32) * 256 + buf[at + 1] as u32;
    let low: u32 = (buf[at + 2] as u32) * 256 + buf[at + 3] as u32;
    Some(high * 0x1_0000 + low)
}

/// A big-endian 32-bit integer, or `None` where the buffer ends before it does.
pub fn i32_at(buf: &[u8], at: usize) -> (value: Option<i32>)
    ensures
        value == if at + 4 <= buf@.len() {
            Some(i32_of(buf@, at as int))
        } else {
            None
        },
{
    match u32_at(buf, at) {
        None => None,
        Some(raw) => {
            proof {
                reveal_with_fuel(be_unsigned, 5);
                assert((raw as i32) == if raw < 0x8000_0000 {
                    raw as int
                } else {
                    raw - 0x1_0000_0000
                }) by (bit_vector);
            }
            Some(raw as i32)
        },
    }
}

/// A big-endian 64-bit integer, or `None` where the buffer ends before it does.
pub fn i64_at(buf: &[u8], at: usize) -> (value: Option<i64>)
    ensures
        value == if at + 8 <= buf@.len() {
            Some(i64_of(buf@, at as int))
        } else {
            None
        },
{
    if at > buf.len() || buf.len() - at < 8 {
        return None;
    }
    proof {
        reveal_with_fuel(be_unsigned, 9);
    }
    let a: u64 = (buf[at] as u64) * 256 + buf[at + 1] as u64;
    let b: u64 = (buf[at + 2] as u64) * 256 + buf[at + 3] as u64;
    let c: u64 = (buf[at + 4] as u64) * 256 + buf[at + 5] as u64;
    let d: u64 = (buf[at + 6] as u64) * 256 + buf[at + 7] as u64;
    let raw: u64 = ((a * 0x1_0000 + b) * 0x1_0000 + c) * 0x1_0000 + d;
    proof {
        assert((raw as i64) == if raw < 0x8000_0000_0000_0000 {
            raw as int
        } else {
            raw - 0x1_0000_0000_0000_0000
        }) by (bit_vector);
    }
    Some(raw as i64)
}

/// An encoded integer is at most this long: ten groups of seven bits cover 64.
pub open spec fn varint_limit() -> nat {
    10
}

/// How many bytes a reader takes from `at`, `k` of them taken already: up to the
/// first one below 128, the end of the buffer, or [`varint_limit`].
pub open spec fn varint_len(s: Seq<u8>, at: int, k: nat) -> nat
    decreases varint_limit() - k,
{
    if k >= varint_limit() || at + k >= s.len() {
        k
    } else if s[at + k] < 128 {
        k + 1
    } else {
        varint_len(s, at, k + 1)
    }
}

/// `128` to the power of `n`.
pub open spec fn power(n: nat) -> int {
    vstd::arithmetic::power::pow(128, n)
}

/// The little-endian base-128 value of the low seven bits of `n` bytes at `at`.
pub open spec fn varint_sum(s: Seq<u8>, at: int, n: nat) -> nat
    decreases n,
{
    if n == 0 {
        0
    } else {
        (varint_sum(s, at, (n - 1) as nat) + (s[at + n - 1] % 128) as nat * power((n - 1) as nat)) as nat
    }
}

/// Zigzag: even codes are the non-negative integers, odd ones the negative.
pub open spec fn unzigzag(code: nat) -> int {
    if code % 2 == 0 {
        (code / 2) as int
    } else {
        -(code / 2) - 1
    }
}

/// The integer encoded at `at` and the position just past it, or `None` where the
/// encoding is cut off or longer than [`varint_limit`]. Bits beyond the 64th are
/// dropped.
pub open spec fn varint_at(s: Seq<u8>, at: int) -> Option<(i64, int)> {
    let n = varint_len(s, at, 0);
    if n > 0 && s[at + n - 1] < 128 {
        Some((unzigzag(varint_sum(s, at, n) % 0x1_0000_0000_0000_0000) as i64, at + n))
    } else {
        None
    }
}

/// What a successful read consumed lies inside the buffer.
pub proof fn lemma_varint_len(s: Seq<u8>, at: int, k: nat)
    requires
        0 <= at,
        k <= varint_limit(),
    ensures
        k <= varint_len(s, at, k) <= varint_limit(),
        k < varint_len(s, at, k) ==> at + varint_len(s, at, k) <= s.len(),
    decreases varint_limit() - k,
{
    if k < varint_limit() && at + k < s.len() && s[at + k] >= 128 {
        lemma_varint_len(s, at, k + 1);
    }
}

/// A decoded integer ends inside the buffer, past where it began.
pub proof fn lemma_varint_at(s: Seq<u8>, at: int)
    requires
        0 <= at,
    ensures
        varint_at(s, at) matches Some((_, end)) ==> at < end <= s.len(),
        at >= s.len() ==> varint_at(s, at) is None,
{
    lemma_varint_len(s, at, 0);
}

/// Zigzag LEB128, the integer encoding inside a record batch.
///
/// `None` on a truncated or over-long encoding: this reads bytes off a socket, and
/// a malformed batch can neither index out of bounds nor spin.
pub fn varint(buf: &[u8], pos: &mut usize) -> (value: Option<i64>)
    ensures
        *final(pos) == *old(pos) + varint_len(buf@, *old(pos) as int, 0),
        value == match varint_at(buf@, *old(pos) as int) {
            Some((v, _)) => Some(v),
            None => None,
        },
{
    let start: usize = *pos;
    let ghost at = start as int;
    let mut raw: u64 = 0;
    let mut unit: u64 = 1;
    let mut taken: u8 = 0;
    proof {
        assert(power(0) == 1) by {
            vstd::arithmetic::power::lemma_pow0(128);
        }
        lemma_varint_len(buf@, at, 0);
    }
    loop
        invariant
            start == at,
            *old(pos) == start,
            taken <= 10,
            *pos == start + taken,
            taken > 0 ==> *pos <= buf@.len(),
            taken > 0 ==> buf@[at + taken - 1] >= 128,
            varint_len(buf@, at, 0) == varint_len(buf@, at, taken as nat),
            raw as int == varint_sum(buf@, at, taken as nat) as int % 0x1_0000_0000_0000_0000,
            taken < 10 ==> unit == power(taken as nat),
        decreases 10 - taken,
    {
        if taken == 10 || *pos >= buf.len() {
            return None;
        }
        let byte: u8 = buf[*pos];
        let ghost before = varint_sum(buf@, at, taken as nat);
        let step: u64 = unit.wrapping_mul((byte % 128) as u64);
        proof {
            let d = (byte % 128) as int;
            let u = unit as int;
            assert(d * u == u * d) by (nonlinear_arith);
            assert(0 <= u * d) by (nonlinear_arith)
                requires
                    0 <= u,
                    0 <= d,
            ;
            assert(varint_sum(buf@, at, (taken + 1) as nat) == before + d * u);
            assert(step as int == (u * d) % 0x1_0000_0000_0000_0000);
            vstd::arithmetic::div_mod::lemma_add_mod_noop(
                before as int,
                u * d,
                0x1_0000_0000_0000_0000,
            );
        }
        raw = raw.wrapping_add(step);
        *pos = *pos + 1;
        taken = taken + 1;
        if byte < 128 {
            let half: i64 = (raw / 2) as i64;
            return if raw % 2 == 0 {
                Some(half)
            } else {
                Some(-half - 1)
            };
        }
        proof {
            if taken < 10 {
                lemma_units(taken as nat);
            }
        }
        if taken < 10 {
            unit = unit * 128;
        }
    }
}

proof fn lemma_units(n: nat)
    requires
        0 < n < 10,
    ensures
        power(n) == power((n - 1) as nat) * 128,
        power(n) <= 0x8000_0000_0000_0000,
{
    reveal_with_fuel(vstd::arithmetic::power::pow, 11);
}

/// Numbers read the same wherever their bytes stand.
pub proof fn lemma_same_bytes(s: Seq<u8>, at: int, t: Seq<u8>, to: int, n: nat)
    requires
        forall|k: int| 0 <= k < n ==> #[trigger] s[at + k] == t[to + k],
    ensures
        be_unsigned(s, at, n) == be_unsigned(t, to, n),
    decreases n,
{
    if n > 0 {
        lemma_same_bytes(s, at, t, to, (n - 1) as nat);
        assert(s[at + (n - 1)] == t[to + (n - 1)]);
    }
}

/// Integers stand with their most significant byte first, and are negative from the
/// highest bit on.
pub proof fn law_the_highest_byte_comes_first(s: Seq<u8>, at: int)
    ensures
        u32_of(s, at) == s[at] * 0x100_0000 + s[at + 1] * 0x1_0000 + s[at + 2] * 0x100 + s[at + 3],
        s[at] < 128 ==> i16_of(s, at) == s[at] * 0x100 + s[at + 1],
        s[at] >= 128 ==> i16_of(s, at) == s[at] * 0x100 + s[at + 1] - 0x1_0000,
        s[at] < 128 ==> i32_of(s, at) == u32_of(s, at),
        s[at] >= 128 ==> i32_of(s, at) == u32_of(s, at) - 0x1_0000_0000,
        s[at] < 128 ==> i64_of(s, at) == u32_of(s, at) * 0x1_0000_0000 + u32_of(s, at + 4),
        s[at] >= 128 ==> i64_of(s, at) == u32_of(s, at) * 0x1_0000_0000 + u32_of(s, at + 4)
            - 0x1_0000_0000_0000_0000,
{
    reveal_with_fuel(be_unsigned, 9);
}

/// Zigzag: the integers count 0, -1, 1, -2, 2 and on, so small ones of either sign are
/// short.
pub proof fn law_zigzag_counts_both_ways(n: nat)
    ensures
        unzigzag(2 * n) == n,
        unzigzag(2 * n + 1) == -n - 1,
{
}

/// An integer of one byte is its zigzag value; one of two bytes has its low seven bits in
/// the first, which is marked, and the rest in the second.
pub proof fn law_low_bits_come_first(s: Seq<u8>, at: int)
    requires
        0 <= at < s.len(),
    ensures
        s[at] < 128 ==> varint_at(s, at) == Some((unzigzag(s[at] as nat) as i64, at + 1)),
        s[at] >= 128 && at + 1 < s.len() && s[at + 1] < 128 ==> varint_at(s, at) == Some(
            (unzigzag((s[at] - 128 + s[at + 1] * 128) as nat) as i64, at + 2),
        ),
        s[at] >= 128 && at + 1 == s.len() ==> varint_at(s, at) is None,
{
    reveal_with_fuel(varint_len, 4);
    reveal_with_fuel(vstd::arithmetic::power::pow, 3);
    assert(power(0) == 1);
    assert(power(1) == 128);
    assert(varint_sum(s, at, 0) == 0);
    assert(varint_sum(s, at, 1) == s[at] % 128);
    if s[at] >= 128 && at + 1 < s.len() && s[at + 1] < 128 {
        assert(varint_len(s, at, 0) == 2);
        assert(varint_sum(s, at, 2) == s[at] - 128 + s[at + 1] * 128);
    }
}

/// An integer that has not ended after ten bytes, or with the buffer, is refused.
pub proof fn law_an_overlong_integer_is_refused(s: Seq<u8>, at: int)
    requires
        0 <= at <= s.len(),
        forall|k: int| 0 <= k < 10 && at + k < s.len() ==> (#[trigger] s[at + k]) >= 128,
    ensures
        varint_at(s, at) is None,
{
    lemma_goes_on(s, at, 0);
}

proof fn lemma_goes_on(s: Seq<u8>, at: int, k: nat)
    requires
        0 <= at <= s.len(),
        k <= 10,
        at + k <= s.len(),
        forall|k: int| 0 <= k < 10 && at + k < s.len() ==> (#[trigger] s[at + k]) >= 128,
    ensures
        ({
            let n = varint_len(s, at, k);
            &&& n >= k
            &&& n == 10 || at + n == s.len()
            &&& at + n <= s.len()
            &&& n <= 10
            &&& n > 0 ==> s[at + n - 1] >= 128
        }),
    decreases 10 - k,
{
    if k > 0 {
        assert(s[at + (k - 1)] >= 128);
    }
    if k < 10 && at + k < s.len() {
        assert(s[at + k as int] >= 128);
        lemma_goes_on(s, at, k + 1);
    }
}

} // verus!
