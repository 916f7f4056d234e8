//! Unsigned LEB128 variable-length integers: 7 data bits per byte, the high
//! bit of each byte marks continuation. A `u64` takes at most 10 bytes.

use vstd::prelude::*;

verus! {

/// Largest number of bytes an encoded `u64` can take.
pub const VARINT_MAX_SIZE: usize = 10;

/// The encoding of `v`: little-endian groups of 7 bits, each non-final byte
/// carrying the continuation bit.
pub open spec fn varint_bytes(v: u64) -> Seq<u8>
    decreases v,
{
    if v < 128 {
        seq![v as u8]
    } else {
        seq![(v % 128 + 128) as u8] + varint_bytes(v / 128)
    }
}

/// What a decoder reads from the front of `s`: the value and the number of
/// bytes consumed, or `None` when `s` ends inside a varint or the value
/// does not fit in a `u64`.
pub open spec fn varint_decode(s: Seq<u8>) -> Option<(u64, int)>
    decreases s.len(),
{
    if s.len() == 0 {
        None
    } else if s[0] < 128 {
        Some((s[0] as u64, 1))
    } else {
        match varint_decode(s.skip(1)) {
            Some((v, n)) => {
                if v <= (u64::MAX - (s[0] - 128)) / 128 {
                    Some(((v * 128 + (s[0] - 128)) as u64, n + 1))
                } else {
                    None
                }
            },
            None => None,
        }
    }
}

/// Appends the LEB128 encoding of `value` to `out`.
pub fn encode_varint(out: &mut Vec<u8>, value: u64)
    ensures
        final(out)@ == old(out)@ + varint_bytes(value),
    decreases value,
{
    if value < 128 {
        out.push(value as u8);
        assert(out@ =~= old(out)@ + varint_bytes(value));
    } else {
        out.push((value % 128 + 128) as u8);
        encode_varint(out, value / 128);
        assert(out@ =~= old(out)@ + varint_bytes(value));
    }
}

/// Reads one LEB128 integer starting at `pos`; returns the value and the
/// position of the first byte after it.
pub fn decode_varint(data: &Vec<u8>, pos: usize) -> (r: Option<(u64, usize)>)
    requires
        pos <= data@.len(),
    ensures
        match r {
            Some((v, end)) => {
                &&& varint_decode(data@.skip(pos as int)) == Some((v, end - pos))
                &&& pos < end <= data@.len()
            },
            None => varint_decode(data@.skip(pos as int)) is None,
        },
    decreases data@.len() - pos,
{
    if pos == data.len() {
        return None;
    }
    let b = data[pos];
    if b < 128 {
        Some((b as u64, pos + 1))
    } else {
        assert(data@.skip(pos as int).skip(1) =~= data@.skip(pos + 1));
        match decode_varint(data, pos + 1) {
            Some((v, end)) => {
                if v <= (u64::MAX - ((b - 128) as u64)) / 128 {
                    Some((v * 128 + ((b - 128) as u64), end))
                } else {
                    None
                }
            },
            None => None,
        }
    }
}

/// Round trip: a decoder that starts at the first byte of `varint_bytes(v)`
/// reads back exactly `v`, whatever follows the encoding.
pub proof fn lemma_varint_round_trip(v: u64, rest: Seq<u8>)
    ensures
        varint_decode(varint_bytes(v) + rest) == Some((v, varint_bytes(v).len() as int)),
    decreases v,
{
    let s = varint_bytes(v) + rest;
    if v < 128 {
        assert(s[0] == v as u8);
    } else {
        lemma_varint_round_trip(v / 128, rest);
        assert(s.skip(1) =~= varint_bytes(v / 128) + rest);
        assert(s[0] == (v % 128 + 128) as u8);
        assert(v / 128 <= (u64::MAX - (s[0] - 128)) / 128) by (nonlinear_arith)
            requires s[0] == (v % 128 + 128) as u8, v >= 128,
        {}
        assert((v / 128) * 128 + (v % 128) == v) by (nonlinear_arith);
    }
}

/// Powers of 128, the base of the encoding.
spec fn pow128(n: nat) -> nat
    decreases n,
{
    if n == 0 {
        1
    } else {
        128 * pow128((n - 1) as nat)
    }
}

/// The encoding is never empty and never longer than `VARINT_MAX_SIZE`.
pub proof fn lemma_varint_bytes_len(v: u64)
    ensures
        1 <= varint_bytes(v).len() <= VARINT_MAX_SIZE,
{
    reveal_with_fuel(pow128, 2);
    assert(pow128(0) == 1);
    assert(pow128(1) == 0x80);
    assert(pow128(2) == 0x4000);
    assert(pow128(3) == 0x200000);
    assert(pow128(4) == 0x10000000);
    assert(pow128(5) == 0x800000000);
    assert(pow128(6) == 0x40000000000);
    assert(pow128(7) == 0x2000000000000);
    assert(pow128(8) == 0x100000000000000);
    assert(pow128(9) == 0x8000000000000000);
    assert(pow128(10) == 0x400000000000000000);
    lemma_varint_len_bound(v, 10);
}

/// A value that fits 32 bits encodes in at most 5 bytes.
pub proof fn lemma_varint_bytes_len_u32(v: u64)
    requires
        v <= u32::MAX,
    ensures
        1 <= varint_bytes(v).len() <= 5,
{
    reveal_with_fuel(pow128, 2);
    assert(pow128(0) == 1);
    assert(pow128(1) == 0x80);
    assert(pow128(2) == 0x4000);
    assert(pow128(3) == 0x200000);
    assert(pow128(4) == 0x10000000);
    assert(pow128(5) == 0x800000000);
    lemma_varint_len_bound(v, 5);
}

/// A value below `128^n` encodes in at most `n` bytes.
proof fn lemma_varint_len_bound(v: u64, n: nat)
    requires
        (v as nat) < pow128(n),
        n >= 1,
    ensures
        varint_bytes(v).len() <= n,
    decreases v,
{
    if v >= 128 {
        reveal_with_fuel(pow128, 2);
        if n == 1 {
            assert(false);
        }
        assert(((v / 128) as nat) < pow128((n - 1) as nat)) by {
            assert(pow128(n) == 128 * pow128((n - 1) as nat));
            assert((v as nat / 128) < pow128((n - 1) as nat)) by (nonlinear_arith)
                requires
                    (v as nat) < 128 * pow128((n - 1) as nat),
            {}
        }
        lemma_varint_len_bound(v / 128, (n - 1) as nat);
    }
}

} // verus!
