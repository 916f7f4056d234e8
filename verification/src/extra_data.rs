//! Extra data attached to an output sequence record: the sequence index,
//! its color index and its link flags, serialized with consecutive
//! compression — the color is stored as a difference from the previous
//! record's color, carried between records as `last_data`.

use vstd::prelude::*;
use crate::varint::{varint_bytes, varint_decode, encode_varint, decode_varint};

verus! {

/// The extra data of one output sequence record.
#[derive(Clone, Copy, PartialEq, Eq, Structural, Debug)]
pub struct SequenceExtraData {
    pub index: u64,
    pub color: u32,
    pub link_flags: u8,
}

/// Consecutive-compression delta of `color` against the previous record,
/// wrapping modulo 2^32.
pub open spec fn color_delta(color: u32, last: u32) -> u32 {
    if color >= last {
        (color - last) as u32
    } else {
        (color + (u32::MAX - last) + 1) as u32
    }
}

/// Inverse of `color_delta` for a fixed `last`.
pub open spec fn color_undelta(delta: u32, last: u32) -> u32 {
    if delta <= u32::MAX - last {
        (last + delta) as u32
    } else {
        (delta - (u32::MAX - last) - 1) as u32
    }
}

pub proof fn lemma_color_delta_round_trip(color: u32, last: u32)
    ensures
        color_undelta(color_delta(color, last), last) == color,
{
}

/// The bytes of one record given the previous record's color: varint of
/// the index, varint of the color delta, then the flag byte.
pub open spec fn extra_bytes(e: SequenceExtraData, last: u32) -> Seq<u8> {
    varint_bytes(e.index) + varint_bytes(color_delta(e.color, last) as u64) + seq![e.link_flags]
}

/// What a decoder reads from the front of `s` for one record.
pub open spec fn extra_decode(s: Seq<u8>, last: u32) -> Option<(SequenceExtraData, int)> {
    match varint_decode(s) {
        Some((ix, n1)) => match varint_decode(s.skip(n1)) {
            Some((d, n2)) => if d <= u32::MAX && n1 + n2 < s.len() {
                Some((
                    SequenceExtraData {
                        index: ix,
                        color: color_undelta(d as u32, last),
                        link_flags: s[n1 + n2],
                    },
                    n1 + n2 + 1,
                ))
            } else {
                None
            },
            None => None,
        },
        None => None,
    }
}

impl SequenceExtraData {
    /// Serializes the record to `out`; returns the `last_data` for the
    /// next record.
    pub fn encode_extended(&self, out: &mut Vec<u8>, last_data: u32) -> (r: u32)
        ensures
            final(out)@ == old(out)@ + extra_bytes(*self, last_data),
            r == self.color,
    {
        encode_varint(out, self.index);
        let delta: u32 = if self.color >= last_data {
            self.color - last_data
        } else {
            self.color + (u32::MAX - last_data) + 1
        };
        encode_varint(out, delta as u64);
        out.push(self.link_flags);
        assert(out@ =~= old(out)@ + extra_bytes(*self, last_data));
        self.color
    }

    /// Deserializes one record starting at `pos`; returns the record, the
    /// position after it and the next `last_data`.
    pub fn decode_extended(data: &Vec<u8>, pos: usize, last_data: u32) -> (r: Option<
        (SequenceExtraData, usize, u32),
    >)
        requires
            pos <= data@.len(),
        ensures
            match r {
                Some((e, end, newlast)) => {
                    &&& pos < end <= data@.len()
                    &&& newlast == e.color
                    &&& extra_decode(data@.skip(pos as int), last_data) == Some((e, end - pos))
                },
                None => extra_decode(data@.skip(pos as int), last_data) is None,
            },
    {
        let ix = match decode_varint(data, pos) {
            Some(v) => v,
            None => {
                return None;
            },
        };
        assert(data@.skip(pos as int).skip(ix.1 - pos) =~= data@.skip(ix.1 as int));
        let d = match decode_varint(data, ix.1) {
            Some(v) => v,
            None => {
                return None;
            },
        };
        if d.0 > u32::MAX as u64 {
            return None;
        }
        if d.1 >= data.len() {
            return None;
        }
        let flags = data[d.1];
        let delta = d.0 as u32;
        let color: u32 = if delta <= u32::MAX - last_data {
            last_data + delta
        } else {
            delta - (u32::MAX - last_data) - 1
        };
        let e = SequenceExtraData { index: ix.0, color, link_flags: flags };
        assert(data@.skip(pos as int)[d.1 - pos] == data@[d.1 as int]);
        Some((e, d.1 + 1, color))
    }

    /// The most bytes one record can take.
    pub fn max_size(&self) -> (r: usize)
        ensures
            r == 16,
            extra_bytes(*self, 0).len() <= r,
    {
        proof {
            crate::varint::lemma_varint_bytes_len(self.index);
            crate::varint::lemma_varint_bytes_len_u32(color_delta(self.color, 0) as u64);
        }
        16
    }

    /// The `last_data` this record hands to the one after it.
    pub fn obtain_last_data(&self) -> (r: u32)
        ensures
            r == self.color,
    {
        self.color
    }
}

/// Round trip: decoding the bytes `encode_extended` produced, with the
/// same `last_data`, yields the record that was written, whatever follows
/// it.
pub proof fn lemma_extra_round_trip(e: SequenceExtraData, last: u32, rest: Seq<u8>)
    ensures
        extra_decode(extra_bytes(e, last) + rest, last) == Some((
            e,
            extra_bytes(e, last).len() as int,
        )),
{
    let ibytes = varint_bytes(e.index);
    let dbytes = varint_bytes(color_delta(e.color, last) as u64);
    let s = extra_bytes(e, last) + rest;
    assert(s =~= ibytes + (dbytes + seq![e.link_flags] + rest));
    crate::varint::lemma_varint_round_trip(e.index, dbytes + seq![e.link_flags] + rest);
    let n1 = ibytes.len() as int;
    assert(s.skip(n1) =~= dbytes + (seq![e.link_flags] + rest));
    crate::varint::lemma_varint_round_trip(
        color_delta(e.color, last) as u64,
        seq![e.link_flags] + rest,
    );
    let n2 = dbytes.len() as int;
    assert(s[n1 + n2] == e.link_flags);
    lemma_color_delta_round_trip(e.color, last);
}

} // verus!
