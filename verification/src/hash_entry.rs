//! Hash entries: one record per oriented extension of a k-mer that crosses
//! a bucket boundary. Two entries with equal hash and opposite direction
//! define one edge of the de Bruijn graph.

use vstd::prelude::*;
use crate::varint::{varint_bytes, varint_decode, encode_varint, decode_varint};

verus! {

/// Which side of the `(k-1)`-mer boundary the entry looks across.
#[derive(Clone, Copy, PartialEq, Eq, Structural, Debug)]
pub enum Direction {
    Forward,
    Backward,
}

/// An adjacency record: the canonical hash of the shared `(k-1)`-mer, the
/// bucket and entry id of the partial unitig that owns this end, and the
/// direction of the crossing.
#[derive(Clone, Copy, PartialEq, Eq, Structural, Debug)]
pub struct HashEntry {
    pub hash: u64,
    pub bucket: u32,
    pub entry: u32,
    pub direction: Direction,
}

/// The byte the codec stores for a direction.
pub open spec fn direction_byte(d: Direction) -> u8 {
    match d {
        Direction::Forward => 0,
        Direction::Backward => 1,
    }
}

/// The bytes of one hash entry: varints of hash, bucket and entry, then
/// the direction byte.
pub open spec fn hash_entry_bytes(e: HashEntry) -> Seq<u8> {
    varint_bytes(e.hash) + varint_bytes(e.bucket as u64) + varint_bytes(e.entry as u64)
        + seq![direction_byte(e.direction)]
}

/// What a decoder reads from the front of `s` for one hash entry.
pub open spec fn hash_entry_decode(s: Seq<u8>) -> Option<(HashEntry, int)> {
    match varint_decode(s) {
        Some((h, n1)) => match varint_decode(s.skip(n1)) {
            Some((b, n2)) => if b <= u32::MAX {
                match varint_decode(s.skip(n1 + n2)) {
                    Some((en, n3)) => if en <= u32::MAX && n1 + n2 + n3 < s.len()
                        && s[n1 + n2 + n3] <= 1 {
                        Some((
                            HashEntry {
                                hash: h,
                                bucket: b as u32,
                                entry: en as u32,
                                direction: if s[n1 + n2 + n3] == 0 {
                                    Direction::Forward
                                } else {
                                    Direction::Backward
                                },
                            },
                            n1 + n2 + n3 + 1,
                        ))
                    } else {
                        None
                    },
                    None => None,
                }
            } else {
                None
            },
            None => None,
        },
        None => None,
    }
}

impl HashEntry {
    /// Serializes the entry to `out`.
    pub fn write_to(&self, out: &mut Vec<u8>) -> (r: ())
        ensures
            final(out)@ == old(out)@ + hash_entry_bytes(*self),
    {
        proof {
            crate::varint::lemma_varint_bytes_len(self.hash);
            crate::varint::lemma_varint_bytes_len(self.bucket as u64);
            crate::varint::lemma_varint_bytes_len(self.entry as u64);
        }
        encode_varint(out, self.hash);
        encode_varint(out, self.bucket as u64);
        encode_varint(out, self.entry as u64);
        let db: u8 = match self.direction {
            Direction::Forward => 0,
            Direction::Backward => 1,
        };
        out.push(db);
        assert(out@ =~= old(out)@ + hash_entry_bytes(*self));
    }

    /// Deserializes one entry starting at `pos`; returns the entry and the
    /// position after it.
    pub fn read_from(data: &Vec<u8>, pos: usize) -> (r: Option<(HashEntry, usize)>)
        requires
            pos <= data@.len(),
        ensures
            match r {
                Some((e, end)) => {
                    &&& pos < end <= data@.len()
                    &&& hash_entry_decode(data@.skip(pos as int)) == Some((e, end - pos))
                },
                None => hash_entry_decode(data@.skip(pos as int)) is None,
            },
    {
        let h = match decode_varint(data, pos) {
            Some(v) => v,
            None => {
                return None;
            },
        };
        assert(data@.skip(pos as int).skip(h.1 - pos) =~= data@.skip(h.1 as int));
        let b = match decode_varint(data, h.1) {
            Some(v) => v,
            None => {
                return None;
            },
        };
        if b.0 > u32::MAX as u64 {
            return None;
        }
        assert(data@.skip(pos as int).skip(b.1 - pos) =~= data@.skip(b.1 as int));
        let en = match decode_varint(data, b.1) {
            Some(v) => v,
            None => {
                return None;
            },
        };
        if en.0 > u32::MAX as u64 {
            return None;
        }
        if en.1 >= data.len() {
            return None;
        }
        let db = data[en.1];
        if db > 1 {
            return None;
        }
        let e = HashEntry {
            hash: h.0,
            bucket: b.0 as u32,
            entry: en.0 as u32,
            direction: if db == 0 { Direction::Forward } else { Direction::Backward },
        };
        assert(data@.skip(pos as int)[en.1 - pos] == data@[en.1 as int]);
        Some((e, en.1 + 1))
    }
}

/// Round trip: decoding the bytes `write_to` produced yields the entry
/// that was written, whatever follows it.
pub proof fn lemma_hash_entry_round_trip(e: HashEntry, rest: Seq<u8>)
    ensures
        hash_entry_decode(hash_entry_bytes(e) + rest) == Some((
            e,
            hash_entry_bytes(e).len() as int,
        )),
{
    let hbytes = varint_bytes(e.hash);
    let bbytes = varint_bytes(e.bucket as u64);
    let ebytes = varint_bytes(e.entry as u64);
    let s = hash_entry_bytes(e) + rest;
    assert(s =~= hbytes + (bbytes + ebytes + seq![direction_byte(e.direction)] + rest));
    crate::varint::lemma_varint_round_trip(
        e.hash,
        bbytes + ebytes + seq![direction_byte(e.direction)] + rest,
    );
    let n1 = hbytes.len() as int;
    assert(s.skip(n1) =~= bbytes + (ebytes + seq![direction_byte(e.direction)] + rest));
    crate::varint::lemma_varint_round_trip(
        e.bucket as u64,
        ebytes + seq![direction_byte(e.direction)] + rest,
    );
    let n2 = bbytes.len() as int;
    assert(s.skip(n1 + n2) =~= ebytes + (seq![direction_byte(e.direction)] + rest));
    crate::varint::lemma_varint_round_trip(
        e.entry as u64,
        seq![direction_byte(e.direction)] + rest,
    );
    let n3 = ebytes.len() as int;
    assert(s[n1 + n2 + n3] == direction_byte(e.direction));
}

} // verus!
