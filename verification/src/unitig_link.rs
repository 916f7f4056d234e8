//! Unitig links: the records that the hash-sorting and link-compaction
//! phases exchange through link buckets, together with their on-disk codec.
//! The codec uses consecutive compression (the record's `entry` is stored
//! as a difference from the previous record's `entry`, carried between
//! records as `last_data`).

use vstd::prelude::*;
use crate::varint::{varint_bytes, varint_decode, encode_varint, decode_varint};
use crate::vec_slice::VecSlice;

verus! {

/// Orientation and seal state of a link. A sealed end can no longer fuse.
#[derive(Clone, Copy, PartialEq, Eq, Structural, Debug)]
pub struct UnitigFlags {
    pub is_forward: bool,
    pub begin_sealed: bool,
    pub end_sealed: bool,
}

impl UnitigFlags {
    /// Flags of an empty placeholder link.
    pub fn new_empty() -> (r: Self)
        ensures
            r == (UnitigFlags { is_forward: false, begin_sealed: false, end_sealed: false }),
    {
        UnitigFlags { is_forward: false, begin_sealed: false, end_sealed: false }
    }

    /// Flags of a fresh link with the given orientation and open ends.
    pub fn new_direction(forward: bool) -> (r: Self)
        ensures
            r == (UnitigFlags { is_forward: forward, begin_sealed: false, end_sealed: false }),
    {
        UnitigFlags { is_forward: forward, begin_sealed: false, end_sealed: false }
    }

    /// Flags of the fusion of two links: the combined link keeps the first
    /// side's orientation and outer seal, and takes its begin seal from the
    /// second side's outer seal.
    pub fn combine(a: UnitigFlags, b: UnitigFlags) -> (r: Self)
        ensures
            r == a.combine_spec(b),
    {
        UnitigFlags {
            is_forward: a.is_forward,
            begin_sealed: b.end_sealed,
            end_sealed: a.end_sealed,
        }
    }

    pub open spec fn combine_spec(self, b: UnitigFlags) -> UnitigFlags {
        UnitigFlags {
            is_forward: self.is_forward,
            begin_sealed: b.end_sealed,
            end_sealed: self.end_sealed,
        }
    }

    /// The same link read from the other endpoint.
    pub fn reversed(self) -> (r: Self)
        ensures
            r == self.reversed_spec(),
    {
        UnitigFlags {
            is_forward: !self.is_forward,
            begin_sealed: self.end_sealed,
            end_sealed: self.begin_sealed,
        }
    }

    pub open spec fn reversed_spec(self) -> UnitigFlags {
        UnitigFlags {
            is_forward: !self.is_forward,
            begin_sealed: self.end_sealed,
            end_sealed: self.begin_sealed,
        }
    }

    /// Marks the begin end as no longer fusible.
    pub fn seal_beginning(&mut self)
        ensures
            *final(self) == (UnitigFlags {
                is_forward: old(self).is_forward,
                begin_sealed: true,
                end_sealed: old(self).end_sealed,
            }),
    {
        self.begin_sealed = true;
    }

    /// The byte the codec stores for these flags.
    pub open spec fn as_byte(self) -> u8 {
        ((if self.is_forward { 1u8 } else { 0u8 })
            + (if self.begin_sealed { 2u8 } else { 0u8 })
            + (if self.end_sealed { 4u8 } else { 0u8 })) as u8
    }

    /// The flags a stored byte stands for.
    pub open spec fn from_byte(b: u8) -> UnitigFlags {
        UnitigFlags {
            is_forward: b % 2 == 1,
            begin_sealed: (b / 2) % 2 == 1,
            end_sealed: (b / 4) % 2 == 1,
        }
    }
}

/// Flag bytes decode back to the flags they were made from.
pub proof fn lemma_flags_round_trip(f: UnitigFlags)
    ensures
        UnitigFlags::from_byte(f.as_byte()) == f,
        f.as_byte() < 8,
{
}

/// A pointer to a partial-unitig sequence record: which bucket holds it and
/// at which entry index.
#[derive(Clone, Copy, PartialEq, Eq, Structural, Debug)]
pub struct UnitigIndex {
    pub bucket: u32,
    pub index: u32,
}

impl UnitigIndex {
    pub fn new(bucket: u32, index: u32) -> (r: Self)
        ensures
            r == (UnitigIndex { bucket, index }),
    {
        UnitigIndex { bucket, index }
    }

    pub fn bucket(&self) -> (r: u32)
        ensures
            r == self.bucket,
    {
        self.bucket
    }

    pub fn index(&self) -> (r: u32)
        ensures
            r == self.index,
    {
        self.index
    }
}

/// One endpoint record of a (partially compacted) unitig: the entry id of
/// the endpoint in its bucket, its flags, and the ordered run of partial
/// sequences the unitig is made of, held in a shared storage vector.
#[derive(Clone, Copy, PartialEq, Eq, Structural, Debug)]
pub struct UnitigLink {
    pub entry: u64,
    pub flags: UnitigFlags,
    pub entries: VecSlice,
}

/// Consecutive-compression delta of `entry` against the previous record's
/// `entry`, wrapping modulo 2^64.
pub open spec fn entry_delta(entry: u64, last: u64) -> u64 {
    if entry >= last {
        (entry - last) as u64
    } else {
        (entry + (u64::MAX - last) + 1) as u64
    }
}

/// Inverse of `entry_delta` for a fixed `last`.
pub open spec fn entry_undelta(delta: u64, last: u64) -> u64 {
    if delta <= u64::MAX - last {
        (last + delta) as u64
    } else {
        (delta - (u64::MAX - last) - 1) as u64
    }
}

pub proof fn lemma_entry_delta_round_trip(entry: u64, last: u64)
    ensures
        entry_undelta(entry_delta(entry, last), last) == entry,
{
}

/// The bytes of one `UnitigIndex`: varints of bucket and index.
pub open spec fn index_bytes(u: UnitigIndex) -> Seq<u8> {
    varint_bytes(u.bucket as u64) + varint_bytes(u.index as u64)
}

/// The bytes of a run of `UnitigIndex` records, in order.
pub open spec fn entries_bytes(s: Seq<UnitigIndex>) -> Seq<u8>
    decreases s.len(),
{
    if s.len() == 0 {
        Seq::empty()
    } else {
        index_bytes(s[0]) + entries_bytes(s.skip(1))
    }
}

/// The bytes of one link record given the previous record's entry value:
/// entry delta, flag byte, entry-list length, then the entry list.
pub open spec fn link_bytes(entry: u64, flags: UnitigFlags, entries: Seq<UnitigIndex>, last: u64) -> Seq<u8> {
    varint_bytes(entry_delta(entry, last)) + seq![flags.as_byte()] + varint_bytes(
        entries.len() as u64,
    ) + entries_bytes(entries)
}

impl UnitigLink {
    /// Serializes the link to `out`. `storage` holds the link's entry list;
    /// `last_data` is the previous record's entry (zero for the first
    /// record of a stream).
    pub fn write_to(&self, storage: &Vec<UnitigIndex>, out: &mut Vec<u8>, last_data: u64) -> (r: u64)
        requires
            self.entries.wf_in(storage@),
            self.entries.len <= u64::MAX,
        ensures
            final(out)@ == old(out)@ + link_bytes(
                self.entry,
                self.flags,
                self.entries.view_in(storage@),
                last_data,
            ),
            r == self.entry,
    {
        proof {
            crate::varint::lemma_varint_bytes_len(entry_delta(self.entry, last_data));
            crate::varint::lemma_varint_bytes_len(self.entries.len as u64);
        }
        let delta: u64 = if self.entry >= last_data {
            self.entry - last_data
        } else {
            self.entry + (u64::MAX - last_data) + 1
        };
        encode_varint(out, delta);
        let fb: u8 = (if self.flags.is_forward { 1u8 } else { 0u8 })
            + (if self.flags.begin_sealed { 2u8 } else { 0u8 })
            + (if self.flags.end_sealed { 4u8 } else { 0u8 });
        out.push(fb);
        encode_varint(out, self.entries.len as u64);
        let ghost prefix = out@;
        let ghost entries_view = self.entries.view_in(storage@);
        let mut i: usize = 0;
        while i < self.entries.len
            invariant
                i <= self.entries.len,
                self.entries.wf_in(storage@),
                entries_view == self.entries.view_in(storage@),
                out@ == prefix + entries_bytes(entries_view.take(i as int)),
            decreases self.entries.len - i,
        {
            let u = self.entries.get(storage, i);
            proof {
                crate::varint::lemma_varint_bytes_len(u.bucket as u64);
                crate::varint::lemma_varint_bytes_len(u.index as u64);
            }
            encode_varint(out, u.bucket as u64);
            encode_varint(out, u.index as u64);
            proof {
                lemma_entries_bytes_snoc(entries_view.take(i as int), u);
                assert(entries_view.take(i + 1) =~= entries_view.take(i as int).push(u));
            }
            i = i + 1;
        }
        proof {
            assert(entries_view.take(self.entries.len as int) =~= entries_view);
            assert(out@ =~= old(out)@ + link_bytes(self.entry, self.flags, entries_view, last_data));
        }
        self.entry
    }
}

/// What a decoder reads from the front of `s` for a run of `cnt` index
/// records: the indexes and the bytes consumed.
pub open spec fn entries_decode(s: Seq<u8>, cnt: nat) -> Option<(Seq<UnitigIndex>, int)>
    decreases cnt,
{
    if cnt == 0 {
        Some((Seq::empty(), 0))
    } else {
        match varint_decode(s) {
            Some((b, n1)) => if b <= u32::MAX {
                match varint_decode(s.skip(n1)) {
                    Some((ix, n2)) => if ix <= u32::MAX {
                        match entries_decode(s.skip(n1 + n2), (cnt - 1) as nat) {
                            Some((tail, n3)) => Some((
                                seq![UnitigIndex { bucket: b as u32, index: ix as u32 }] + tail,
                                n1 + n2 + n3,
                            )),
                            None => None,
                        }
                    } else {
                        None
                    },
                    None => None,
                }
            } else {
                None
            },
            None => None,
        }
    }
}

/// What a decoder reads from the front of `s` for one link record, given
/// the previous record's entry value.
pub open spec fn link_decode(s: Seq<u8>, last: u64) -> Option<((u64, UnitigFlags, Seq<UnitigIndex>), int)> {
    match varint_decode(s) {
        Some((delta, n1)) => if n1 < s.len() {
            match varint_decode(s.skip(n1 + 1)) {
                Some((cnt, n2)) => match entries_decode(s.skip(n1 + 1 + n2), cnt as nat) {
                    Some((es, n3)) => Some((
                        (entry_undelta(delta, last), UnitigFlags::from_byte(s[n1]), es),
                        n1 + 1 + n2 + n3,
                    )),
                    None => None,
                },
                None => None,
            }
        } else {
            None
        },
        None => None,
    }
}

/// Reads `cnt` index records starting at `pos`, appending them to
/// `storage`; returns the position after the run.
fn read_entries(data: &Vec<u8>, pos: usize, cnt: u64, storage: &mut Vec<UnitigIndex>) -> (r: Option<usize>)
    requires
        pos <= data@.len(),
    ensures
        match r {
            Some(end) => {
                &&& pos <= end <= data@.len()
                &&& match entries_decode(data@.skip(pos as int), cnt as nat) {
                    Some((es, n)) => {
                        &&& end == pos + n
                        &&& final(storage)@ == old(storage)@ + es
                    },
                    None => false,
                }
            },
            None => {
                &&& entries_decode(data@.skip(pos as int), cnt as nat) is None
                &&& final(storage)@ == old(storage)@
            },
        },
    decreases cnt,
{
    if cnt == 0 {
        assert(final(storage)@ =~= old(storage)@ + Seq::<UnitigIndex>::empty());
        return Some(pos);
    }
    let b = match decode_varint(data, pos) {
        Some((b, n1)) => (b, n1),
        None => {
            return None;
        },
    };
    if b.0 > u32::MAX as u64 {
        return None;
    }
    assert(data@.skip(pos as int).skip(b.1 - pos) =~= data@.skip(b.1 as int));
    let ix = match decode_varint(data, b.1) {
        Some((ix, n2)) => (ix, n2),
        None => {
            return None;
        },
    };
    if ix.0 > u32::MAX as u64 {
        return None;
    }
    let u = UnitigIndex { bucket: b.0 as u32, index: ix.0 as u32 };
    storage.push(u);
    assert(data@.skip(b.1 as int).skip(ix.1 - b.1) =~= data@.skip(ix.1 as int));
    assert(data@.skip(pos as int).skip(ix.1 - pos) =~= data@.skip(ix.1 as int));
    let ghost mid = storage@;
    match read_entries(data, ix.1, cnt - 1, storage) {
        Some(end) => {
            proof {
                let s = data@.skip(pos as int);
                let (es_tail, n3) = entries_decode(data@.skip(ix.1 as int), (cnt - 1) as nat).unwrap();
                assert(entries_decode(s, cnt as nat) == Some((seq![u] + es_tail, (b.1 - pos) + (ix.1 - b.1) + n3)));
                assert(storage@ =~= old(storage)@ + (seq![u] + es_tail));
            }
            Some(end)
        },
        None => {
            // the partial record run is discarded with the whole read
            proof {
                assert(entries_decode(data@.skip(pos as int), cnt as nat) is None);
            }
            storage.pop();
            assert(storage@ =~= old(storage)@);
            None
        },
    }
}

impl UnitigLink {
    /// Deserializes one link starting at `pos`, appending its entry list to
    /// `storage`; returns the link, the position after it, and the new
    /// `last_data` for the next record.
    pub fn read_from(data: &Vec<u8>, pos: usize, storage: &mut Vec<UnitigIndex>, last_data: u64) -> (r: Option<(UnitigLink, usize, u64)>)
        requires
            pos <= data@.len(),
        ensures
            match r {
                Some((link, end, newlast)) => {
                    &&& pos < end <= data@.len()
                    &&& newlast == link.entry
                    &&& link.entries.pos == old(storage)@.len()
                    &&& link.entries.wf_in(final(storage)@)
                    &&& match link_decode(data@.skip(pos as int), last_data) {
                        Some((lv, n)) => {
                            &&& end == pos + n
                            &&& lv.0 == link.entry
                            &&& lv.1 == link.flags
                            &&& lv.2 == link.entries.view_in(final(storage)@)
                            &&& final(storage)@ == old(storage)@ + lv.2
                        },
                        None => false,
                    }
                },
                None => {
                    &&& link_decode(data@.skip(pos as int), last_data) is None
                    &&& final(storage)@ == old(storage)@
                },
            },
    {
        let d = match decode_varint(data, pos) {
            Some((delta, n1)) => (delta, n1),
            None => {
                return None;
            },
        };
        if d.1 >= data.len() {
            return None;
        }
        let fb = data[d.1];
        let flags = UnitigFlags {
            is_forward: fb % 2 == 1,
            begin_sealed: (fb / 2) % 2 == 1,
            end_sealed: (fb / 4) % 2 == 1,
        };
        assert(data@.skip(pos as int).skip(d.1 + 1 - pos) =~= data@.skip(d.1 + 1));
        let c = match decode_varint(data, d.1 + 1) {
            Some((cnt, n2)) => (cnt, n2),
            None => {
                return None;
            },
        };
        assert(data@.skip(pos as int).skip(c.1 - pos) =~= data@.skip(c.1 as int));
        let start = storage.len();
        let end = match read_entries(data, c.1, c.0, storage) {
            Some(end) => end,
            None => {
                return None;
            },
        };
        let entry = if d.0 <= u64::MAX - last_data {
            last_data + d.0
        } else {
            d.0 - (u64::MAX - last_data) - 1
        };
        let count = storage.len() - start;
        let link = UnitigLink { entry, flags, entries: VecSlice { pos: start, len: count } };
        proof {
            let s = data@.skip(pos as int);
            let (es, n3) = entries_decode(data@.skip(c.1 as int), c.0 as nat).unwrap();
            assert(s[d.1 - pos] == data@[d.1 as int]);
            assert(link_decode(s, last_data) == Some((
                (entry_undelta(d.0, last_data), UnitigFlags::from_byte(fb), es),
                (d.1 - pos) + 1 + (c.1 - (d.1 + 1)) + n3,
            )));
            assert(link.entries.view_in(storage@) =~= es);
        }
        Some((link, end, entry))
    }
}

/// Round trip: decoding the bytes that `write_to` produced, with the same
/// `last_data`, yields the record that was written, whatever follows it.
pub proof fn lemma_link_round_trip(entry: u64, flags: UnitigFlags, es: Seq<UnitigIndex>, last: u64, rest: Seq<u8>)
    requires
        es.len() <= u64::MAX,
    ensures
        link_decode(link_bytes(entry, flags, es, last) + rest, last) == Some((
            (entry, flags, es),
            link_bytes(entry, flags, es, last).len() as int,
        )),
{
    let delta = entry_delta(entry, last);
    let dbytes = varint_bytes(delta);
    let cbytes = varint_bytes(es.len() as u64);
    let ebytes = entries_bytes(es);
    let s = link_bytes(entry, flags, es, last) + rest;
    crate::varint::lemma_varint_round_trip(delta, seq![flags.as_byte()] + cbytes + ebytes + rest);
    assert(s =~= dbytes + (seq![flags.as_byte()] + cbytes + ebytes + rest));
    let n1 = dbytes.len() as int;
    assert(s[n1] == flags.as_byte());
    assert(s.skip(n1 + 1) =~= cbytes + (ebytes + rest));
    crate::varint::lemma_varint_round_trip(es.len() as u64, ebytes + rest);
    let n2 = cbytes.len() as int;
    assert(s.skip(n1 + 1).skip(n2) =~= ebytes + rest);
    assert(s.skip(n1 + 1 + n2) =~= ebytes + rest);
    lemma_entries_round_trip(es, rest);
    lemma_flags_round_trip(flags);
    lemma_entry_delta_round_trip(entry, last);
}

/// Round trip for a run of index records.
pub proof fn lemma_entries_round_trip(es: Seq<UnitigIndex>, rest: Seq<u8>)
    ensures
        entries_decode(entries_bytes(es) + rest, es.len()) == Some((es, entries_bytes(es).len() as int)),
    decreases es.len(),
{
    if es.len() == 0 {
        assert(entries_bytes(es) + rest =~= rest);
        assert(entries_bytes(es).len() == 0);
    } else {
        let u = es[0];
        let bbytes = varint_bytes(u.bucket as u64);
        let ibytes = varint_bytes(u.index as u64);
        let tailbytes = entries_bytes(es.skip(1));
        let s = entries_bytes(es) + rest;
        assert(s =~= bbytes + (ibytes + tailbytes + rest));
        crate::varint::lemma_varint_round_trip(u.bucket as u64, ibytes + tailbytes + rest);
        let n1 = bbytes.len() as int;
        assert(s.skip(n1) =~= ibytes + (tailbytes + rest));
        crate::varint::lemma_varint_round_trip(u.index as u64, tailbytes + rest);
        let n2 = ibytes.len() as int;
        assert(s.skip(n1).skip(n2) =~= tailbytes + rest);
        assert(s.skip(n1 + n2) =~= tailbytes + rest);
        lemma_entries_round_trip(es.skip(1), rest);
        assert(seq![UnitigIndex { bucket: u.bucket, index: u.index }] + es.skip(1) =~= es);
        assert(entries_bytes(es).len() == n1 + n2 + tailbytes.len());
    }
}

/// Appending one index to a run appends its bytes to the run's encoding.
pub proof fn lemma_entries_bytes_snoc(s: Seq<UnitigIndex>, u: UnitigIndex)
    ensures
        entries_bytes(s.push(u)) == entries_bytes(s) + index_bytes(u),
    decreases s.len(),
{
    reveal_with_fuel(entries_bytes, 3);
    if s.len() == 0 {
        assert(s.push(u).skip(1) =~= Seq::<UnitigIndex>::empty());
        assert(s.push(u)[0] == u);
        assert(entries_bytes(s.push(u)) =~= entries_bytes(s) + index_bytes(u));
    } else {
        lemma_entries_bytes_snoc(s.skip(1), u);
        assert(s.push(u).skip(1) =~= s.skip(1).push(u));
        assert(s.push(u)[0] == s[0]);
        assert(entries_bytes(s.push(u)) == index_bytes(s[0]) + entries_bytes(s.skip(1).push(u)));
        assert(entries_bytes(s.push(u)) =~= entries_bytes(s) + index_bytes(u));
    }
}

} // verus!
