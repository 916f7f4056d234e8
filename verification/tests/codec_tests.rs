use unitig_pipeline::varint::{decode_varint, encode_varint};
use unitig_pipeline::hash_entry::{Direction, HashEntry};
use unitig_pipeline::unitig_link::{UnitigFlags, UnitigIndex, UnitigLink};
use unitig_pipeline::links_compaction::LinkMapping;
use unitig_pipeline::extra_data::SequenceExtraData;
use unitig_pipeline::vec_slice::VecSlice;

#[test]
fn varint_round_trip_small() {
    let mut out: Vec<u8> = Vec::new();
    encode_varint(&mut out, 0);
    encode_varint(&mut out, 127);
    encode_varint(&mut out, 128);
    encode_varint(&mut out, 300);
    encode_varint(&mut out, u64::MAX);
    let (v0, p0) = decode_varint(&out, 0).unwrap();
    assert_eq!(v0, 0);
    let (v1, p1) = decode_varint(&out, p0).unwrap();
    assert_eq!(v1, 127);
    let (v2, p2) = decode_varint(&out, p1).unwrap();
    assert_eq!(v2, 128);
    let (v3, p3) = decode_varint(&out, p2).unwrap();
    assert_eq!(v3, 300);
    let (v4, p4) = decode_varint(&out, p3).unwrap();
    assert_eq!(v4, u64::MAX);
    assert_eq!(p4, out.len());
}

#[test]
fn varint_expected_bytes() {
    let mut out: Vec<u8> = Vec::new();
    encode_varint(&mut out, 300);
    // 300 = 0b100101100: low 7 bits 0101100 with continuation, then 10
    assert_eq!(out, vec![0xAC, 0x02]);
}

#[test]
fn varint_truncated_input() {
    let data = vec![0x80u8];
    assert!(decode_varint(&data, 0).is_none());
}

#[test]
fn hash_entry_round_trip() {
    let e = HashEntry { hash: 0xDEAD_BEEF_0012_3456, bucket: 7, entry: 619, direction: Direction::Backward };
    let mut out: Vec<u8> = Vec::new();
    e.write_to(&mut out);
    let (d, end) = HashEntry::read_from(&out, 0).unwrap();
    assert_eq!(end, out.len());
    assert_eq!(d, e);
}

#[test]
fn hash_entry_forward_round_trip() {
    let e = HashEntry { hash: 1, bucket: 0, entry: 0, direction: Direction::Forward };
    let mut out: Vec<u8> = Vec::new();
    e.write_to(&mut out);
    let (d, _) = HashEntry::read_from(&out, 0).unwrap();
    assert_eq!(d, e);
}

#[test]
fn unitig_link_round_trip_with_last_data() {
    let mut storage = vec![
        UnitigIndex { bucket: 1, index: 10 },
        UnitigIndex { bucket: 2, index: 20 },
        UnitigIndex { bucket: 3, index: 30 },
    ];
    let link = UnitigLink {
        entry: 1_000_000,
        flags: UnitigFlags { is_forward: true, begin_sealed: false, end_sealed: true },
        entries: VecSlice { pos: 1, len: 2 },
    };
    let mut out: Vec<u8> = Vec::new();
    let last = link.write_to(&storage, &mut out, 999_000);
    assert_eq!(last, 1_000_000);

    let mut decoded_storage: Vec<UnitigIndex> = Vec::new();
    let (d, end, newlast) = UnitigLink::read_from(&out, 0, &mut decoded_storage, 999_000).unwrap();
    assert_eq!(end, out.len());
    assert_eq!(newlast, 1_000_000);
    assert_eq!(d.entry, 1_000_000);
    assert_eq!(d.flags, link.flags);
    assert_eq!(d.entries.len, 2);
    assert_eq!(decoded_storage, vec![storage.remove(1), storage.remove(1)]);
}

#[test]
fn unitig_link_round_trip_wrapping_delta() {
    // the entry is smaller than the previous record's: the delta wraps
    let storage: Vec<UnitigIndex> = Vec::new();
    let link = UnitigLink {
        entry: 5,
        flags: UnitigFlags { is_forward: false, begin_sealed: true, end_sealed: false },
        entries: VecSlice { pos: 0, len: 0 },
    };
    let mut out: Vec<u8> = Vec::new();
    link.write_to(&storage, &mut out, u64::MAX - 2);
    let mut ds: Vec<UnitigIndex> = Vec::new();
    let (d, _, _) = UnitigLink::read_from(&out, 0, &mut ds, u64::MAX - 2).unwrap();
    assert_eq!(d.entry, 5);
    assert_eq!(d.flags, link.flags);
    assert_eq!(d.entries.len, 0);
}

#[test]
fn link_mapping_round_trip() {
    let m = LinkMapping { bucket: 42, entry: 619_802 };
    let mut out: Vec<u8> = Vec::new();
    m.write_to(&mut out);
    let (d, end) = LinkMapping::from_stream(&out, 0).unwrap();
    assert_eq!(end, out.len());
    assert_eq!(d, m);
}

#[test]
fn link_mapping_empty_stream() {
    let data: Vec<u8> = Vec::new();
    assert!(LinkMapping::from_stream(&data, 0).is_none());
}

#[test]
fn extra_data_round_trip_consecutive() {
    // two records compressed against each other's color
    let a = SequenceExtraData { index: 3, color: 1000, link_flags: 5 };
    let b = SequenceExtraData { index: 4, color: 900, link_flags: 0 };
    let mut out: Vec<u8> = Vec::new();
    let last1 = a.encode_extended(&mut out, 0);
    let last2 = b.encode_extended(&mut out, last1);
    assert_eq!(last1, 1000);
    assert_eq!(last2, 900);

    let (da, p1, l1) = SequenceExtraData::decode_extended(&out, 0, 0).unwrap();
    assert_eq!(da, a);
    let (db, p2, _) = SequenceExtraData::decode_extended(&out, p1, l1).unwrap();
    assert_eq!(db, b);
    assert_eq!(p2, out.len());
    assert!(a.max_size() + b.max_size() >= out.len());
    assert_eq!(a.obtain_last_data(), 1000);
}

#[test]
fn flags_combine_and_reverse() {
    let a = UnitigFlags { is_forward: true, begin_sealed: false, end_sealed: true };
    let b = UnitigFlags { is_forward: false, begin_sealed: false, end_sealed: false };
    let c = UnitigFlags::combine(a, b);
    assert_eq!(c, UnitigFlags { is_forward: true, begin_sealed: false, end_sealed: true });
    let r = c.reversed();
    assert_eq!(r, UnitigFlags { is_forward: false, begin_sealed: true, end_sealed: false });
    let mut s = UnitigFlags::new_direction(false);
    s.seal_beginning();
    assert_eq!(s, UnitigFlags { is_forward: false, begin_sealed: true, end_sealed: false });
    assert_eq!(UnitigFlags::new_empty(), UnitigFlags { is_forward: false, begin_sealed: false, end_sealed: false });
}

#[test]
fn vec_slice_views() {
    let mut storage: Vec<u32> = vec![1, 2];
    let src = vec![7u32, 8, 9];
    let sl = VecSlice::new_extend(&mut storage, &src);
    assert_eq!(sl.pos, 2);
    assert_eq!(sl.len, 3);
    assert_eq!(sl.get(&storage, 0), 7);
    assert_eq!(sl.get(&storage, 2), 9);
    assert_eq!(sl.slice_len(), 3);
    let e = VecSlice::new_empty();
    assert_eq!(e.len, 0);
}
