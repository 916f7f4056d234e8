use unitig_pipeline::fast_rand_bool::FastRandBool;
use unitig_pipeline::hash_entry::{Direction, HashEntry};
use unitig_pipeline::links_compaction::{CompactionError, LinkMapping};
use unitig_pipeline::pipeline::Pipeline;
use unitig_pipeline::unitig_link::{UnitigFlags, UnitigIndex, UnitigLink};
use unitig_pipeline::vec_slice::VecSlice;

fn entry(hash: u64, bucket: u32, e: u32, d: Direction) -> HashEntry {
    HashEntry { hash, bucket, entry: e, direction: d }
}

#[test]
fn hashes_sorting_pairs_one_edge() {
    // one matched pair, one dangling entry, one same-direction pair
    let vec = vec![
        entry(50, 3, 9, Direction::Backward),
        entry(10, 1, 4, Direction::Forward),
        entry(10, 2, 5, Direction::Backward),
        entry(30, 6, 6, Direction::Forward),
        entry(30, 7, 7, Direction::Forward),
    ];
    let mut coins = FastRandBool::new();
    let out = Pipeline::hashes_sorting(vec, &mut coins);
    // only the hash-10 pair yields links: one forward, one backward
    assert_eq!(out.links.len(), 2);
    let (fwb, fwl) = out.links[0];
    let (bwb, bwl) = out.links[1];
    assert_eq!(fwb, 1);
    assert_eq!(fwl.entry, 4);
    assert!(fwl.flags.is_forward);
    assert_eq!(bwb, 2);
    assert_eq!(bwl.entry, 5);
    assert!(!bwl.flags.is_forward);
    // exactly one side owns the payload, pointing at the partner
    let total = fwl.entries.len + bwl.entries.len;
    assert_eq!(total, 1);
    if fwl.entries.len == 1 {
        assert_eq!(fwl.entries.get(&out.unitigs_vec, 0), UnitigIndex { bucket: 2, index: 5 });
    } else {
        assert_eq!(bwl.entries.get(&out.unitigs_vec, 0), UnitigIndex { bucket: 1, index: 4 });
    }
}

#[test]
fn hashes_sorting_groups_of_three_dropped() {
    let vec = vec![
        entry(9, 1, 1, Direction::Forward),
        entry(9, 2, 2, Direction::Backward),
        entry(9, 3, 3, Direction::Forward),
    ];
    let mut coins = FastRandBool::new();
    let out = Pipeline::hashes_sorting(vec, &mut coins);
    assert_eq!(out.links.len(), 0);
}

fn payload_link(e: u64, fw: bool, end_sealed: bool, storage: &mut Vec<UnitigIndex>, path: &[UnitigIndex]) -> UnitigLink {
    let pos = storage.len();
    storage.extend_from_slice(path);
    UnitigLink {
        entry: e,
        flags: UnitigFlags { is_forward: fw, begin_sealed: false, end_sealed },
        entries: VecSlice { pos, len: path.len() },
    }
}

#[test]
fn links_compaction_fuses_a_pair() {
    let mut storage: Vec<UnitigIndex> = Vec::new();
    let a = payload_link(100, true, false, &mut storage, &[UnitigIndex { bucket: 5, index: 50 }]);
    let b = payload_link(100, false, false, &mut storage, &[UnitigIndex { bucket: 6, index: 60 }]);
    let mut coins = FastRandBool::new();
    let out = Pipeline::links_compaction(&vec![a, b], &storage, 2, &mut coins).unwrap();
    assert_eq!(out.rem_links, 1);
    assert_eq!(out.links.len(), 2);
    assert_eq!(out.final_links.len(), 0);
    assert_eq!(out.dropped, 0);
    // the fused path runs through the group's own entry in this bucket
    let main = &out.links[0].1;
    let placeholder = &out.links[1].1;
    assert_eq!(main.entries.len, 2);
    assert_eq!(placeholder.entries.len, 0);
    let mid = main.entries.get(&out.unitigs_vec, 0);
    assert_eq!(mid, UnitigIndex { bucket: 2, index: 100 });
}

#[test]
fn links_compaction_seals_and_finishes() {
    // a lonely link whose other end is already sealed: a finished unitig
    let mut storage: Vec<UnitigIndex> = Vec::new();
    let path = [UnitigIndex { bucket: 1, index: 11 }, UnitigIndex { bucket: 2, index: 22 }];
    let a = payload_link(7, true, true, &mut storage, &path);
    let mut coins = FastRandBool::new();
    let out = Pipeline::links_compaction(&vec![a], &storage, 0, &mut coins).unwrap();
    assert_eq!(out.rem_links, 0);
    assert_eq!(out.links.len(), 0);
    assert_eq!(out.final_links.len(), 1);
    let f = &out.final_links[0];
    assert_eq!(f.entry, 7);
    assert!(f.flags.begin_sealed && f.flags.end_sealed);
    // one mapping for the entry itself, one per constituent
    assert_eq!(out.mappings.len(), 3);
    assert_eq!(out.mappings[0], (0, LinkMapping { entry: 7, bucket: 0 }));
    assert_eq!(out.mappings[1], (1, LinkMapping { entry: 11, bucket: 0 }));
    assert_eq!(out.mappings[2], (2, LinkMapping { entry: 22, bucket: 0 }));
}

#[test]
fn links_compaction_detects_circular() {
    // the path's last entry equals the group's own (bucket, entry)
    let mut storage: Vec<UnitigIndex> = Vec::new();
    let path = [UnitigIndex { bucket: 9, index: 90 }, UnitigIndex { bucket: 4, index: 40 }];
    let a = payload_link(40, true, false, &mut storage, &path);
    let mut coins = FastRandBool::new();
    let out = Pipeline::links_compaction(&vec![a], &storage, 4, &mut coins).unwrap();
    assert_eq!(out.rem_links, 0);
    assert_eq!(out.final_links.len(), 1);
    // a circular unitig emits mappings for constituents only
    assert_eq!(out.mappings.len(), 2);
}

#[test]
fn links_compaction_drops_placeholders() {
    let storage: Vec<UnitigIndex> = Vec::new();
    let empty = UnitigLink {
        entry: 3,
        flags: UnitigFlags::new_empty(),
        entries: VecSlice { pos: 0, len: 0 },
    };
    let mut coins = FastRandBool::new();
    let out = Pipeline::links_compaction(&vec![empty], &storage, 0, &mut coins).unwrap();
    assert_eq!(out.rem_links, 0);
    assert_eq!(out.dropped, 1);
    assert_eq!(out.links.len(), 0);
    assert_eq!(out.final_links.len(), 0);
}

#[test]
fn links_compaction_same_direction_is_an_error() {
    let mut storage: Vec<UnitigIndex> = Vec::new();
    let a = payload_link(8, true, false, &mut storage, &[UnitigIndex { bucket: 1, index: 1 }]);
    let b = payload_link(8, true, false, &mut storage, &[UnitigIndex { bucket: 2, index: 2 }]);
    let mut coins = FastRandBool::new();
    let r = Pipeline::links_compaction(&vec![a, b], &storage, 0, &mut coins);
    assert_eq!(r.unwrap_err(), CompactionError::SameDirection);
}

#[test]
fn links_compaction_sealed_begin_is_an_error() {
    let mut storage: Vec<UnitigIndex> = Vec::new();
    let mut a = payload_link(8, true, false, &mut storage, &[UnitigIndex { bucket: 1, index: 1 }]);
    a.flags.begin_sealed = true;
    let b = payload_link(8, false, false, &mut storage, &[UnitigIndex { bucket: 2, index: 2 }]);
    let mut coins = FastRandBool::new();
    let r = Pipeline::links_compaction(&vec![a, b], &storage, 0, &mut coins);
    assert_eq!(r.unwrap_err(), CompactionError::SealedBegin);
}

#[test]
fn links_compaction_self_link_is_an_error() {
    // a lonely open link whose single path entry names its own rebuilt
    // endpoint without closing a circle is the asserted bug shape
    let mut storage: Vec<UnitigIndex> = Vec::new();
    let a = payload_link(
        5,
        true,
        true,
        &mut storage,
        &[UnitigIndex { bucket: 3, index: 33 }, UnitigIndex { bucket: 3, index: 33 }],
    );
    // end_sealed with two equal constituents: first != (bucket_index, 5),
    // so it is not circular; the kept link then points at itself
    let mut coins = FastRandBool::new();
    let r = Pipeline::links_compaction(&vec![a], &storage, 3, &mut coins);
    // with both ends sealed this is finished instead; rebuild with an open end
    assert!(r.is_ok());
    let mut storage2: Vec<UnitigIndex> = Vec::new();
    let b = payload_link(
        33,
        true,
        false,
        &mut storage2,
        &[UnitigIndex { bucket: 9, index: 1 }, UnitigIndex { bucket: 9, index: 1 }],
    );
    let r2 = Pipeline::links_compaction(&vec![b], &storage2, 3, &mut coins);
    assert_eq!(r2.unwrap_err(), CompactionError::SelfLinkNotCircular);
}

#[test]
fn links_compaction_fixed_point_is_stable() {
    // one full round that leaves no remaining links, fed back in
    let mut storage: Vec<UnitigIndex> = Vec::new();
    let path = [UnitigIndex { bucket: 1, index: 11 }];
    let a = payload_link(7, true, true, &mut storage, &path);
    let mut coins = FastRandBool::new();
    let out = Pipeline::links_compaction(&vec![a], &storage, 0, &mut coins).unwrap();
    assert_eq!(out.rem_links, 0);
    assert_eq!(out.links.len(), 0);
    // the next iteration starts from the emitted links: an empty bucket
    let next_links: Vec<UnitigLink> = out.links.iter().map(|p| p.1).collect();
    let out2 = Pipeline::links_compaction(&next_links, &out.unitigs_vec, 0, &mut coins).unwrap();
    assert_eq!(out2.rem_links, 0);
    assert_eq!(out2.links.len(), 0);
    assert_eq!(out2.final_links.len(), 0);
}

#[test]
fn cut_n_splits_and_filters() {
    let read = b"ACGTNNGGTTNAA".to_vec();
    let out = Pipeline::cut_n(&read, 2);
    assert_eq!(out.len(), 3);
    assert_eq!(out[0], b"ACGT".to_vec());
    assert_eq!(out[1], b"GGTT".to_vec());
    assert_eq!(out[2], b"AA".to_vec());
    let out3 = Pipeline::cut_n(&read, 3);
    assert_eq!(out3.len(), 2);
    assert_eq!(out3[0], b"ACGT".to_vec());
    assert_eq!(out3[1], b"GGTT".to_vec());
}

#[test]
fn cut_n_no_separator() {
    let read = b"ACGT".to_vec();
    let out = Pipeline::cut_n(&read, 4);
    assert_eq!(out, vec![b"ACGT".to_vec()]);
    let out2 = Pipeline::cut_n(&read, 5);
    assert!(out2.is_empty());
}

#[test]
fn cut_n_empty_read() {
    let read: Vec<u8> = Vec::new();
    let out = Pipeline::cut_n(&read, 1);
    assert!(out.is_empty());
}

#[test]
fn bloom_filter_counts_duplicates() {
    // the same read twice: the second pass hits every cell again
    let reads = vec![b"ACGTACGTAA".to_vec(), b"ACGTACGTAA".to_vec()];
    let k = 10usize;
    let (filter, dups) = Pipeline::bloom_filter(&reads, k, 1024);
    assert_eq!(filter.len(), 1024);
    // one window per read, identical: exactly one duplicate
    assert_eq!(dups, 1);
}

#[test]
fn bloom_filter_is_strand_neutral() {
    // the canonical window hash folds strands: a window and its reverse
    // complement hit the same cell, so the second read is all duplicates
    let w = b"ACGGCTTAGC".to_vec();
    let rc: Vec<u8> = w
        .iter()
        .rev()
        .map(|b| match b {
            b'A' => b'T',
            b'T' => b'A',
            b'C' => b'G',
            _ => b'C',
        })
        .collect();
    let (_, dups) = Pipeline::bloom_filter(&vec![w, rc], 10, 1 << 20);
    assert_eq!(dups, 1);
}

#[test]
fn bloom_filter_short_reads_contribute_nothing() {
    let reads = vec![b"ACG".to_vec()];
    let (_, dups) = Pipeline::bloom_filter(&reads, 10, 16);
    assert_eq!(dups, 0);
}

#[test]
fn minimizer_bucket_is_strand_neutral() {
    // bucket closure: a read and its reverse complement pick one bucket
    let read = b"ACGGCTTAGCAATTGGCCATG".to_vec();
    let rc: Vec<u8> = read
        .iter()
        .rev()
        .map(|b| match b {
            b'A' => b'T',
            b'T' => b'A',
            b'C' => b'G',
            _ => b'C',
        })
        .collect();
    let k = 9usize;
    let a = Pipeline::compute_chosen_bucket(&read, k, 64);
    let b = Pipeline::compute_chosen_bucket(&rc, k, 64);
    match (a, b) {
        (Some((b1, _)), Some((b2, _))) => assert_eq!(b1, b2),
        (None, None) => {},
        _ => panic!("strand changed the bucket"),
    }
}

#[test]
fn make_buckets_assigns_every_read() {
    let reads = vec![b"ACGGCTTAGCAATTGGCCATG".to_vec(), b"TTTTTTTTTTTT".to_vec()];
    let r = Pipeline::make_buckets(&reads, 9, 16);
    assert_eq!(r.len(), 2);
    for (ri, choice) in r.iter().enumerate() {
        if let Some((b, pos)) = choice {
            assert!(*b < 16);
            assert!(pos + 9 <= reads[ri].len());
        }
    }
}

#[test]
fn save_minimals_returns_windows() {
    let reads = vec![b"ACGGCTTAGCAATTGGCCATG".to_vec()];
    let r = Pipeline::save_minimals(&reads, 9);
    assert_eq!(r.len(), 1);
    if let Some(w) = &r[0] {
        assert_eq!(w.len(), 9);
        assert!(reads[0].windows(9).any(|win| win == w.as_slice()));
    }
}
