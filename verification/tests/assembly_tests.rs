use unitig_pipeline::assemble::{encode_kmer, rc_window};
use unitig_pipeline::build_unitigs::stitch_sequences;
use unitig_pipeline::pipeline::Pipeline;

fn revcomp(read: &[u8]) -> Vec<u8> {
    read.iter()
        .rev()
        .map(|b| match b {
            b'A' => b'T',
            b'T' => b'A',
            b'C' => b'G',
            _ => b'C',
        })
        .collect()
}

/// A deterministic pseudo-random base string without short repeats.
fn random_read(len: usize, seed: u64) -> Vec<u8> {
    let mut state = seed;
    let mut out = Vec::with_capacity(len);
    for _ in 0..len {
        state = state.wrapping_mul(6364136223846793005).wrapping_add(1442695040888963407);
        out.push(match (state >> 33) % 4 {
            0 => b'A',
            1 => b'C',
            2 => b'G',
            _ => b'T',
        });
    }
    out
}

#[test]
fn single_read_gives_one_full_length_unitig() {
    // one clean 100 bp read: one unitig covering it whole
    let read = random_read(100, 7);
    let reads = vec![read.clone()];
    let (unitigs, set) = Pipeline::assemble_unitigs(&reads, 21, 1, true);
    assert_eq!(unitigs.len(), 1);
    assert_eq!(unitigs[0].seq.len(), 100);
    assert!(!unitigs[0].circular);
    assert!(unitigs[0].seq == read || unitigs[0].seq == revcomp(&read));
    // conservation: lengths minus overlaps count the distinct k-mers
    assert_eq!(set.kmers.len(), 100 - 21 + 1);
}

#[test]
fn overlapping_reads_merge_into_one_unitig() {
    // two 50 bp reads sharing a perfect 40 bp overlap: one 60 bp unitig
    let genome = random_read(60, 11);
    let r1 = genome[0..50].to_vec();
    let r2 = genome[10..60].to_vec();
    let reads = vec![r1, r2];
    let (unitigs, set) = Pipeline::assemble_unitigs(&reads, 21, 1, true);
    assert_eq!(unitigs.len(), 1);
    assert_eq!(unitigs[0].seq.len(), 60);
    assert!(unitigs[0].seq == genome || unitigs[0].seq == revcomp(&genome));
    assert_eq!(set.kmers.len(), 60 - 21 + 1);
}

#[test]
fn three_branch_stops_at_the_branching_vertex() {
    // three reads meeting at one k-mer: three unitigs, none crossing it
    let k = 5usize;
    let r1 = b"TTCTCCATG".to_vec();
    let r2 = b"CCATGAAGA".to_vec();
    let r3 = b"CCATGTCTT".to_vec();
    let reads = vec![r1.clone(), r2.clone(), r3.clone()];
    let (unitigs, _) = Pipeline::assemble_unitigs(&reads, k, 1, false);
    assert_eq!(unitigs.len(), 3);
    let mut seqs: Vec<Vec<u8>> = unitigs.iter().map(|u| u.seq.clone()).collect();
    seqs.sort();
    assert_eq!(seqs, vec![b"CATGAAGA".to_vec(), b"CATGTCTT".to_vec(), b"TTCTCCATG".to_vec()]);
    for u in &unitigs {
        assert!(!u.circular);
        // no unitig crosses the branch: the two diverging k-mers never
        // share a unitig
        let has_a = u.seq.windows(k).any(|x| x == b"CATGA");
        let has_t = u.seq.windows(k).any(|x| x == b"CATGT");
        assert!(!(has_a && has_t), "a unitig crossed the branch");
    }
}

#[test]
fn periodic_read_closes_into_a_circular_unitig() {
    // a perfectly periodic read: the graph is one cycle and the walk
    // must close it as circular rather than unroll it as a linear repeat
    let read: Vec<u8> = b"ACGT".iter().cycle().take(40).cloned().collect();
    let reads = vec![read];
    let k = 5usize;
    let (unitigs, set) = Pipeline::assemble_unitigs(&reads, k, 1, false);
    assert_eq!(unitigs.len(), 1);
    assert!(unitigs[0].circular);
    // the cycle holds the four distinct k-mers once each
    assert_eq!(set.kmers.len(), 4);
    assert_eq!(unitigs[0].seq.len(), 4 + k - 1);
}

#[test]
fn reverse_complement_reads_fold_into_one_unitig() {
    // canonical mode: a read and its reverse complement are one unitig
    let read = random_read(100, 23);
    let rc = revcomp(&read);
    let reads = vec![read.clone(), rc];
    let (unitigs, set) = Pipeline::assemble_unitigs(&reads, 21, 1, true);
    assert_eq!(unitigs.len(), 1);
    assert_eq!(unitigs[0].seq.len(), 100);
    assert!(unitigs[0].seq == read || unitigs[0].seq == revcomp(&read));
    assert_eq!(set.kmers.len(), 80);
}

#[test]
fn output_is_independent_of_read_order() {
    // the same dataset split differently produces identical output: the
    // walk depends only on the surviving k-mer set
    let a = random_read(70, 3);
    let b = random_read(70, 5);
    let c = random_read(70, 9);
    let one = vec![a.clone(), b.clone(), c.clone()];
    let two = vec![c, a, b];
    let (u1, _) = Pipeline::assemble_unitigs(&one, 21, 1, true);
    let (u2, _) = Pipeline::assemble_unitigs(&two, 21, 1, true);
    let mut s1: Vec<Vec<u8>> = u1.iter().map(|u| u.seq.clone()).collect();
    let mut s2: Vec<Vec<u8>> = u2.iter().map(|u| u.seq.clone()).collect();
    s1.sort();
    s2.sort();
    assert_eq!(s1, s2);
}

#[test]
fn multiplicity_filter_drops_singletons() {
    // with the default threshold of two, a read seen once vanishes and a
    // read seen twice survives
    let seen_once = random_read(40, 13);
    let seen_twice = random_read(40, 17);
    let reads = vec![seen_once, seen_twice.clone(), seen_twice.clone()];
    let (unitigs, set) = Pipeline::assemble_unitigs(&reads, 21, 2, true);
    assert_eq!(set.kmers.len(), 20);
    assert_eq!(unitigs.len(), 1);
    assert!(unitigs[0].seq == seen_twice || unitigs[0].seq == revcomp(&seen_twice));
}

#[test]
fn conservation_across_many_components() {
    // several disconnected reads: sum of (length - (k-1)) equals the
    // number of distinct surviving k-mers
    let reads = vec![random_read(40, 31), random_read(55, 37), random_read(33, 41)];
    let k = 21usize;
    let (unitigs, set) = Pipeline::assemble_unitigs(&reads, k, 1, true);
    let total: usize = unitigs.iter().map(|u| u.seq.len() - (k - 1)).sum();
    assert_eq!(total, set.kmers.len());
}

#[test]
fn encode_kmer_is_big_endian_two_bit() {
    let seq = b"ACGT".to_vec();
    let v = encode_kmer(&seq, 0, 4);
    // A=0, C=1, G=2, T=3 big-endian: 0b00_01_10_11
    assert_eq!(v, 0b00011011);
}

#[test]
fn rc_window_reverses_and_complements() {
    let seq = b"AACGT".to_vec();
    let rc = rc_window(&seq, 0, 5);
    assert_eq!(rc, b"ACGTT".to_vec());
}

#[test]
fn stitch_overlapping_pieces() {
    let k = 3usize;
    let pieces = vec![b"ACGTA".to_vec(), b"TACCC".to_vec(), b"CCGGG".to_vec()];
    let out = stitch_sequences(&pieces, k);
    assert_eq!(out, b"ACGTACCCGGG".to_vec());
    // conservation through stitching
    let kmers: usize = pieces.iter().map(|p| p.len() - (k - 1)).sum();
    assert_eq!(out.len() - (k - 1), kmers);
}

#[test]
fn stitch_single_piece_is_identity() {
    let pieces = vec![b"ACGT".to_vec()];
    assert_eq!(stitch_sequences(&pieces, 4), b"ACGT".to_vec());
}
