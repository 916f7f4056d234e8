//! Hash sorting: turns the hash-entry buckets into the initial link
//! buckets. Entries are sorted by hash; a group of exactly two entries
//! with opposite directions is one discovered edge, and yields one
//! non-empty link (owning a pointer to the partner) and one empty
//! placeholder link, one routed to each endpoint's bucket. Dangling
//! entries (group of one) and branching or palindromic groups (more than
//! two, or equal directions) are dropped: by design both of their sides
//! become terminal elsewhere.

use vstd::prelude::*;
use crate::fast_rand_bool::FastRandBool;
use crate::hash_entry::{Direction, HashEntry};
use crate::pipeline::Pipeline;
use crate::sort::{SortKey, key_sort, sorted_by_key};
use crate::unitig_link::{UnitigFlags, UnitigIndex, UnitigLink};
use crate::vec_slice::VecSlice;

verus! {

/// Sort key of a hash entry: its hash.
pub struct HashCompare {}

impl SortKey<HashEntry> for HashCompare {
    open spec fn spec_key(v: HashEntry) -> u64 {
        v.hash
    }

    fn get(value: &HashEntry) -> (r: u64) {
        value.hash
    }
}

/// Position `i` of `s` starts a group of exactly two entries that share a
/// hash and look across the boundary from opposite directions: one edge.
pub open spec fn is_matched_pair(s: Seq<HashEntry>, i: int) -> bool {
    &&& 0 <= i
    &&& i + 1 < s.len()
    &&& s[i].hash == s[i + 1].hash
    &&& (i == 0 || s[i - 1].hash != s[i].hash)
    &&& (i + 2 == s.len() || s[i + 2].hash != s[i].hash)
    &&& s[i].direction != s[i + 1].direction
}

/// How many matched pairs start before position `upto`.
pub open spec fn count_matched(s: Seq<HashEntry>, upto: int) -> int
    decreases upto,
{
    if upto <= 0 {
        0
    } else {
        count_matched(s, upto - 1) + if is_matched_pair(s, upto - 1) {
            1int
        } else {
            0int
        }
    }
}

/// The forward-side entry of the pair starting at `i`.
pub open spec fn pair_fw(s: Seq<HashEntry>, i: int) -> HashEntry {
    if s[i].direction == Direction::Forward {
        s[i]
    } else {
        s[i + 1]
    }
}

/// The backward-side entry of the pair starting at `i`.
pub open spec fn pair_bw(s: Seq<HashEntry>, i: int) -> HashEntry {
    if s[i].direction == Direction::Forward {
        s[i + 1]
    } else {
        s[i]
    }
}

/// The two links emitted for the matched pair starting at `i` stand at
/// output positions `2t` and `2t + 1` (with `t` the pair's rank): the
/// forward link first, each link routed to its own endpoint's bucket, and
/// exactly one of the two carrying the pointer to the partner endpoint.
pub open spec fn pair_emitted(
    s: Seq<HashEntry>,
    i: int,
    links: Seq<(u32, UnitigLink)>,
    storage: Seq<UnitigIndex>,
) -> bool {
    let t = count_matched(s, i);
    let fw = pair_fw(s, i);
    let bw = pair_bw(s, i);
    &&& 2 * t + 1 < links.len()
    &&& links[2 * t].0 == fw.bucket
    &&& links[2 * t].1.entry == fw.entry as u64
    &&& links[2 * t].1.flags == (UnitigFlags {
        is_forward: true,
        begin_sealed: false,
        end_sealed: false,
    })
    &&& links[2 * t + 1].0 == bw.bucket
    &&& links[2 * t + 1].1.entry == bw.entry as u64
    &&& links[2 * t + 1].1.flags == (UnitigFlags {
        is_forward: false,
        begin_sealed: false,
        end_sealed: false,
    })
    &&& links[2 * t].1.entries.wf_in(storage)
    &&& links[2 * t + 1].1.entries.wf_in(storage)
    &&& {
        ||| {
            &&& links[2 * t].1.entries.view_in(storage) == seq![
                UnitigIndex { bucket: bw.bucket, index: bw.entry },
            ]
            &&& links[2 * t + 1].1.entries.len == 0
        }
        ||| {
            &&& links[2 * t].1.entries.len == 0
            &&& links[2 * t + 1].1.entries.view_in(storage) == seq![
                UnitigIndex { bucket: fw.bucket, index: fw.entry },
            ]
        }
    }
}

/// The links and shared entry storage produced from one hash-entry bucket.
pub struct HashesSortingOutput {
    /// The bucket's entries after sorting by hash.
    pub sorted: Vec<HashEntry>,
    /// Emitted links, each tagged with its destination bucket.
    pub links: Vec<(u32, UnitigLink)>,
    /// Storage the links' entry lists point into.
    pub unitigs_vec: Vec<UnitigIndex>,
}

impl Pipeline {
    /// Transforms one hash-entry bucket into initial links: sorts by hash,
    /// then emits one link pair per matched group of two opposite-direction
    /// entries. Which side of a pair owns the partner pointer is a fair
    /// coin flip; everything else is exact.
    pub fn hashes_sorting(vec: Vec<HashEntry>, rand_bool: &mut FastRandBool) -> (out: HashesSortingOutput)
        ensures
            out.sorted@.to_multiset() == vec@.to_multiset(),
            sorted_by_key::<HashEntry, HashCompare>(out.sorted@),
            out.links@.len() == 2 * count_matched(out.sorted@, out.sorted@.len() as int),
            forall|i: int|
                #[trigger] is_matched_pair(out.sorted@, i) ==> pair_emitted(
                    out.sorted@,
                    i,
                    out.links@,
                    out.unitigs_vec@,
                ),
    {
        let mut vec = vec;
        key_sort::<HashEntry, HashCompare>(&mut vec);
        let n = vec.len();
        let mut links: Vec<(u32, UnitigLink)> = Vec::new();
        let mut unitigs_vec: Vec<UnitigIndex> = Vec::new();
        let mut i: usize = 0;
        while i < n
            invariant
                i <= n,
                n == vec@.len(),
                sorted_by_key::<HashEntry, HashCompare>(vec@),
                links@.len() == 2 * count_matched(vec@, i as int),
                forall|p: int|
                    0 <= p < i && #[trigger] is_matched_pair(vec@, p) ==> pair_emitted(
                        vec@,
                        p,
                        links@,
                        unitigs_vec@,
                    ),
            decreases n - i,
        {
            let ghost pre_links = links@;
            let ghost pre_storage = unitigs_vec@;
            let h = vec[i].hash;
            let at_group_start = i == 0 || vec[i - 1].hash != h;
            let has_second = i + 1 < n && vec[i + 1].hash == h;
            let group_of_two = has_second && (i + 2 == n || vec[i + 2].hash != h);
            let opposite = has_second && vec[i].direction != vec[i + 1].direction;
            if at_group_start && group_of_two && opposite {
                let (fw, bw) = match vec[i].direction {
                    Direction::Forward => (vec[i], vec[i + 1]),
                    Direction::Backward => (vec[i + 1], vec[i]),
                };
                let (slice_fw, slice_bw) = if rand_bool.get_randbool() {
                    unitigs_vec.push(UnitigIndex { bucket: bw.bucket, index: bw.entry });
                    (VecSlice { pos: unitigs_vec.len() - 1, len: 1 }, VecSlice { pos: 0, len: 0 })
                } else {
                    unitigs_vec.push(UnitigIndex { bucket: fw.bucket, index: fw.entry });
                    (VecSlice { pos: 0, len: 0 }, VecSlice { pos: unitigs_vec.len() - 1, len: 1 })
                };
                let la = (
                    fw.bucket,
                    UnitigLink {
                        entry: fw.entry as u64,
                        flags: UnitigFlags::new_direction(true),
                        entries: slice_fw,
                    },
                );
                let lb = (
                    bw.bucket,
                    UnitigLink {
                        entry: bw.entry as u64,
                        flags: UnitigFlags::new_direction(false),
                        entries: slice_bw,
                    },
                );
                links.push(la);
                links.push(lb);
                proof {
                    assert(is_matched_pair(vec@, i as int));
                    assert(links@ =~= pre_links.push(la).push(lb));
                    assert(forall|q: int| 0 <= q < pre_links.len() ==> links@[q] == pre_links[q]);
                    assert(pair_emitted(vec@, i as int, links@, unitigs_vec@)) by {
                        let t = count_matched(vec@, i as int);
                        assert(2 * t == pre_links.len());
                        assert(links@[2 * t] == la);
                        assert(links@[2 * t + 1] == lb);
                        if slice_fw.len == 1 {
                            assert(slice_fw.view_in(unitigs_vec@) =~= seq![
                                UnitigIndex { bucket: bw.bucket, index: bw.entry },
                            ]);
                        } else {
                            assert(slice_bw.view_in(unitigs_vec@) =~= seq![
                                UnitigIndex { bucket: fw.bucket, index: fw.entry },
                            ]);
                        }
                    }
                }
            } else {
                proof {
                    assert(!is_matched_pair(vec@, i as int));
                }
            }
            proof {
                // earlier pairs keep their meaning: links grew at the end and
                // storage only grew, so earlier slices select the same run
                assert forall|p: int|
                    0 <= p < i + 1 && #[trigger] is_matched_pair(vec@, p) implies pair_emitted(
                    vec@,
                    p,
                    links@,
                    unitigs_vec@,
                ) by {
                    if p < i {
                        assert(pair_emitted(vec@, p, pre_links, pre_storage));
                        let t = count_matched(vec@, p);
                        lemma_count_matched_mono(vec@, 0, p);
                        lemma_count_matched_mono(vec@, p + 1, i as int);
                        assert(count_matched(vec@, p + 1) == t + 1);
                        assert(2 * t + 1 < pre_links.len());
                        assert(forall|q: int| 0 <= q < pre_links.len() ==> links@[q] == pre_links[q]);
                        assert(forall|q: int|
                            0 <= q < pre_storage.len() ==> unitigs_vec@[q] == pre_storage[q]);
                        assert(links@[2 * t] == pre_links[2 * t]);
                        assert(links@[2 * t + 1] == pre_links[2 * t + 1]);
                        assert(pre_links[2 * t].1.entries.view_in(unitigs_vec@)
                            =~= pre_links[2 * t].1.entries.view_in(pre_storage));
                        assert(pre_links[2 * t + 1].1.entries.view_in(unitigs_vec@)
                            =~= pre_links[2 * t + 1].1.entries.view_in(pre_storage));
                    }
                }
                assert(count_matched(vec@, i + 1) == count_matched(vec@, i as int)
                    + if is_matched_pair(vec@, i as int) { 1int } else { 0int });
            }
            i = i + 1;
        }
        HashesSortingOutput { sorted: vec, links, unitigs_vec }
    }
}

/// Pair rank never decreases as the scan position advances.
proof fn lemma_count_matched_mono(s: Seq<HashEntry>, a: int, b: int)
    requires
        a <= b,
    ensures
        count_matched(s, a) <= count_matched(s, b),
    decreases b - a,
{
    if a < b {
        lemma_count_matched_mono(s, a, b - 1);
    }
}

/// Edge symmetry at the link level: the pair of links emitted for one
/// matched group names the two endpoints of one edge — the forward link
/// and the backward link point at each other's bucket and entry, and
/// exactly one of them owns the edge payload.
pub proof fn lemma_edge_symmetry(
    s: Seq<HashEntry>,
    i: int,
    links: Seq<(u32, UnitigLink)>,
    storage: Seq<UnitigIndex>,
)
    requires
        is_matched_pair(s, i),
        pair_emitted(s, i, links, storage),
    ensures
        ({
            let t = count_matched(s, i);
            let fwl = links[2 * t];
            let bwl = links[2 * t + 1];
            &&& fwl.1.flags.is_forward != bwl.1.flags.is_forward
            &&& fwl.1.entries.len + bwl.1.entries.len == 1
            &&& (fwl.1.entries.len == 1 ==> fwl.1.entries.view_in(storage) == seq![
                UnitigIndex { bucket: bwl.0, index: bwl.1.entry as u32 },
            ])
            &&& (bwl.1.entries.len == 1 ==> bwl.1.entries.view_in(storage) == seq![
                UnitigIndex { bucket: fwl.0, index: fwl.1.entry as u32 },
            ])
        }),
{
    let t = count_matched(s, i);
    let fw = pair_fw(s, i);
    let bw = pair_bw(s, i);
    let fwl = links[2 * t];
    let bwl = links[2 * t + 1];
    assert(fwl.1.entries.view_in(storage).len() == fwl.1.entries.len);
    assert(bwl.1.entries.view_in(storage).len() == bwl.1.entries.len);
    if fwl.1.entries.view_in(storage) == seq![UnitigIndex { bucket: bw.bucket, index: bw.entry }]
        && bwl.1.entries.len == 0 {
        assert(fwl.1.entries.len == 1);
    } else {
        assert(bwl.1.entries.len == 1);
    }
}


} // verus!
