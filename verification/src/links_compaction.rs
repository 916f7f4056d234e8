//! Link compaction: one iteration of the fixed-point loop that rewrites a
//! link bucket. Links are sorted by entry and grouped; a group of two
//! payload links is fused into one longer link, a lonely link gets its
//! begin end sealed (and is finished once both ends are sealed), a circular
//! path is finished as a closed unitig, and placeholder-only groups are
//! dropped. Finished unitigs go to the final bucket together with the
//! result-map records that redirect each constituent partial sequence.

use vstd::prelude::*;
use crate::pipeline::Pipeline;
use crate::unitig_link::{UnitigFlags, UnitigIndex, UnitigLink};
use crate::varint::{varint_bytes, varint_decode, encode_varint, decode_varint};

verus! {

/// A result-map record: the partial sequence known as `entry` in its own
/// bucket now belongs to the final unitig written into `bucket`.
#[derive(Clone, Copy, PartialEq, Eq, Structural, Debug)]
pub struct LinkMapping {
    pub bucket: u64,
    pub entry: u64,
}

/// The bytes of one mapping record: varints of bucket and entry.
pub open spec fn link_mapping_bytes(m: LinkMapping) -> Seq<u8> {
    varint_bytes(m.bucket) + varint_bytes(m.entry)
}

/// What a decoder reads from the front of `s` for one mapping record.
pub open spec fn link_mapping_decode(s: Seq<u8>) -> Option<(LinkMapping, int)> {
    match varint_decode(s) {
        Some((b, n1)) => match varint_decode(s.skip(n1)) {
            Some((e, n2)) => Some((LinkMapping { bucket: b, entry: e }, n1 + n2)),
            None => None,
        },
        None => None,
    }
}

impl LinkMapping {
    /// Deserializes one mapping starting at `pos`; returns the mapping and
    /// the position after it.
    pub fn from_stream(data: &Vec<u8>, pos: usize) -> (r: Option<(LinkMapping, usize)>)
        requires
            pos <= data@.len(),
        ensures
            match r {
                Some((m, end)) => {
                    &&& pos < end <= data@.len()
                    &&& link_mapping_decode(data@.skip(pos as int)) == Some((m, end - pos))
                },
                None => link_mapping_decode(data@.skip(pos as int)) is None,
            },
    {
        let b = match decode_varint(data, pos) {
            Some(v) => v,
            None => {
                return None;
            },
        };
        assert(data@.skip(pos as int).skip(b.1 - pos) =~= data@.skip(b.1 as int));
        let e = match decode_varint(data, b.1) {
            Some(v) => v,
            None => {
                return None;
            },
        };
        Some((LinkMapping { bucket: b.0, entry: e.0 }, e.1))
    }

    /// Serializes the mapping to `out`.
    pub fn write_to(&self, out: &mut Vec<u8>)
        ensures
            final(out)@ == old(out)@ + link_mapping_bytes(*self),
    {
        proof {
            crate::varint::lemma_varint_bytes_len(self.bucket);
            crate::varint::lemma_varint_bytes_len(self.entry);
        }
        encode_varint(out, self.bucket);
        encode_varint(out, self.entry);
        assert(out@ =~= old(out)@ + link_mapping_bytes(*self));
    }
}

/// Round trip: decoding the bytes `write_to` produced yields the mapping
/// that was written, whatever follows it.
pub proof fn lemma_link_mapping_round_trip(m: LinkMapping, rest: Seq<u8>)
    ensures
        link_mapping_decode(link_mapping_bytes(m) + rest) == Some((
            m,
            link_mapping_bytes(m).len() as int,
        )),
{
    let bbytes = varint_bytes(m.bucket);
    let ebytes = varint_bytes(m.entry);
    let s = link_mapping_bytes(m) + rest;
    assert(s =~= bbytes + (ebytes + rest));
    crate::varint::lemma_varint_round_trip(m.bucket, ebytes + rest);
    assert(s.skip(bbytes.len() as int) =~= ebytes + rest);
    crate::varint::lemma_varint_round_trip(m.entry, rest);
}

/// An input shape §invariant violation: these are bugs in the producing
/// phase, reported to the caller so the process can abort with context.
#[derive(Clone, Copy, PartialEq, Eq, Structural, Debug)]
pub enum CompactionError {
    /// Two payload links of one entry share an orientation.
    SameDirection,
    /// A fusible side arrived with its begin end already sealed.
    SealedBegin,
    /// More than two links with payload share an entry.
    AmbiguousGroup,
    /// An entry id does not fit the index width of a sequence pointer.
    EntryRange,
    /// A rebuilt link points back at its own endpoint without being a
    /// detected circle.
    SelfLinkNotCircular,
}

/// What one group of equal-entry links turns into.
pub enum GroupOutcome {
    /// Only placeholders: the group vanishes.
    Dropped,
    /// A link stays alive: a payload link routed to `main_bucket` and an
    /// empty placeholder routed to `other_bucket`.
    Emit {
        main_bucket: u32,
        main_entry: u64,
        flags: UnitigFlags,
        entries: Vec<UnitigIndex>,
        other_bucket: u32,
        other_entry: u64,
        fused: bool,
    },
    /// A finished unitig: its path goes to the final bucket and every
    /// constituent gets a result-map record.
    Finished { entry: u64, flags: UnitigFlags, path: Vec<UnitigIndex>, circular: bool },
}

/// Ghost image of a `GroupOutcome`, with sequences for the vectors.
pub enum GroupOutcomeView {
    Dropped,
    Emit {
        main_bucket: u32,
        main_entry: u64,
        flags: UnitigFlags,
        entries: Seq<UnitigIndex>,
        other_bucket: u32,
        other_entry: u64,
        fused: bool,
    },
    Finished { entry: u64, flags: UnitigFlags, path: Seq<UnitigIndex>, circular: bool },
}

impl GroupOutcome {
    pub open spec fn view_spec(&self) -> GroupOutcomeView {
        match self {
            GroupOutcome::Dropped => GroupOutcomeView::Dropped,
            GroupOutcome::Emit {
                main_bucket,
                main_entry,
                flags,
                entries,
                other_bucket,
                other_entry,
                fused,
            } => GroupOutcomeView::Emit {
                main_bucket: *main_bucket,
                main_entry: *main_entry,
                flags: *flags,
                entries: entries@,
                other_bucket: *other_bucket,
                other_entry: *other_entry,
                fused: *fused,
            },
            GroupOutcome::Finished { entry, flags, path, circular } => GroupOutcomeView::Finished {
                entry: *entry,
                flags: *flags,
                path: path@,
                circular: *circular,
            },
        }
    }
}

/// Some link of the group carries a payload (only the first two are
/// inspected; more than two payload links is an invariant violation).
pub open spec fn group_has_payload(g: Seq<UnitigLink>) -> bool {
    g[0].entries.len > 0 || (g.len() > 1 && g[1].entries.len > 0)
}

/// The group is a fusible pair: exactly two links, both with payload.
pub open spec fn group_is_fuse(g: Seq<UnitigLink>) -> bool {
    g.len() == 2 && g[0].entries.len > 0 && g[1].entries.len > 0
}

/// Which of the first two links carries the payload in a non-fuse group.
pub open spec fn chosen_index(g: Seq<UnitigLink>) -> int {
    if g[0].entries.len > 0 {
        0
    } else {
        1
    }
}

/// Outcome of fusing a pair: the two paths are concatenated through the
/// group's own entry, oriented so the still-open end leads; the far
/// endpoint of the forward side gets the placeholder.
pub open spec fn fuse_spec(
    g: Seq<UnitigLink>,
    st: Seq<UnitigIndex>,
    bucket_index: u32,
    coin: bool,
) -> Result<GroupOutcomeView, CompactionError> {
    if g[0].flags.is_forward == g[1].flags.is_forward {
        Err(CompactionError::SameDirection)
    } else if g[0].flags.begin_sealed || g[1].flags.begin_sealed {
        Err(CompactionError::SealedBegin)
    } else if g[0].entry > u32::MAX {
        Err(CompactionError::EntryRange)
    } else {
        let swap = g[1].flags.end_sealed || (!g[0].flags.end_sealed && coin);
        let combined = g[0].flags.combine_spec(g[1].flags);
        let flags = if swap {
            combined.reversed_spec()
        } else {
            combined
        };
        let f = if swap {
            1int
        } else {
            0int
        };
        let b = 1 - f;
        let fw_s = g[f].entries.view_in(st);
        let bw_s = g[b].entries.view_in(st);
        let new_e = bw_s.last();
        let oth = fw_s.last();
        let mid = UnitigIndex { bucket: bucket_index, index: g[0].entry as u32 };
        let concat = bw_s.take(bw_s.len() - 1).reverse() + seq![mid] + fw_s;
        if concat[0].bucket == new_e.bucket && concat[0].index == new_e.index {
            Err(CompactionError::SelfLinkNotCircular)
        } else {
            Ok(GroupOutcomeView::Emit {
                main_bucket: new_e.bucket,
                main_entry: new_e.index as u64,
                flags,
                entries: concat,
                other_bucket: oth.bucket,
                other_entry: oth.index as u64,
                fused: true,
            })
        }
    }
}

/// Outcome of a group that is not a fusible pair: seal a lonely link's
/// begin, finish it when both ends are sealed, finish a detected circle,
/// otherwise re-emit the still-open link.
pub open spec fn settle_spec(
    g: Seq<UnitigLink>,
    st: Seq<UnitigIndex>,
    bucket_index: u32,
    coin: bool,
) -> Result<GroupOutcomeView, CompactionError> {
    if g.len() >= 2 && g[0].entries.len > 0 && g[1].entries.len > 0 {
        Err(CompactionError::AmbiguousGroup)
    } else {
        let ent = g[chosen_index(g)];
        if ent.flags.begin_sealed && g.len() > 1 {
            Err(CompactionError::SealedBegin)
        } else {
            let lonely = g.len() == 1;
            let flags = if lonely {
                UnitigFlags {
                    is_forward: ent.flags.is_forward,
                    begin_sealed: true,
                    end_sealed: ent.flags.end_sealed,
                }
            } else {
                ent.flags
            };
            let es = ent.entries.view_in(st);
            if lonely && flags.end_sealed {
                Ok(GroupOutcomeView::Finished { entry: ent.entry, flags, path: es, circular: false })
            } else if ent.entry > u32::MAX {
                Err(CompactionError::EntryRange)
            } else {
                let first = UnitigIndex { bucket: bucket_index, index: ent.entry as u32 };
                let last = es.last();
                if first == last {
                    Ok(GroupOutcomeView::Finished { entry: ent.entry, flags, path: es, circular: true })
                } else {
                    let keep = flags.end_sealed || (!flags.begin_sealed && coin);
                    let new_e = if keep {
                        first
                    } else {
                        last
                    };
                    let oth = if keep {
                        last
                    } else {
                        first
                    };
                    let vecs = if keep {
                        es
                    } else {
                        es.take(es.len() - 1).reverse() + seq![first]
                    };
                    let fl = if keep {
                        flags
                    } else {
                        flags.reversed_spec()
                    };
                    if vecs[0].bucket == new_e.bucket && vecs[0].index == new_e.index {
                        Err(CompactionError::SelfLinkNotCircular)
                    } else {
                        Ok(GroupOutcomeView::Emit {
                            main_bucket: new_e.bucket,
                            main_entry: new_e.index as u64,
                            flags: fl,
                            entries: vecs,
                            other_bucket: oth.bucket,
                            other_entry: oth.index as u64,
                            fused: false,
                        })
                    }
                }
            }
        }
    }
}

/// Exactly what one group of equal-entry links becomes, given the coin
/// that breaks orientation ties.
pub open spec fn compact_group_spec(
    g: Seq<UnitigLink>,
    st: Seq<UnitigIndex>,
    bucket_index: u32,
    coin: bool,
) -> Result<GroupOutcomeView, CompactionError> {
    if !group_has_payload(g) {
        Ok(GroupOutcomeView::Dropped)
    } else if group_is_fuse(g) {
        fuse_spec(g, st, bucket_index, coin)
    } else {
        settle_spec(g, st, bucket_index, coin)
    }
}

/// Copies the run a slice selects out of its storage.
fn copy_slice(storage: &Vec<UnitigIndex>, sl: crate::vec_slice::VecSlice) -> (r: Vec<UnitigIndex>)
    requires
        sl.wf_in(storage@),
    ensures
        r@ == sl.view_in(storage@),
{
    let mut r: Vec<UnitigIndex> = Vec::new();
    let mut j: usize = 0;
    while j < sl.len
        invariant
            j <= sl.len,
            sl.wf_in(storage@),
            r@ == sl.view_in(storage@).take(j as int),
        decreases sl.len - j,
    {
        r.push(sl.get(storage, j));
        assert(r@ =~= sl.view_in(storage@).take(j + 1));
        j = j + 1;
    }
    assert(r@ =~= sl.view_in(storage@));
    r
}

/// Builds the reversed prefix (all but the last element) of a slice,
/// followed by one extra element.
fn copy_reversed_prefix_then(
    storage: &Vec<UnitigIndex>,
    sl: crate::vec_slice::VecSlice,
    tail_item: UnitigIndex,
) -> (r: Vec<UnitigIndex>)
    requires
        sl.wf_in(storage@),
        sl.len >= 1,
    ensures
        r@ == sl.view_in(storage@).take(sl.len - 1).reverse() + seq![tail_item],
{
    let ghost s = sl.view_in(storage@);
    let m = sl.len - 1;
    let mut r: Vec<UnitigIndex> = Vec::new();
    let mut j: usize = 0;
    while j < m
        invariant
            j <= m,
            m == sl.len - 1,
            sl.wf_in(storage@),
            s == sl.view_in(storage@),
            r@.len() == j,
            forall|q: int| 0 <= q < j ==> r@[q] == s[m - 1 - q],
        decreases m - j,
    {
        r.push(sl.get(storage, m - 1 - j));
        j = j + 1;
    }
    r.push(tail_item);
    assert(r@ =~= s.take(sl.len - 1).reverse() + seq![tail_item]);
    r
}

/// Appends the run a slice selects to an existing vector.
fn extend_with_slice(v: &mut Vec<UnitigIndex>, storage: &Vec<UnitigIndex>, sl: crate::vec_slice::VecSlice)
    requires
        sl.wf_in(storage@),
    ensures
        final(v)@ == old(v)@ + sl.view_in(storage@),
{
    let mut j: usize = 0;
    while j < sl.len
        invariant
            j <= sl.len,
            sl.wf_in(storage@),
            v@ == old(v)@ + sl.view_in(storage@).take(j as int),
        decreases sl.len - j,
    {
        v.push(sl.get(storage, j));
        assert(v@ =~= old(v)@ + sl.view_in(storage@).take(j + 1));
        j = j + 1;
    }
    assert(v@ =~= old(v)@ + sl.view_in(storage@));
}

/// Processes one group of links that share an entry: the links at
/// positions `start..end`, whose entry lists live in `storage`. Exact up
/// to the coin: the outcome is `compact_group_spec` of the group.
#[verifier::rlimit(60)]
pub fn compact_group(
    links: &Vec<UnitigLink>,
    storage: &Vec<UnitigIndex>,
    start: usize,
    end: usize,
    bucket_index: u32,
    coin: bool,
) -> (r: Result<GroupOutcome, CompactionError>)
    requires
        start < end <= links@.len(),
        forall|q: int| start <= q < end ==> (#[trigger] links@[q].entries).wf_in(storage@),
    ensures
        ({
            let spec_r = compact_group_spec(
                links@.subrange(start as int, end as int),
                storage@,
                bucket_index,
                coin,
            );
            match r {
                Ok(o) => spec_r == Ok::<GroupOutcomeView, CompactionError>(o.view_spec()),
                Err(e) => spec_r == Err::<GroupOutcomeView, CompactionError>(e),
            }
        }),
{
    let ghost g = links@.subrange(start as int, end as int);
    let ghost st = storage@;
    let g_len = end - start;
    let l0 = links[start];
    proof {
        assert(g[0] == links@[start as int]);
        if g_len > 1 {
            assert(g[1] == links@[start + 1]);
        }
    }
    let second_payload = g_len > 1 && links[start + 1].entries.len > 0;
    if l0.entries.len == 0 && !second_payload {
        return Ok(GroupOutcome::Dropped);
    }
    if g_len == 2 && l0.entries.len > 0 && second_payload {
        // fusible pair
        let l1 = links[start + 1];
        if l0.flags.is_forward == l1.flags.is_forward {
            return Err(CompactionError::SameDirection);
        }
        if l0.flags.begin_sealed || l1.flags.begin_sealed {
            return Err(CompactionError::SealedBegin);
        }
        if l0.entry > 0xffff_ffffu64 {
            return Err(CompactionError::EntryRange);
        }
        let swap = l1.flags.end_sealed || (!l0.flags.end_sealed && coin);
        let combined = UnitigFlags::combine(l0.flags, l1.flags);
        let flags = if swap {
            combined.reversed()
        } else {
            combined
        };
        let (lf, lb) = if swap {
            (l1, l0)
        } else {
            (l0, l1)
        };
        let new_e = lb.entries.get(storage, lb.entries.len - 1);
        let oth = lf.entries.get(storage, lf.entries.len - 1);
        let mid = UnitigIndex { bucket: bucket_index, index: l0.entry as u32 };
        let mut concat = copy_reversed_prefix_then(storage, lb.entries, mid);
        extend_with_slice(&mut concat, storage, lf.entries);
        proof {
            let fw_s = lb.entries.view_in(st);
            assert(new_e == fw_s.last());
            assert(concat@ =~= lb.entries.view_in(st).take(lb.entries.len - 1).reverse()
                + seq![mid] + lf.entries.view_in(st));
        }
        if concat[0].bucket == new_e.bucket && concat[0].index == new_e.index {
            return Err(CompactionError::SelfLinkNotCircular);
        }
        return Ok(GroupOutcome::Emit {
            main_bucket: new_e.bucket,
            main_entry: new_e.index as u64,
            flags,
            entries: concat,
            other_bucket: oth.bucket,
            other_entry: oth.index as u64,
            fused: true,
        });
    }
    // not a fusible pair
    if g_len >= 2 && l0.entries.len > 0 && second_payload {
        return Err(CompactionError::AmbiguousGroup);
    }
    let ent = if l0.entries.len > 0 {
        l0
    } else {
        links[start + 1]
    };
    proof {
        assert(ent == g[chosen_index(g)]);
    }
    if ent.flags.begin_sealed && g_len > 1 {
        return Err(CompactionError::SealedBegin);
    }
    let lonely = g_len == 1;
    let flags = if lonely {
        UnitigFlags {
            is_forward: ent.flags.is_forward,
            begin_sealed: true,
            end_sealed: ent.flags.end_sealed,
        }
    } else {
        ent.flags
    };
    if lonely && flags.end_sealed {
        let path = copy_slice(storage, ent.entries);
        return Ok(GroupOutcome::Finished { entry: ent.entry, flags, path, circular: false });
    }
    if ent.entry > 0xffff_ffffu64 {
        return Err(CompactionError::EntryRange);
    }
    let first = UnitigIndex { bucket: bucket_index, index: ent.entry as u32 };
    let last = ent.entries.get(storage, ent.entries.len - 1);
    if first.bucket == last.bucket && first.index == last.index {
        let path = copy_slice(storage, ent.entries);
        return Ok(GroupOutcome::Finished { entry: ent.entry, flags, path, circular: true });
    }
    let keep = flags.end_sealed || (!flags.begin_sealed && coin);
    let (new_e, oth, vecs, fl) = if keep {
        (first, last, copy_slice(storage, ent.entries), flags)
    } else {
        (last, first, copy_reversed_prefix_then(storage, ent.entries, first), flags.reversed())
    };
    if vecs[0].bucket == new_e.bucket && vecs[0].index == new_e.index {
        return Err(CompactionError::SelfLinkNotCircular);
    }
    Ok(GroupOutcome::Emit {
        main_bucket: new_e.bucket,
        main_entry: new_e.index as u64,
        flags: fl,
        entries: vecs,
        other_bucket: oth.bucket,
        other_entry: oth.index as u64,
        fused: false,
    })
}

/// Position `p` starts a new equal-entry group.
pub open spec fn is_group_start(s: Seq<UnitigLink>, p: int) -> bool {
    0 <= p < s.len() && (p == 0 || s[p - 1].entry != s[p].entry)
}

/// How many groups start before position `upto`.
pub open spec fn count_groups(s: Seq<UnitigLink>, upto: int) -> int
    decreases upto,
{
    if upto <= 0 {
        0
    } else {
        count_groups(s, upto - 1) + if is_group_start(s, upto - 1) {
            1int
        } else {
            0int
        }
    }
}

/// There are never more groups than scanned positions.
pub proof fn lemma_count_groups_le(s: Seq<UnitigLink>, i: int)
    requires
        0 <= i,
    ensures
        0 <= count_groups(s, i) <= i,
    decreases i,
{
    if i > 0 {
        lemma_count_groups_le(s, i - 1);
    }
}

/// Scanning from one group start to the next adds exactly one group.
pub proof fn lemma_count_groups_step(s: Seq<UnitigLink>, i: int, j: int)
    requires
        is_group_start(s, i),
        i < j <= s.len(),
        forall|p: int| i < p < j ==> !is_group_start(s, p),
    ensures
        count_groups(s, j) == count_groups(s, i) + 1,
    decreases j - i,
{
    if j == i + 1 {
    } else {
        lemma_count_groups_step(s, i, j - 1);
    }
}

/// The positions `p..q` of `s` hold one whole equal-entry group.
pub open spec fn is_group_range(s: Seq<UnitigLink>, p: int, q: int) -> bool {
    &&& 0 <= p < q <= s.len()
    &&& is_group_start(s, p)
    &&& (q == s.len() || s[q].entry != s[p].entry)
    &&& forall|r: int| p < r < q ==> s[r].entry == s[p].entry
}

/// An emitted payload link always leaves with a fusible shape: either its
/// outer end is sealed or its begin end is still open ("exactly one
/// becomes sealed next round").
pub proof fn lemma_emit_flags_invariant(
    g: Seq<UnitigLink>,
    st: Seq<UnitigIndex>,
    bucket_index: u32,
    coin: bool,
)
    requires
        g.len() >= 1,
        forall|q: int| 0 <= q < g.len() ==> (#[trigger] g[q].entries).wf_in(st),
    ensures
        match compact_group_spec(g, st, bucket_index, coin) {
            Ok(o) => match o {
                GroupOutcomeView::Emit { flags, entries, .. } => {
                    &&& (flags.end_sealed || !flags.begin_sealed)
                    &&& entries.len() > 0
                },
                _ => true,
            },
            Err(_) => true,
        },
{
    if group_has_payload(g) {
        if group_is_fuse(g) {
            if !(g[0].flags.is_forward == g[1].flags.is_forward) && !(g[0].flags.begin_sealed
                || g[1].flags.begin_sealed) && !(g[0].entry > u32::MAX) {
                let swap = g[1].flags.end_sealed || (!g[0].flags.end_sealed && coin);
                let b = if swap { 0int } else { 1int };
                let bw_s = g[b].entries.view_in(st);
                assert(bw_s.len() == g[b].entries.len);
                if swap {
                    assert(g[1].flags.end_sealed || !g[0].flags.end_sealed);
                } else {
                    assert(!g[1].flags.end_sealed);
                }
            }
        } else {
            if !(g.len() >= 2 && g[0].entries.len > 0 && g[1].entries.len > 0) {
                assert(g[0].entries.wf_in(st));
                if g.len() > 1 {
                    assert(g[1].entries.wf_in(st));
                }
                let ent = g[chosen_index(g)];
                let es = ent.entries.view_in(st);
                assert(es.len() == ent.entries.len);
            }
        }
    }
}

/// Sort key of a link: its entry id.
pub struct LinkCompare {}

impl crate::sort::SortKey<UnitigLink> for LinkCompare {
    open spec fn spec_key(v: UnitigLink) -> u64 {
        v.entry
    }

    fn get(value: &UnitigLink) -> (r: u64) {
        value.entry
    }
}

/// Everything one compaction pass over a bucket produces.
#[derive(Debug)]
pub struct CompactionOutput {
    /// The bucket's links after sorting by entry.
    pub sorted: Vec<UnitigLink>,
    /// Still-active links, each tagged with its destination bucket.
    pub links: Vec<(u32, UnitigLink)>,
    /// Storage the active links' entry lists point into.
    pub unitigs_vec: Vec<UnitigIndex>,
    /// Finished unitigs, all belonging to this bucket.
    pub final_links: Vec<UnitigLink>,
    /// Storage the finished unitigs' paths point into.
    pub final_unitigs_vec: Vec<UnitigIndex>,
    /// Result-map records, each tagged with its destination bucket.
    pub mappings: Vec<(u32, LinkMapping)>,
    /// Number of groups that re-emitted a live link: the bucket's
    /// contribution to the pass's `totsum`.
    pub rem_links: u64,
    /// Number of placeholder-only groups that vanished.
    pub dropped: u64,
}

impl Pipeline {
    /// One compaction pass over one bucket: sorts the links by entry,
    /// groups them, and lets each group fuse, seal, finish or vanish.
    /// Orientation ties are broken by fair coins; each group's outcome is
    /// exact for the coin it drew (`compact_group_spec`). An input shape
    /// that a producing phase can never generate is reported as the
    /// matching error, taken from the group that shows it.
    #[verifier::rlimit(100)]
    pub fn links_compaction(
        vec: &Vec<UnitigLink>,
        last_unitigs_vec: &Vec<UnitigIndex>,
        bucket_index: u32,
        rand_bool: &mut crate::fast_rand_bool::FastRandBool,
    ) -> (r: Result<CompactionOutput, CompactionError>)
        requires
            forall|q: int|
                0 <= q < vec@.len() ==> (#[trigger] vec@[q].entries).wf_in(last_unitigs_vec@),
        ensures
            match r {
                Ok(out) => {
                    &&& out.sorted@.to_multiset() == vec@.to_multiset()
                    &&& crate::sort::sorted_by_key::<UnitigLink, LinkCompare>(out.sorted@)
                    &&& out.links@.len() == 2 * out.rem_links
                    &&& (out.rem_links == 0 <==> out.links@.len() == 0)
                    &&& out.rem_links + out.final_links@.len() + out.dropped == count_groups(
                        out.sorted@,
                        out.sorted@.len() as int,
                    )
                    &&& forall|q: int|
                        0 <= q < out.links@.len() ==> (#[trigger] out.links@[q].1.entries).wf_in(
                            out.unitigs_vec@,
                        )
                    &&& forall|q: int|
                        0 <= q < out.final_links@.len()
                            ==> (#[trigger] out.final_links@[q].entries).wf_in(
                            out.final_unitigs_vec@,
                        )
                    &&& forall|q: int|
                        0 <= q < out.links@.len() ==> ((#[trigger] out.links@[q].1.flags).end_sealed
                            || !out.links@[q].1.flags.begin_sealed)
                },
                Err(e) => exists|s: Seq<UnitigLink>, p: int, q: int, c: bool|
                    {
                        &&& s.to_multiset() == vec@.to_multiset()
                        &&& crate::sort::sorted_by_key::<UnitigLink, LinkCompare>(s)
                        &&& is_group_range(s, p, q)
                        &&& #[trigger] compact_group_spec(
                            s.subrange(p, q),
                            last_unitigs_vec@,
                            bucket_index,
                            c,
                        ) == Err::<GroupOutcomeView, CompactionError>(e)
                    },
            },
    {
        broadcast use vstd::seq_lib::to_multiset_contains;
        broadcast use vstd::seq_lib::to_multiset_len;

        let mut work: Vec<UnitigLink> = Vec::new();
        let mut ci: usize = 0;
        while ci < vec.len()
            invariant
                ci <= vec@.len(),
                work@ == vec@.take(ci as int),
            decreases vec@.len() - ci,
        {
            work.push(vec[ci]);
            assert(work@ =~= vec@.take(ci + 1));
            ci = ci + 1;
        }
        assert(work@ =~= vec@);
        crate::sort::key_sort::<UnitigLink, LinkCompare>(&mut work);
        proof {
            assert forall|q: int| 0 <= q < work@.len() implies (#[trigger] work@[q].entries).wf_in(
                last_unitigs_vec@,
            ) by {
                let l = work@[q];
                assert(work@.contains(l));
                assert(work@.to_multiset().count(l) > 0);
                assert(vec@.contains(l));
                let w = choose|w: int| 0 <= w < vec@.len() && vec@[w] == l;
                assert(vec@[w].entries.wf_in(last_unitigs_vec@));
            }
        }
        let n = work.len();
        let mut links: Vec<(u32, UnitigLink)> = Vec::new();
        let mut unitigs_vec: Vec<UnitigIndex> = Vec::new();
        let mut final_links: Vec<UnitigLink> = Vec::new();
        let mut final_unitigs_vec: Vec<UnitigIndex> = Vec::new();
        let mut mappings: Vec<(u32, LinkMapping)> = Vec::new();
        let mut rem_links: u64 = 0;
        let mut dropped: u64 = 0;
        let mut i: usize = 0;
        while i < n
            invariant
                i <= n,
                n == work@.len(),
                i == n || is_group_start(work@, i as int),
                work@.to_multiset() == vec@.to_multiset(),
                crate::sort::sorted_by_key::<UnitigLink, LinkCompare>(work@),
                forall|q: int|
                    0 <= q < work@.len() ==> (#[trigger] work@[q].entries).wf_in(last_unitigs_vec@),
                links@.len() == 2 * rem_links,
                rem_links + final_links@.len() + dropped == count_groups(work@, i as int),
                forall|q: int|
                    0 <= q < links@.len() ==> (#[trigger] links@[q].1.entries).wf_in(unitigs_vec@),
                forall|q: int|
                    0 <= q < final_links@.len() ==> (#[trigger] final_links@[q].entries).wf_in(
                        final_unitigs_vec@,
                    ),
                forall|q: int|
                    0 <= q < links@.len() ==> ((#[trigger] links@[q].1.flags).end_sealed
                        || !links@[q].1.flags.begin_sealed),
            decreases n - i,
        {
            let entry = work[i].entry;
            let mut j: usize = i + 1;
            while j < n && work[j].entry == entry
                invariant
                    i < j <= n,
                    n == work@.len(),
                    entry == work@[i as int].entry,
                    forall|p: int| i < p < j ==> work@[p].entry == entry,
                decreases n - j,
            {
                j = j + 1;
            }
            proof {
                lemma_count_groups_le(work@, i as int);
                lemma_count_groups_le(work@, j as int);
                lemma_count_groups_step(work@, i as int, j as int);
            }
            let coin = rand_bool.get_randbool();
            let ghost g = work@.subrange(i as int, j as int);
            let outcome = match compact_group(&work, last_unitigs_vec, i, j, bucket_index, coin) {
                Ok(o) => o,
                Err(e) => {
                    proof {
                        // the group at hand is the witness for the error shape
                        assert(is_group_range(work@, i as int, j as int));
                        assert(work@.to_multiset() == vec@.to_multiset());
                        assert(compact_group_spec(
                            work@.subrange(i as int, j as int),
                            last_unitigs_vec@,
                            bucket_index,
                            coin,
                        ) == Err::<GroupOutcomeView, CompactionError>(e));
                    }
                    return Err(e);
                },
            };
            proof {
                assert forall|q: int| 0 <= q < g.len() implies (#[trigger] g[q].entries).wf_in(
                    last_unitigs_vec@,
                ) by {
                    assert(g[q] == work@[i + q]);
                }
                lemma_emit_flags_invariant(g, last_unitigs_vec@, bucket_index, coin);
            }
            match outcome {
                GroupOutcome::Dropped => {
                    dropped = dropped + 1;
                },
                GroupOutcome::Emit {
                    main_bucket,
                    main_entry,
                    flags,
                    entries,
                    other_bucket,
                    other_entry,
                    fused: _,
                } => {
                    let sl = crate::vec_slice::VecSlice::new_extend(&mut unitigs_vec, &entries);
                    links.push((main_bucket, UnitigLink { entry: main_entry, flags, entries: sl }));
                    links.push((
                        other_bucket,
                        UnitigLink {
                            entry: other_entry,
                            flags: UnitigFlags::new_empty(),
                            entries: crate::vec_slice::VecSlice { pos: 0, len: 0 },
                        },
                    ));
                    rem_links = rem_links + 1;
                },
                GroupOutcome::Finished { entry: fentry, flags, path, circular } => {
                    let sl = crate::vec_slice::VecSlice::new_extend(&mut final_unitigs_vec, &path);
                    final_links.push(UnitigLink { entry: fentry, flags, entries: sl });
                    if !circular {
                        mappings.push((
                            bucket_index,
                            LinkMapping { entry: fentry, bucket: bucket_index as u64 },
                        ));
                    }
                    let mut t: usize = 0;
                    while t < path.len()
                        invariant
                            t <= path@.len(),
                        decreases path@.len() - t,
                    {
                        mappings.push((
                            path[t].bucket,
                            LinkMapping { entry: path[t].index as u64, bucket: bucket_index as u64 },
                        ));
                        t = t + 1;
                    }
                },
            }
            i = j;
        }
        Ok(CompactionOutput {
            sorted: work,
            links,
            unitigs_vec,
            final_links,
            final_unitigs_vec,
            mappings,
            rem_links,
            dropped,
        })
    }
}

/// Idempotence of the compaction fixed point: a pass that reports no
/// remaining links has emitted no links at all, so the next pass reads a
/// bucket with no groups, and its own accounting (`rem_links` plus
/// finished plus dropped equals the group count) forces it to report
/// zero again.
pub proof fn lemma_compaction_fixed_point(
    out_links: Seq<(u32, UnitigLink)>,
    rem_links: u64,
    next: Seq<UnitigLink>,
)
    requires
        out_links.len() == 2 * rem_links,
        rem_links == 0,
        next.len() == out_links.len(),
    ensures
        count_groups(next, next.len() as int) == 0,
{
}

} // verus!
