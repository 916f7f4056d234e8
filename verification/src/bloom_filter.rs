//! A one-bit-per-cell presence filter over k-mer hash cells, and the
//! pipeline pass that drives every window of every read through it,
//! counting the windows whose cell had already been hit.

use vstd::prelude::*;
use crate::pipeline::{Pipeline, is_acgtn, nt_canon_of, nt_canon_hashes};

verus! {

/// A byte-backed presence map: cell values are 0 or 1.
pub struct BloomFilter {
    pub map: Vec<u8>,
}

impl BloomFilter {
    pub open spec fn view(&self) -> Seq<u8> {
        self.map@
    }

    pub fn new(size: usize) -> (r: BloomFilter)
        ensures
            r.view() == Seq::<u8>::new(size as nat, |i: int| 0u8),
    {
        let mut map: Vec<u8> = Vec::new();
        let mut i: usize = 0;
        while i < size
            invariant
                i <= size,
                map@ == Seq::<u8>::new(i as nat, |j: int| 0u8),
            decreases size - i,
        {
            map.push(0);
            assert(map@ =~= Seq::<u8>::new((i + 1) as nat, |j: int| 0u8));
            i = i + 1;
        }
        BloomFilter { map }
    }

    /// Marks a cell, reporting whether it was already marked.
    pub fn increment_cell(&mut self, cell: usize) -> (r: bool)
        requires
            cell < old(self).view().len(),
        ensures
            final(self).view() == old(self).view().update(cell as int, 1u8),
            r == (old(self).view()[cell as int] == 1),
    {
        let res = self.map[cell] == 1;
        self.map.set(cell, 1);
        res
    }

    pub fn len(&self) -> (r: usize)
        ensures
            r == self.view().len(),
    {
        self.map.len()
    }
}

/// The cell a window maps to: its canonical hash modulo the filter size.
pub open spec fn window_cell(read: Seq<u8>, k: int, size: int, i: int) -> int {
    (nt_canon_of(read.subrange(i, i + k)) as int) % size
}

/// The filter after the windows of `read` from `i` on have marked their
/// cells.
pub open spec fn cells_after(m: Seq<u8>, read: Seq<u8>, k: int, size: int, i: int) -> Seq<u8>
    decreases read.len() - k + 1 - i,
{
    if i < 0 || i > read.len() - k {
        m
    } else {
        cells_after(m.update(window_cell(read, k, size, i), 1), read, k, size, i + 1)
    }
}

/// How many of the windows of `read` from `i` on find their cell already
/// marked, counting marks left by the earlier windows too.
pub open spec fn dups_after(m: Seq<u8>, read: Seq<u8>, k: int, size: int, i: int) -> int
    decreases read.len() - k + 1 - i,
{
    if i < 0 || i > read.len() - k {
        0
    } else {
        (if m[window_cell(read, k, size, i)] == 1 {
            1int
        } else {
            0int
        }) + dups_after(m.update(window_cell(read, k, size, i), 1), read, k, size, i + 1)
    }
}

/// The filter after every read from `ri` on has run through it.
pub open spec fn filter_after(m: Seq<u8>, reads: Seq<Vec<u8>>, k: int, size: int, ri: int) -> Seq<u8>
    decreases reads.len() - ri,
{
    if ri < 0 || ri >= reads.len() {
        m
    } else {
        filter_after(cells_after(m, reads[ri]@, k, size, 0), reads, k, size, ri + 1)
    }
}

/// Duplicate-window count of every read from `ri` on.
pub open spec fn filter_dups(m: Seq<u8>, reads: Seq<Vec<u8>>, k: int, size: int, ri: int) -> int
    decreases reads.len() - ri,
{
    if ri < 0 || ri >= reads.len() {
        0
    } else {
        dups_after(m, reads[ri]@, k, size, 0) + filter_dups(
            cells_after(m, reads[ri]@, k, size, 0),
            reads,
            k,
            size,
            ri + 1,
        )
    }
}

impl Pipeline {
    /// Runs every k-window of every read through a fresh filter of the
    /// given size; returns the filter and how many windows found their
    /// cell already marked. Reads shorter than `k` contribute nothing.
    pub fn bloom_filter(reads: &Vec<Vec<u8>>, k: usize, size: usize) -> (r: (BloomFilter, u64))
        requires
            1 <= k <= 0xffff_ffff,
            size >= 1,
            forall|ri: int, i: int|
                0 <= ri < reads@.len() && 0 <= i < reads@[ri]@.len() ==> is_acgtn(
                    #[trigger] reads@[ri]@[i],
                ),
            filter_dups(
                Seq::<u8>::new(size as nat, |i: int| 0u8),
                reads@,
                k as int,
                size as int,
                0,
            ) <= u64::MAX,
        ensures
            r.0.view() == filter_after(
                Seq::<u8>::new(size as nat, |i: int| 0u8),
                reads@,
                k as int,
                size as int,
                0,
            ),
            r.1 == filter_dups(
                Seq::<u8>::new(size as nat, |i: int| 0u8),
                reads@,
                k as int,
                size as int,
                0,
            ),
    {
        let ghost m0 = Seq::<u8>::new(size as nat, |i: int| 0u8);
        let ghost total = filter_dups(m0, reads@, k as int, size as int, 0);
        let mut filter = BloomFilter::new(size);
        let mut dups: u64 = 0;
        let mut ri: usize = 0;
        let n = reads.len();
        while ri < n
            invariant
                ri <= n,
                n == reads@.len(),
                1 <= k <= 0xffff_ffff,
                size >= 1,
                filter.view().len() == size,
                total == filter_dups(m0, reads@, k as int, size as int, 0),
                total <= u64::MAX,
                forall|q: int, i: int|
                    0 <= q < n && 0 <= i < reads@[q]@.len() ==> is_acgtn(
                        #[trigger] reads@[q]@[i],
                    ),
                filter_after(m0, reads@, k as int, size as int, 0) == filter_after(
                    filter.view(),
                    reads@,
                    k as int,
                    size as int,
                    ri as int,
                ),
                total == dups + filter_dups(filter.view(), reads@, k as int, size as int, ri as int),
            decreases n - ri,
        {
            let read = &reads[ri];
            let ghost m_entry = filter.view();
            let ghost dups_entry = dups;
            let ghost rest = filter_dups(
                cells_after(m_entry, read@, k as int, size as int, 0),
                reads@,
                k as int,
                size as int,
                ri + 1,
            );
            proof {
                lemma_filter_dups_nonneg(
                    cells_after(m_entry, read@, k as int, size as int, 0),
                    reads@,
                    k as int,
                    size as int,
                    ri + 1,
                );
                lemma_dups_after_nonneg(m_entry, read@, k as int, size as int, 0);
                assert(filter_dups(m_entry, reads@, k as int, size as int, ri as int)
                    == dups_after(m_entry, read@, k as int, size as int, 0) + rest);
            }
            if read.len() >= k {
                let hashes_len = read.len() - k + 1;
                let hashes = nt_canon_hashes(read, k);
                let mut i: usize = 0;
                while i < hashes_len
                    invariant
                        i <= hashes_len,
                        hashes_len == read@.len() - k + 1,
                        hashes@.len() == hashes_len,
                        1 <= k,
                        size >= 1,
                        filter.view().len() == size,
                        rest >= 0,
                        total <= u64::MAX,
                        dups_entry <= dups,
                        forall|q: int|
                            0 <= q < hashes_len ==> hashes@[q] == nt_canon_of(
                                #[trigger] read@.subrange(q, q + k),
                            ),
                        cells_after(m_entry, read@, k as int, size as int, 0) == cells_after(
                            filter.view(),
                            read@,
                            k as int,
                            size as int,
                            i as int,
                        ),
                        dups_after(m_entry, read@, k as int, size as int, 0) == (dups - dups_entry)
                            + dups_after(filter.view(), read@, k as int, size as int, i as int),
                        total == dups + dups_after(
                            filter.view(),
                            read@,
                            k as int,
                            size as int,
                            i as int,
                        ) + rest,
                    decreases hashes_len - i,
                {
                    let h = hashes[i];
                    let cell = (h % (size as u64)) as usize;
                    proof {
                        assert(cell == window_cell(read@, k as int, size as int, i as int));
                        lemma_dups_after_nonneg(
                            filter.view().update(cell as int, 1),
                            read@,
                            k as int,
                            size as int,
                            i + 1,
                        );
                    }
                    let was = filter.increment_cell(cell);
                    if was {
                        dups = dups + 1;
                    }
                    i = i + 1;
                }
                proof {
                    assert(cells_after(
                        filter.view(),
                        read@,
                        k as int,
                        size as int,
                        hashes_len as int,
                    ) == filter.view());
                    assert(dups_after(
                        filter.view(),
                        read@,
                        k as int,
                        size as int,
                        hashes_len as int,
                    ) == 0);
                }
            } else {
                proof {
                    assert(cells_after(m_entry, read@, k as int, size as int, 0) == m_entry);
                    assert(dups_after(m_entry, read@, k as int, size as int, 0) == 0);
                }
            }
            ri = ri + 1;
        }
        (filter, dups)
    }
}

/// Duplicate counts are never negative.
proof fn lemma_dups_after_nonneg(m: Seq<u8>, read: Seq<u8>, k: int, size: int, i: int)
    ensures
        dups_after(m, read, k, size, i) >= 0,
    decreases read.len() - k + 1 - i,
{
    if !(i < 0 || i > read.len() - k) {
        lemma_dups_after_nonneg(m.update(window_cell(read, k, size, i), 1), read, k, size, i + 1);
    }
}

/// Per-filter duplicate counts are never negative.
proof fn lemma_filter_dups_nonneg(m: Seq<u8>, reads: Seq<Vec<u8>>, k: int, size: int, ri: int)
    ensures
        filter_dups(m, reads, k, size, ri) >= 0,
    decreases reads.len() - ri,
{
    if !(ri < 0 || ri >= reads.len()) {
        lemma_dups_after_nonneg(m, reads[ri]@, k, size, 0);
        lemma_filter_dups_nonneg(cells_after(m, reads[ri]@, k, size, 0), reads, k, size, ri + 1);
    }
}

} // verus!
