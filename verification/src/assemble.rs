//! In-memory k-mer merging: the windows of the reads are encoded as
//! 2-bit integers (canonical form optional), deduplicated and filtered by
//! multiplicity, and the surviving k-mer set is walked as a de Bruijn
//! graph into maximal unitigs. This is the per-bucket core of the merge
//! phase, on one in-RAM bucket.

use vstd::prelude::*;
use crate::pipeline::{Pipeline, comp_base, rc_seq};
use crate::sort::{SortKey, key_sort, sorted_by_key};

verus! {

/// A byte is one of the four bases.
pub open spec fn is_base(b: u8) -> bool {
    b == 65 || b == 67 || b == 71 || b == 84
}

/// The 2-bit code of a base.
pub open spec fn base_code(b: u8) -> int {
    if b == 65 {
        0
    } else if b == 67 {
        1
    } else if b == 71 {
        2
    } else {
        3
    }
}

/// The base of a 2-bit code.
pub open spec fn code_base(c: int) -> u8 {
    if c == 0 {
        65
    } else if c == 1 {
        67
    } else if c == 2 {
        71
    } else {
        84
    }
}

/// The big-endian 2-bit value of a base string: numeric order on equal
/// lengths is lexicographic order on the strings.
pub open spec fn kmer_val(s: Seq<u8>) -> int
    decreases s.len(),
{
    if s.len() == 0 {
        0
    } else {
        kmer_val(s.drop_last()) * 4 + base_code(s.last())
    }
}

/// The value an oriented window contributes: its own value, or the
/// smaller of its value and its reverse complement's in canonical mode.
pub open spec fn window_val(w: Seq<u8>, canonical: bool) -> int {
    if canonical && kmer_val(rc_seq(w)) < kmer_val(w) {
        kmer_val(rc_seq(w))
    } else {
        kmer_val(w)
    }
}

/// Values of base strings of length up to 31 fit comfortably in a u64.
pub proof fn lemma_kmer_val_bound(s: Seq<u8>)
    requires
        s.len() <= 31,
    ensures
        0 <= kmer_val(s) < 0x4000_0000_0000_0000,
    decreases s.len(),
{
    if s.len() > 0 {
        assert(kmer_val(s.drop_last()) < 0x1000_0000_0000_0000) by {
            lemma_kmer_val_pow_bound(s.drop_last());
            lemma_pow4_mono(s.drop_last().len(), 30);
            lemma_pow4_30();
        }
        assert(kmer_val(s.drop_last()) >= 0) by {
            lemma_kmer_val_pow_bound(s.drop_last());
        }
    }
}

/// Powers of four grow with the exponent.
proof fn lemma_pow4_mono(a: nat, b: nat)
    requires
        a <= b,
    ensures
        pow4(a) <= pow4(b),
        pow4(a) >= 1,
    decreases b,
{
    if a < b {
        lemma_pow4_mono(a, (b - 1) as nat);
    } else if a > 0 {
        lemma_pow4_mono((a - 1) as nat, (b - 1) as nat);
    }
}

/// The value of a string of length n is below 4^n.
proof fn lemma_kmer_val_pow_bound(s: Seq<u8>)
    requires
        s.len() <= 30,
    ensures
        0 <= kmer_val(s) < pow4(s.len() as nat),
    decreases s.len(),
{
    if s.len() > 0 {
        lemma_kmer_val_pow_bound(s.drop_last());
        assert(pow4(s.len() as nat) == 4 * pow4((s.len() - 1) as nat));
        assert(kmer_val(s.drop_last()) * 4 + base_code(s.last()) < 4 * pow4(
            (s.len() - 1) as nat,
        )) by (nonlinear_arith)
            requires
                kmer_val(s.drop_last()) < pow4((s.len() - 1) as nat),
                kmer_val(s.drop_last()) >= 0,
                base_code(s.last()) < 4,
                base_code(s.last()) >= 0,
        {}
    }
}

/// Powers of four.
pub open spec fn pow4(n: nat) -> int
    decreases n,
{
    if n == 0 {
        1
    } else {
        4 * pow4((n - 1) as nat)
    }
}

/// 4^30 computed once: every k up to 31 keeps values in range.
proof fn lemma_pow4_30()
    ensures
        pow4(30) == 0x1000_0000_0000_0000,
{
    reveal_with_fuel(pow4, 31);
}

/// Encodes a base window as its 2-bit value.
pub fn encode_kmer(seq: &Vec<u8>, from: usize, to: usize) -> (r: u64)
    requires
        from <= to <= seq@.len(),
        to - from <= 31,
        forall|i: int| from <= i < to ==> is_base(#[trigger] seq@[i]),
    ensures
        r == kmer_val(seq@.subrange(from as int, to as int)),
{
    let mut r: u64 = 0;
    let mut i: usize = from;
    while i < to
        invariant
            from <= i <= to <= seq@.len(),
            to - from <= 31,
            forall|q: int| from <= q < to ==> is_base(#[trigger] seq@[q]),
            r == kmer_val(seq@.subrange(from as int, i as int)),
            r < 0x4000_0000_0000_0000,
        decreases to - i,
    {
        let b = seq[i];
        let code: u64 = if b == 65 {
            0
        } else if b == 67 {
            1
        } else if b == 71 {
            2
        } else {
            3
        };
        proof {
            let sub = seq@.subrange(from as int, i + 1);
            assert(sub.drop_last() =~= seq@.subrange(from as int, i as int));
            assert(sub.last() == seq@[i as int]);
            lemma_kmer_val_bound(sub);
        }
        r = r * 4 + code;
        i = i + 1;
    }
    assert(seq@.subrange(from as int, to as int) == seq@.subrange(from as int, to as int));
    r
}

/// The reverse complement of a window, as bytes.
pub fn rc_window(seq: &Vec<u8>, from: usize, to: usize) -> (r: Vec<u8>)
    requires
        from <= to <= seq@.len(),
        forall|i: int| from <= i < to ==> is_base(#[trigger] seq@[i]),
    ensures
        r@ == rc_seq(seq@.subrange(from as int, to as int)),
        r@.len() == to - from,
        forall|i: int| 0 <= i < r@.len() ==> is_base(#[trigger] r@[i]),
{
    let mut r: Vec<u8> = Vec::new();
    let mut i: usize = to;
    while i > from
        invariant
            from <= i <= to <= seq@.len(),
            forall|q: int| from <= q < to ==> is_base(#[trigger] seq@[q]),
            r@.len() == to - i,
            forall|q: int|
                0 <= q < r@.len() ==> r@[q] == comp_base(seq@[to - 1 - q]),
        decreases i - from,
    {
        let b = seq[i - 1];
        let c: u8 = if b == 65 {
            84
        } else if b == 84 {
            65
        } else if b == 67 {
            71
        } else {
            67
        };
        r.push(c);
        i = i - 1;
    }
    proof {
        assert(r@ =~= rc_seq(seq@.subrange(from as int, to as int)));
        assert forall|q: int| 0 <= q < r@.len() implies is_base(#[trigger] r@[q]) by {
            assert(r@[q] == comp_base(seq@[to - 1 - q]));
            assert(is_base(seq@[to - 1 - q]));
        }
    }
    r
}

/// The oriented value of one window of a read.
pub fn window_value(read: &Vec<u8>, from: usize, k: usize, canonical: bool) -> (r: u64)
    requires
        1 <= k <= 31,
        from + k <= read@.len(),
        forall|i: int| 0 <= i < read@.len() ==> is_base(#[trigger] read@[i]),
    ensures
        r == window_val(read@.subrange(from as int, from + k), canonical),
{
    let n = read.len();
    let f = encode_kmer(read, from, from + k);
    if canonical {
        let rcw = rc_window(read, from, from + k);
        let rv = encode_kmer(&rcw, 0, rcw.len());
        proof {
            assert(rcw@.subrange(0, rcw@.len() as int) =~= rcw@);
        }
        if rv < f {
            rv
        } else {
            f
        }
    } else {
        f
    }
}

/// The window values of all reads, in read order: reads shorter than `k`
/// contribute nothing.
pub open spec fn windows_of(reads: Seq<Vec<u8>>, k: int, canonical: bool, ri: int, wi: int) -> Seq<u64>
    decreases reads.len() - ri, (if ri < reads.len() { reads[ri]@.len() + 1 - k - wi } else { 0 }),
{
    if ri < 0 || ri >= reads.len() || wi < 0 {
        Seq::empty()
    } else if wi > reads[ri]@.len() - k {
        windows_of(reads, k, canonical, ri + 1, 0)
    } else {
        seq![window_val(reads[ri]@.subrange(wi, wi + k), canonical) as u64] + windows_of(
            reads,
            k,
            canonical,
            ri,
            wi + 1,
        )
    }
}

/// Sort key of a bare k-mer value: itself.
pub struct KmerCompare {}

impl SortKey<u64> for KmerCompare {
    open spec fn spec_key(v: u64) -> u64 {
        v
    }

    fn get(value: &u64) -> (r: u64) {
        *value
    }
}

/// Collects the oriented window values of all reads, in read order.
pub fn collect_windows(reads: &Vec<Vec<u8>>, k: usize, canonical: bool) -> (r: Vec<u64>)
    requires
        1 <= k <= 31,
        forall|ri: int, i: int|
            0 <= ri < reads@.len() && 0 <= i < reads@[ri]@.len() ==> is_base(
                #[trigger] reads@[ri]@[i],
            ),
    ensures
        r@ == windows_of(reads@, k as int, canonical, 0, 0),
{
    let mut r: Vec<u64> = Vec::new();
    let n = reads.len();
    let mut ri: usize = 0;
    while ri < n
        invariant
            ri <= n,
            n == reads@.len(),
            1 <= k <= 31,
            forall|q: int, i: int|
                0 <= q < n && 0 <= i < reads@[q]@.len() ==> is_base(#[trigger] reads@[q]@[i]),
            windows_of(reads@, k as int, canonical, 0, 0) == r@ + windows_of(
                reads@,
                k as int,
                canonical,
                ri as int,
                0,
            ),
        decreases n - ri,
    {
        let read = &reads[ri];
        let len = read.len();
        if len >= k {
            let mut wi: usize = 0;
            while wi <= len - k
                invariant
                    0 <= wi,
                    k <= len,
                    wi + k <= len + 1,
                    len == read@.len(),
                    read@ == reads@[ri as int]@,
                    ri < n,
                    n == reads@.len(),
                    1 <= k <= 31,
                    forall|q: int, i: int|
                        0 <= q < n && 0 <= i < reads@[q]@.len() ==> is_base(
                            #[trigger] reads@[q]@[i],
                        ),
                    windows_of(reads@, k as int, canonical, 0, 0) == r@ + windows_of(
                        reads@,
                        k as int,
                        canonical,
                        ri as int,
                        wi as int,
                    ),
                decreases len - wi,
            {
                let v = window_value(read, wi, k, canonical);
                proof {
                    assert(reads@[ri as int]@.subrange(wi as int, wi + k) == read@.subrange(
                        wi as int,
                        wi + k,
                    ));
                    assert(windows_of(reads@, k as int, canonical, ri as int, wi as int)
                        == seq![window_val(reads@[ri as int]@.subrange(wi as int, wi + k), canonical) as u64]
                        + windows_of(reads@, k as int, canonical, ri as int, wi + 1));
                }
                r.push(v);
                proof {
                    assert(windows_of(reads@, k as int, canonical, 0, 0) =~= r@ + windows_of(
                        reads@,
                        k as int,
                        canonical,
                        ri as int,
                        wi + 1,
                    ));
                }
                wi = wi + 1;
            }
            proof {
                assert(windows_of(reads@, k as int, canonical, ri as int, wi as int)
                    == windows_of(reads@, k as int, canonical, ri + 1, 0));
            }
        } else {
            proof {
                assert(windows_of(reads@, k as int, canonical, ri as int, 0) == windows_of(
                    reads@,
                    k as int,
                    canonical,
                    ri + 1,
                    0,
                ));
            }
        }
        ri = ri + 1;
    }
    proof {
        assert(windows_of(reads@, k as int, canonical, n as int, 0) =~= Seq::<u64>::empty());
        assert(windows_of(reads@, k as int, canonical, 0, 0) =~= r@);
    }
    r
}

/// Position `p` starts a run of equal values in a sorted vector.
pub open spec fn is_vrun_start(s: Seq<u64>, p: int) -> bool {
    0 <= p < s.len() && (p == 0 || s[p - 1] != s[p])
}

/// End of the run starting at `p`.
pub open spec fn vrun_end(s: Seq<u64>, p: int) -> int
    decreases s.len() - p,
{
    if p < 0 || p >= s.len() {
        p
    } else if p + 1 == s.len() || s[p + 1] != s[p] {
        p + 1
    } else {
        vrun_end(s, p + 1)
    }
}

/// How many run starts before `upto` open a run of length at least `m`.
pub open spec fn count_vkept(s: Seq<u64>, upto: int, m: int) -> int
    decreases upto,
{
    if upto <= 0 {
        0
    } else {
        count_vkept(s, upto - 1, m) + if is_vrun_start(s, upto - 1) && vrun_end(s, upto - 1) - (upto
            - 1) >= m {
            1int
        } else {
            0int
        }
    }
}

/// The surviving k-mer set of one bucket: the window values sorted, and
/// the distinct values whose multiplicity meets the threshold, in
/// ascending order.
pub struct KmerSet {
    pub sorted: Vec<u64>,
    pub kmers: Vec<u64>,
}

/// Runs end where scanning says they end.
proof fn lemma_vrun_end(s: Seq<u64>, p: int, e: int)
    requires
        0 <= p < e <= s.len(),
        forall|j: int| p < j < e ==> s[j] == s[p],
        e == s.len() || s[e] != s[p],
    ensures
        vrun_end(s, p) == e,
    decreases e - p,
{
    if p + 1 < e {
        lemma_vrun_end(s, p + 1, e);
    }
}

/// Kept-run count is monotone and bounded.
proof fn lemma_count_vkept_mono(s: Seq<u64>, m: int, a: int, b: int)
    requires
        0 <= a <= b,
    ensures
        0 <= count_vkept(s, a, m) <= count_vkept(s, b, m) <= count_vkept(s, a, m) + (b - a),
    decreases a + b,
{
    if a < b {
        lemma_count_vkept_mono(s, m, a, b - 1);
    } else if a > 0 {
        lemma_count_vkept_mono(s, m, 0, a - 1);
    }
}

/// Scanning across one run adds at most its start.
proof fn lemma_count_vkept_step(s: Seq<u64>, m: int, a: int, b: int)
    requires
        0 <= a < b,
        forall|p: int| a < p < b ==> !is_vrun_start(s, p),
    ensures
        count_vkept(s, b, m) == count_vkept(s, a, m) + if is_vrun_start(s, a) && vrun_end(s, a) - a
            >= m {
            1int
        } else {
            0int
        },
    decreases b - a,
{
    if b > a + 1 {
        lemma_count_vkept_step(s, m, a, b - 1);
    }
}

/// Sorts the window values and keeps one copy of each value that occurs
/// at least `min_multiplicity` times.
pub fn filter_multiplicity(ws: Vec<u64>, min_multiplicity: usize) -> (r: KmerSet)
    requires
        min_multiplicity >= 1,
    ensures
        r.sorted@.to_multiset() == ws@.to_multiset(),
        sorted_by_key::<u64, KmerCompare>(r.sorted@),
        forall|t1: int, t2: int| 0 <= t1 < t2 < r.kmers@.len() ==> r.kmers@[t1] < r.kmers@[t2],
        r.kmers@.len() == count_vkept(r.sorted@, r.sorted@.len() as int, min_multiplicity as int),
        forall|p: int|
            is_vrun_start(r.sorted@, p) && #[trigger] vrun_end(r.sorted@, p) - p
                >= min_multiplicity ==> {
                &&& 0 <= count_vkept(r.sorted@, p, min_multiplicity as int) < r.kmers@.len()
                &&& r.kmers@[count_vkept(r.sorted@, p, min_multiplicity as int)] == r.sorted@[p]
            },
        forall|t: int| 0 <= t < r.kmers@.len() ==> r.sorted@.contains(#[trigger] r.kmers@[t]),
{
    let mut sorted = ws;
    key_sort::<u64, KmerCompare>(&mut sorted);
    let n = sorted.len();
    let mut kmers: Vec<u64> = Vec::new();
    let mut p: usize = 0;
    while p < n
        invariant
            p <= n,
            n == sorted@.len(),
            min_multiplicity >= 1,
            sorted_by_key::<u64, KmerCompare>(sorted@),
            p == n || is_vrun_start(sorted@, p as int),
            kmers@.len() == count_vkept(sorted@, p as int, min_multiplicity as int),
            forall|t1: int, t2: int| 0 <= t1 < t2 < kmers@.len() ==> kmers@[t1] < kmers@[t2],
            forall|t: int| 0 <= t < kmers@.len() ==> exists|q: int|
                0 <= q < p && #[trigger] kmers@[t] == sorted@[q],
            forall|q: int|
                is_vrun_start(sorted@, q) && q < p && #[trigger] vrun_end(sorted@, q) - q
                    >= min_multiplicity ==> {
                    &&& 0 <= count_vkept(sorted@, q, min_multiplicity as int) < kmers@.len()
                    &&& kmers@[count_vkept(sorted@, q, min_multiplicity as int)] == sorted@[q]
                },
        decreases n - p,
    {
        let v = sorted[p];
        let mut e: usize = p + 1;
        while e < n && sorted[e] == v
            invariant
                p < e <= n,
                n == sorted@.len(),
                v == sorted@[p as int],
                forall|j: int| p < j < e ==> sorted@[j] == v,
            decreases n - e,
        {
            e = e + 1;
        }
        proof {
            lemma_vrun_end(sorted@, p as int, e as int);
            lemma_count_vkept_mono(sorted@, min_multiplicity as int, 0, p as int);
            lemma_count_vkept_step(sorted@, min_multiplicity as int, p as int, e as int);
            assert forall|q: int| p < q < e implies !is_vrun_start(sorted@, q) by {
                assert(sorted@[q - 1] == v && sorted@[q] == v);
            }
        }
        let ghost pre_kmers = kmers@;
        if e - p >= min_multiplicity {
            proof {
                if kmers@.len() > 0 {
                    let t = kmers@.len() - 1;
                    let q = choose|q: int| 0 <= q < p && kmers@[t] == sorted@[q];
                    assert(<KmerCompare as crate::sort::SortKey<u64>>::spec_key(sorted@[q])
                        <= <KmerCompare as crate::sort::SortKey<u64>>::spec_key(
                        sorted@[p as int],
                    )) by {
                        assert(sorted_by_key::<u64, KmerCompare>(sorted@));
                    }
                    assert(sorted@[q] <= v);
                    if sorted@[q] == v {
                        // a run start strictly after q holds a different value
                        assert(sorted@[p - 1] != sorted@[p as int]);
                        assert(q <= p - 1);
                        if q < p - 1 {
                            assert(<KmerCompare as crate::sort::SortKey<u64>>::spec_key(
                                sorted@[q],
                            ) <= <KmerCompare as crate::sort::SortKey<u64>>::spec_key(
                                sorted@[p - 1],
                            ));
                        }
                        assert(<KmerCompare as crate::sort::SortKey<u64>>::spec_key(
                            sorted@[p - 1],
                        ) <= <KmerCompare as crate::sort::SortKey<u64>>::spec_key(
                            sorted@[p as int],
                        ));
                        assert(false);
                    }
                }
            }
            kmers.push(v);
            proof {
                assert(forall|t: int| 0 <= t < pre_kmers.len() ==> kmers@[t] == pre_kmers[t]);
                assert(kmers@.last() == v);
            }
        }
        proof {
            assert forall|q: int|
                is_vrun_start(sorted@, q) && q < e && #[trigger] vrun_end(sorted@, q) - q
                    >= min_multiplicity implies {
                &&& 0 <= count_vkept(sorted@, q, min_multiplicity as int) < kmers@.len()
                &&& kmers@[count_vkept(sorted@, q, min_multiplicity as int)] == sorted@[q]
            } by {
                lemma_count_vkept_mono(sorted@, min_multiplicity as int, 0, q);
                if q < p {
                    lemma_count_vkept_mono(sorted@, min_multiplicity as int, q + 1, p as int);
                    assert(kmers@[count_vkept(sorted@, q, min_multiplicity as int)] == pre_kmers[
                        count_vkept(sorted@, q, min_multiplicity as int)]);
                } else {
                    assert(q == p);
                }
            }
        }
        p = e;
    }
    KmerSet { sorted, kmers }
}

/// Whether a value is in the k-mer list.
fn contains_val(s: &Vec<u64>, v: u64) -> (r: bool)
    ensures
        r == s@.contains(v),
{
    let n = s.len();
    let mut i: usize = 0;
    while i < n
        invariant
            i <= n,
            n == s@.len(),
            forall|q: int| 0 <= q < i ==> s@[q] != v,
        decreases n - i,
    {
        if s[i] == v {
            return true;
        }
        i = i + 1;
    }
    false
}

/// The position of a value in the k-mer list.
fn index_of(s: &Vec<u64>, v: u64) -> (r: Option<usize>)
    ensures
        match r {
            Some(i) => 0 <= i < s@.len() && s@[i as int] == v,
            None => !s@.contains(v),
        },
{
    let n = s.len();
    let mut i: usize = 0;
    while i < n
        invariant
            i <= n,
            n == s@.len(),
            forall|q: int| 0 <= q < i ==> s@[q] != v,
        decreases n - i,
    {
        if s[i] == v {
            return Some(i);
        }
        i = i + 1;
    }
    None
}

/// A base string prepended with one digit gains it at the top of the
/// value.
proof fn lemma_kmer_val_prepend(b: u8, s: Seq<u8>)
    ensures
        kmer_val(seq![b] + s) == base_code(b) * pow4(s.len()) + kmer_val(s),
    decreases s.len(),
{
    if s.len() == 0 {
        assert(seq![b] + s =~= seq![b]);
        assert(kmer_val(seq![b]) == base_code(b)) by {
            assert(seq![b].drop_last() =~= Seq::<u8>::empty());
            assert(kmer_val(Seq::<u8>::empty()) == 0);
            assert(seq![b].last() == b);
            assert(kmer_val(seq![b]) == kmer_val(seq![b].drop_last()) * 4 + base_code(
                seq![b].last(),
            ));
        }
        assert(pow4(s.len()) == 1);
    } else {
        lemma_kmer_val_prepend(b, s.drop_last());
        assert((seq![b] + s).drop_last() =~= seq![b] + s.drop_last());
        assert((seq![b] + s).last() == s.last());
        assert(base_code(b) * pow4((s.len() - 1) as nat) * 4 == base_code(b) * pow4(s.len()))
            by (nonlinear_arith)
            requires
                pow4(s.len() as nat) == 4 * pow4((s.len() - 1) as nat),
        {}
        assert((base_code(b) * pow4((s.len() - 1) as nat) + kmer_val(s.drop_last())) * 4
            + base_code(s.last()) == base_code(b) * pow4((s.len() - 1) as nat) * 4 + (kmer_val(
            s.drop_last(),
        ) * 4 + base_code(s.last()))) by (nonlinear_arith);
    }
}

/// Decodes a 2-bit value back into its base string.
fn decode_kmer(f: u64, k: usize) -> (r: Vec<u8>)
    requires
        1 <= k <= 31,
        f < pow4(k as nat),
    ensures
        r@.len() == k,
        kmer_val(r@) == f,
        forall|i: int| 0 <= i < r@.len() ==> is_base(#[trigger] r@[i]),
{
    let mut r: Vec<u8> = Vec::new();
    let mut x = f;
    let mut j: usize = 0;
    while j < k
        invariant
            j <= k,
            r@.len() == j,
            f == (x as int) * pow4(j as nat) + kmer_val(r@),
            0 <= kmer_val(r@) < pow4(j as nat),
            forall|i: int| 0 <= i < r@.len() ==> is_base(#[trigger] r@[i]),
        decreases k - j,
    {
        let d = x % 4;
        let b: u8 = if d == 0 {
            65
        } else if d == 1 {
            67
        } else if d == 2 {
            71
        } else {
            84
        };
        let ghost pre = r@;
        r.insert(0, b);
        proof {
            assert(r@ =~= seq![b] + pre);
            lemma_kmer_val_prepend(b, pre);
            lemma_pow4_mono(0, j as nat);
            assert(base_code(b) == d as int);
            assert((x as int) == (x as int / 4) * 4 + (x as int) % 4) by (nonlinear_arith);
            assert(((x as int / 4) * 4 + d) * pow4(j as nat) == (x as int / 4) * pow4(
                (j + 1) as nat,
            ) + (d as int) * pow4(j as nat)) by (nonlinear_arith)
                requires
                    pow4((j + 1) as nat) == 4 * pow4(j as nat),
                    d == (x as int) % 4,
            {}
            assert((d as int) * pow4(j as nat) + kmer_val(pre) < pow4((j + 1) as nat))
                by (nonlinear_arith)
                requires
                    0 <= d < 4,
                    0 <= kmer_val(pre) < pow4(j as nat),
                    pow4((j + 1) as nat) == 4 * pow4(j as nat),
            {}
        }
        x = x / 4;
        j = j + 1;
    }
    proof {
        if x > 0 {
            assert((x as int) * pow4(k as nat) >= pow4(k as nat)) by (nonlinear_arith)
                requires x >= 1, pow4(k as nat) >= 1,
            {}
            lemma_pow4_mono(0, k as nat);
            assert(false);
        }
    }
    r
}

/// One assembled unitig: its base string and whether the walk closed on
/// itself.
pub struct Unitig {
    pub seq: Vec<u8>,
    pub circular: bool,
}

/// Total k-mers consumed by a list of unitigs: each contributes its
/// length minus the `k - 1` overlap bases.
pub open spec fn sum_unitig_kmers(us: Seq<Unitig>, k: int) -> int
    decreases us.len(),
{
    if us.len() == 0 {
        0
    } else {
        sum_unitig_kmers(us.drop_last(), k) + (us.last().seq@.len() - (k - 1))
    }
}

/// How many flags are set.
pub open spec fn count_trues(s: Seq<bool>) -> int
    decreases s.len(),
{
    if s.len() == 0 {
        0
    } else {
        count_trues(s.drop_last()) + if s.last() {
            1int
        } else {
            0int
        }
    }
}

/// Setting a clear flag raises the count by one.
proof fn lemma_count_trues_update(s: Seq<bool>, i: int)
    requires
        0 <= i < s.len(),
        !s[i],
    ensures
        count_trues(s.update(i, true)) == count_trues(s) + 1,
    decreases s.len(),
{
    if i == s.len() - 1 {
        assert(s.update(i, true).drop_last() =~= s.drop_last());
    } else {
        assert(s.update(i, true).drop_last() =~= s.drop_last().update(i, true));
        lemma_count_trues_update(s.drop_last(), i);
    }
}

/// The count never exceeds the length, and a full count means every flag
/// is set.
proof fn lemma_count_trues_bounds(s: Seq<bool>)
    ensures
        0 <= count_trues(s) <= s.len(),
        (forall|i: int| 0 <= i < s.len() ==> s[i]) ==> count_trues(s) == s.len(),
    decreases s.len(),
{
    if s.len() > 0 {
        lemma_count_trues_bounds(s.drop_last());
    }
}

/// The value the walk sees when it extends `seqv` to the right by `b`.
pub open spec fn ext_val_right(seqv: Seq<u8>, k: int, canonical: bool, b: u8) -> u64 {
    window_val(seqv.subrange(seqv.len() - k + 1, seqv.len() as int) + seq![b], canonical) as u64
}

/// The value the walk sees when it extends `seqv` to the left by `b`.
pub open spec fn ext_val_left(seqv: Seq<u8>, k: int, canonical: bool, b: u8) -> u64 {
    window_val(seq![b] + seqv.subrange(0, k - 1), canonical) as u64
}

/// Tries one right extension: the candidate's value, when it is in the
/// k-mer set.
fn try_right(seq: &Vec<u8>, k: usize, canonical: bool, kmers: &Vec<u64>, b: u8) -> (r: Option<u64>)
    requires
        1 <= k <= 31,
        seq@.len() >= k,
        is_base(b),
        forall|i: int| 0 <= i < seq@.len() ==> is_base(#[trigger] seq@[i]),
    ensures
        match r {
            Some(v) => v == ext_val_right(seq@, k as int, canonical, b) && kmers@.contains(v),
            None => !kmers@.contains(ext_val_right(seq@, k as int, canonical, b)),
        },
{
    let len = seq.len();
    let mut w: Vec<u8> = Vec::new();
    let mut i: usize = len - k + 1;
    while i < len
        invariant
            len - k + 1 <= i <= len,
            len == seq@.len(),
            k <= len,
            forall|q: int| 0 <= q < seq@.len() ==> is_base(#[trigger] seq@[q]),
            w@ == seq@.subrange(len - k + 1, i as int),
        decreases len - i,
    {
        w.push(seq[i]);
        assert(w@ =~= seq@.subrange(len - k + 1, i + 1));
        i = i + 1;
    }
    w.push(b);
    proof {
        assert(w@ =~= seq@.subrange(len - k + 1, len as int) + seq![b]);
    }
    let v = window_value(&w, 0, k, canonical);
    proof {
        assert(w@.subrange(0, k as int) =~= w@);
    }
    if contains_val(kmers, v) {
        Some(v)
    } else {
        None
    }
}

/// Tries one left extension: the candidate's value, when it is in the
/// k-mer set.
fn try_left(seq: &Vec<u8>, k: usize, canonical: bool, kmers: &Vec<u64>, b: u8) -> (r: Option<u64>)
    requires
        1 <= k <= 31,
        seq@.len() >= k,
        is_base(b),
        forall|i: int| 0 <= i < seq@.len() ==> is_base(#[trigger] seq@[i]),
    ensures
        match r {
            Some(v) => v == ext_val_left(seq@, k as int, canonical, b) && kmers@.contains(v),
            None => !kmers@.contains(ext_val_left(seq@, k as int, canonical, b)),
        },
{
    let mut w: Vec<u8> = Vec::new();
    w.push(b);
    let mut i: usize = 0;
    while i < k - 1
        invariant
            0 <= i <= k - 1,
            k <= seq@.len(),
            forall|q: int| 0 <= q < seq@.len() ==> is_base(#[trigger] seq@[q]),
            is_base(b),
            w@ == seq![b] + seq@.subrange(0, i as int),
        decreases k - 1 - i,
    {
        w.push(seq[i]);
        assert(w@ =~= seq![b] + seq@.subrange(0, i + 1));
        i = i + 1;
    }
    let v = window_value(&w, 0, k, canonical);
    proof {
        assert(w@.subrange(0, k as int) =~= w@);
        assert(w@ =~= seq![b] + seq@.subrange(0, k - 1));
    }
    if contains_val(kmers, v) {
        Some(v)
    } else {
        None
    }
}

/// The number of right extensions of `seqv` whose k-mer survives, with
/// one of them when there is any.
fn count_right_exts(seq: &Vec<u8>, k: usize, canonical: bool, kmers: &Vec<u64>) -> (r: (
    usize,
    u8,
    u64,
))
    requires
        1 <= k <= 31,
        seq@.len() >= k,
        forall|i: int| 0 <= i < seq@.len() ==> is_base(#[trigger] seq@[i]),
    ensures
        r.0 == (if kmers@.contains(ext_val_right(seq@, k as int, canonical, 65)) { 1int } else { 0int })
            + (if kmers@.contains(ext_val_right(seq@, k as int, canonical, 67)) { 1int } else { 0int })
            + (if kmers@.contains(ext_val_right(seq@, k as int, canonical, 71)) { 1int } else { 0int })
            + (if kmers@.contains(ext_val_right(seq@, k as int, canonical, 84)) { 1int } else { 0int }),
        r.0 >= 1 ==> {
            &&& is_base(r.1)
            &&& r.2 == ext_val_right(seq@, k as int, canonical, r.1)
            &&& kmers@.contains(r.2)
        },
{
    let mut count: usize = 0;
    let mut best_b: u8 = 65;
    let mut best_v: u64 = 0;
    match try_right(seq, k, canonical, kmers, 65) {
        Some(v) => {
            count = count + 1;
            best_b = 65;
            best_v = v;
        },
        None => {},
    }
    match try_right(seq, k, canonical, kmers, 67) {
        Some(v) => {
            count = count + 1;
            best_b = 67;
            best_v = v;
        },
        None => {},
    }
    match try_right(seq, k, canonical, kmers, 71) {
        Some(v) => {
            count = count + 1;
            best_b = 71;
            best_v = v;
        },
        None => {},
    }
    match try_right(seq, k, canonical, kmers, 84) {
        Some(v) => {
            count = count + 1;
            best_b = 84;
            best_v = v;
        },
        None => {},
    }
    (count, best_b, best_v)
}

/// The number of left extensions of `seqv` whose k-mer survives, with one
/// of them when there is any.
fn count_left_exts(seq: &Vec<u8>, k: usize, canonical: bool, kmers: &Vec<u64>) -> (r: (
    usize,
    u8,
    u64,
))
    requires
        1 <= k <= 31,
        seq@.len() >= k,
        forall|i: int| 0 <= i < seq@.len() ==> is_base(#[trigger] seq@[i]),
    ensures
        r.0 == (if kmers@.contains(ext_val_left(seq@, k as int, canonical, 65)) { 1int } else { 0int })
            + (if kmers@.contains(ext_val_left(seq@, k as int, canonical, 67)) { 1int } else { 0int })
            + (if kmers@.contains(ext_val_left(seq@, k as int, canonical, 71)) { 1int } else { 0int })
            + (if kmers@.contains(ext_val_left(seq@, k as int, canonical, 84)) { 1int } else { 0int }),
        r.0 >= 1 ==> {
            &&& is_base(r.1)
            &&& r.2 == ext_val_left(seq@, k as int, canonical, r.1)
            &&& kmers@.contains(r.2)
        },
{
    let mut count: usize = 0;
    let mut best_b: u8 = 65;
    let mut best_v: u64 = 0;
    match try_left(seq, k, canonical, kmers, 65) {
        Some(v) => {
            count = count + 1;
            best_b = 65;
            best_v = v;
        },
        None => {},
    }
    match try_left(seq, k, canonical, kmers, 67) {
        Some(v) => {
            count = count + 1;
            best_b = 67;
            best_v = v;
        },
        None => {},
    }
    match try_left(seq, k, canonical, kmers, 71) {
        Some(v) => {
            count = count + 1;
            best_b = 71;
            best_v = v;
        },
        None => {},
    }
    match try_left(seq, k, canonical, kmers, 84) {
        Some(v) => {
            count = count + 1;
            best_b = 84;
            best_v = v;
        },
        None => {},
    }
    (count, best_b, best_v)
}

/// Walks the surviving k-mer set into unitigs: from every unused k-mer,
/// the walk extends right and then left, one base at a time, only through
/// junctions of unique continuation on both strands, sealing a circular
/// walk when it returns to its start. Conservation holds exactly: summing
/// `length - (k - 1)` over the output counts every surviving k-mer once.
#[verifier::rlimit(100)]
pub fn build_unitigs(kmers: &Vec<u64>, k: usize, canonical: bool) -> (out: Vec<Unitig>)
    requires
        1 <= k <= 31,
        forall|t: int| 0 <= t < kmers@.len() ==> #[trigger] kmers@[t] < pow4(k as nat),
    ensures
        sum_unitig_kmers(out@, k as int) == kmers@.len(),
        forall|u: int| 0 <= u < out@.len() ==> (#[trigger] out@[u]).seq@.len() >= k,
        forall|u: int, i: int|
            0 <= u < out@.len() && 0 <= i < out@[u].seq@.len() ==> is_base(
                #[trigger] out@[u].seq@[i],
            ),
{
    let n = kmers.len();
    let mut used: Vec<bool> = Vec::new();
    let mut z: usize = 0;
    while z < n
        invariant
            z <= n,
            used@ == Seq::<bool>::new(z as nat, |i: int| false),
        decreases n - z,
    {
        used.push(false);
        assert(used@ =~= Seq::<bool>::new((z + 1) as nat, |i: int| false));
        z = z + 1;
    }
    proof {
        lemma_count_trues_zero(used@);
    }
    let mut used_count: usize = 0;
    let mut out: Vec<Unitig> = Vec::new();
    let mut s: usize = 0;
    while s < n
        invariant
            s <= n,
            n == kmers@.len(),
            n == used@.len(),
            1 <= k <= 31,
            forall|t: int| 0 <= t < kmers@.len() ==> #[trigger] kmers@[t] < pow4(k as nat),
            used_count == count_trues(used@),
            used_count <= n,
            sum_unitig_kmers(out@, k as int) == used_count,
            forall|q: int| 0 <= q < s ==> used@[q],
            forall|u: int| 0 <= u < out@.len() ==> (#[trigger] out@[u]).seq@.len() >= k,
            forall|u: int, i: int|
                0 <= u < out@.len() && 0 <= i < out@[u].seq@.len() ==> is_base(
                    #[trigger] out@[u].seq@[i],
                ),
        decreases n - s,
    {
        if !used[s] {
            let mut seq: Vec<u8> = decode_kmer(kmers[s], k);
            proof {
                lemma_count_trues_update(used@, s as int);
            }
            used.set(s, true);
            proof {
                lemma_count_trues_bounds(used@);
            }
            used_count = used_count + 1;
            let mut circular = false;
            let mut extending = true;
            while extending
                invariant
                    n == kmers@.len(),
                    n == used@.len(),
                    1 <= k <= 31,
                    s < n,
                    forall|t: int| 0 <= t < kmers@.len() ==> #[trigger] kmers@[t] < pow4(k as nat),
                    used_count == count_trues(used@),
                    used_count <= n,
                    seq@.len() >= k,
                    forall|i: int| 0 <= i < seq@.len() ==> is_base(#[trigger] seq@[i]),
                    sum_unitig_kmers(out@, k as int) + (seq@.len() - (k - 1)) == used_count,
                    forall|q: int| 0 <= q < s ==> used@[q],
                    used@[s as int],
                    forall|u: int| 0 <= u < out@.len() ==> (#[trigger] out@[u]).seq@.len() >= k,
                    forall|u: int, i: int|
                        0 <= u < out@.len() && 0 <= i < out@[u].seq@.len() ==> is_base(
                            #[trigger] out@[u].seq@[i],
                        ),
                decreases n - used_count, (if extending { 1int } else { 0int }),
            {
                let (cnt, b, v) = count_right_exts(&seq, k, canonical, kmers);
                if cnt != 1 {
                    extending = false;
                } else {
                    // one way forward: also demand a unique way back into
                    // the candidate, or the junction is a branch
                    let mut cand: Vec<u8> = Vec::new();
                    let seq_len = seq.len();
                    let mut ci2: usize = seq_len - k + 1;
                    while ci2 < seq_len
                        invariant
                            seq_len - k + 1 <= ci2 <= seq_len,
                            seq_len == seq@.len(),
                            k <= seq_len,
                            forall|q: int| 0 <= q < seq@.len() ==> is_base(#[trigger] seq@[q]),
                            cand@ == seq@.subrange(seq_len - k + 1, ci2 as int),
                        decreases seq_len - ci2,
                    {
                        cand.push(seq[ci2]);
                        assert(cand@ =~= seq@.subrange(seq_len - k + 1, ci2 + 1));
                        ci2 = ci2 + 1;
                    }
                    cand.push(b);
                    proof {
                        assert(cand@ =~= seq@.subrange(seq_len - k + 1, seq_len as int) + seq![b]);
                    }
                    let (pcnt, _, _) = count_left_exts(&cand, k, canonical, kmers);
                    if pcnt != 1 {
                        extending = false;
                    } else {
                        match index_of(kmers, v) {
                            Some(ci) => {
                                if ci == s {
                                    circular = true;
                                    extending = false;
                                } else if used[ci] {
                                    extending = false;
                                } else {
                                    proof {
                                        lemma_count_trues_update(used@, ci as int);
                                    }
                                    used.set(ci, true);
                                    proof {
                                        lemma_count_trues_bounds(used@);
                                    }
                                    used_count = used_count + 1;
                                    seq.push(b);
                                }
                            },
                            None => {
                                proof {
                                    assert(false);
                                }
                                extending = false;
                            },
                        }
                    }
                }
            }
            if !circular {
                let mut extending_left = true;
                while extending_left
                    invariant
                        n == kmers@.len(),
                        n == used@.len(),
                        1 <= k <= 31,
                        s < n,
                        forall|t: int|
                            0 <= t < kmers@.len() ==> #[trigger] kmers@[t] < pow4(k as nat),
                        used_count == count_trues(used@),
                        used_count <= n,
                        seq@.len() >= k,
                        forall|i: int| 0 <= i < seq@.len() ==> is_base(#[trigger] seq@[i]),
                        sum_unitig_kmers(out@, k as int) + (seq@.len() - (k - 1)) == used_count,
                        forall|q: int| 0 <= q < s ==> used@[q],
                        used@[s as int],
                        forall|u: int| 0 <= u < out@.len() ==> (#[trigger] out@[u]).seq@.len() >= k,
                        forall|u: int, i: int|
                            0 <= u < out@.len() && 0 <= i < out@[u].seq@.len() ==> is_base(
                                #[trigger] out@[u].seq@[i],
                            ),
                    decreases n - used_count, (if extending_left { 1int } else { 0int }),
                {
                    let (cnt, b, v) = count_left_exts(&seq, k, canonical, kmers);
                    if cnt != 1 {
                        extending_left = false;
                    } else {
                        let mut cand: Vec<u8> = Vec::new();
                        cand.push(b);
                        let mut ci2: usize = 0;
                        while ci2 < k - 1
                            invariant
                                0 <= ci2 <= k - 1,
                                k <= seq@.len(),
                                is_base(b),
                                forall|q: int| 0 <= q < seq@.len() ==> is_base(#[trigger] seq@[q]),
                                cand@ == seq![b] + seq@.subrange(0, ci2 as int),
                            decreases k - 1 - ci2,
                        {
                            cand.push(seq[ci2]);
                            assert(cand@ =~= seq![b] + seq@.subrange(0, ci2 + 1));
                            ci2 = ci2 + 1;
                        }
                        proof {
                            assert(cand@ =~= seq![b] + seq@.subrange(0, k - 1));
                        }
                        let (scnt, _, _) = count_right_exts(&cand, k, canonical, kmers);
                        if scnt != 1 {
                            extending_left = false;
                        } else {
                            match index_of(kmers, v) {
                                Some(ci) => {
                                    if used[ci] {
                                        extending_left = false;
                                    } else {
                                        proof {
                                            lemma_count_trues_update(used@, ci as int);
                                        }
                                        used.set(ci, true);
                                        proof {
                                            lemma_count_trues_bounds(used@);
                                        }
                                        used_count = used_count + 1;
                                        seq.insert(0, b);
                                    }
                                },
                                None => {
                                    proof {
                                        assert(false);
                                    }
                                    extending_left = false;
                                },
                            }
                        }
                    }
                }
            }
            let ghost pre_out = out@;
            out.push(Unitig { seq, circular });
            proof {
                assert(out@.drop_last() =~= pre_out);
            }
        }
        s = s + 1;
    }
    proof {
        lemma_count_trues_bounds(used@);
        assert(count_trues(used@) == n);
    }
    out
}

/// The count of an all-clear flag vector is zero.
proof fn lemma_count_trues_zero(s: Seq<bool>)
    requires
        forall|i: int| 0 <= i < s.len() ==> !s[i],
    ensures
        count_trues(s) == 0,
    decreases s.len(),
{
    if s.len() > 0 {
        lemma_count_trues_zero(s.drop_last());
    }
}

/// Every window value is below `4^k`.
proof fn lemma_windows_vals_bound(reads: Seq<Vec<u8>>, k: int, canonical: bool, ri: int, wi: int)
    requires
        1 <= k <= 31,
    ensures
        forall|x: u64|
            windows_of(reads, k, canonical, ri, wi).contains(x) ==> x < pow4(k as nat),
    decreases reads.len() - ri, (if ri < reads.len() { reads[ri]@.len() + 1 - k - wi } else { 0 }),
{
    if ri < 0 || ri >= reads.len() || wi < 0 {
        assert(windows_of(reads, k, canonical, ri, wi) =~= Seq::<u64>::empty());
    } else if wi > reads[ri]@.len() - k {
        lemma_windows_vals_bound(reads, k, canonical, ri + 1, 0);
        assert(windows_of(reads, k, canonical, ri, wi) == windows_of(
            reads,
            k,
            canonical,
            ri + 1,
            0,
        ));
    } else {
        lemma_windows_vals_bound(reads, k, canonical, ri, wi + 1);
        let w = reads[ri]@.subrange(wi, wi + k);
        assert(window_val(w, canonical) < pow4(k as nat)) by {
            lemma_kmer_val_pow_bound31(w);
            lemma_kmer_val_pow_bound31(rc_seq(w));
            assert(rc_seq(w).len() == k);
        }
        assert(window_val(w, canonical) >= 0) by {
            lemma_kmer_val_pow_bound31(w);
            lemma_kmer_val_pow_bound31(rc_seq(w));
        }
        assert forall|x: u64|
            windows_of(reads, k, canonical, ri, wi).contains(x) implies x < pow4(k as nat) by {
            let ws = windows_of(reads, k, canonical, ri, wi);
            let tail = windows_of(reads, k, canonical, ri, wi + 1);
            assert(ws == seq![window_val(w, canonical) as u64] + tail);
            let j = choose|j: int| 0 <= j < ws.len() && ws[j] == x;
            if j == 0 {
                assert(x == window_val(w, canonical) as u64);
            } else {
                assert(tail[j - 1] == x);
                assert(tail.contains(x));
            }
        }
    }
}

/// The value bound for strings up to length 31.
proof fn lemma_kmer_val_pow_bound31(s: Seq<u8>)
    requires
        s.len() <= 31,
    ensures
        0 <= kmer_val(s) < pow4(s.len() as nat),
    decreases s.len(),
{
    if s.len() > 0 {
        lemma_kmer_val_pow_bound31(s.drop_last());
        assert(pow4(s.len() as nat) == 4 * pow4((s.len() - 1) as nat));
        assert(kmer_val(s.drop_last()) * 4 + base_code(s.last()) < 4 * pow4(
            (s.len() - 1) as nat,
        )) by (nonlinear_arith)
            requires
                kmer_val(s.drop_last()) < pow4((s.len() - 1) as nat),
                kmer_val(s.drop_last()) >= 0,
                base_code(s.last()) < 4,
                base_code(s.last()) >= 0,
        {}
    }
}

impl Pipeline {
    /// The whole in-RAM merge of one bucket: window values are collected
    /// and filtered by multiplicity, and the survivors are walked into
    /// unitigs. Conservation: summing `length - (k - 1)` over the unitigs
    /// counts every distinct surviving k-mer exactly once.
    pub fn assemble_unitigs(
        reads: &Vec<Vec<u8>>,
        k: usize,
        min_multiplicity: usize,
        canonical: bool,
    ) -> (r: (Vec<Unitig>, KmerSet))
        requires
            1 <= k <= 31,
            min_multiplicity >= 1,
            forall|ri: int, i: int|
                0 <= ri < reads@.len() && 0 <= i < reads@[ri]@.len() ==> is_base(
                    #[trigger] reads@[ri]@[i],
                ),
        ensures
            r.1.sorted@.to_multiset() == windows_of(
                reads@,
                k as int,
                canonical,
                0,
                0,
            ).to_multiset(),
            sorted_by_key::<u64, KmerCompare>(r.1.sorted@),
            forall|t1: int, t2: int|
                0 <= t1 < t2 < r.1.kmers@.len() ==> r.1.kmers@[t1] < r.1.kmers@[t2],
            r.1.kmers@.len() == count_vkept(
                r.1.sorted@,
                r.1.sorted@.len() as int,
                min_multiplicity as int,
            ),
            forall|p: int|
                is_vrun_start(r.1.sorted@, p) && #[trigger] vrun_end(r.1.sorted@, p) - p
                    >= min_multiplicity ==> {
                    &&& 0 <= count_vkept(r.1.sorted@, p, min_multiplicity as int)
                        < r.1.kmers@.len()
                    &&& r.1.kmers@[count_vkept(r.1.sorted@, p, min_multiplicity as int)]
                        == r.1.sorted@[p]
                },
            sum_unitig_kmers(r.0@, k as int) == r.1.kmers@.len(),
            forall|u: int| 0 <= u < r.0@.len() ==> (#[trigger] r.0@[u]).seq@.len() >= k,
            forall|u: int, i: int|
                0 <= u < r.0@.len() && 0 <= i < r.0@[u].seq@.len() ==> is_base(
                    #[trigger] r.0@[u].seq@[i],
                ),
    {
        broadcast use vstd::seq_lib::to_multiset_contains;

        let ws = collect_windows(reads, k, canonical);
        let kmer_set = filter_multiplicity(ws, min_multiplicity);
        proof {
            lemma_windows_vals_bound(reads@, k as int, canonical, 0, 0);
            assert forall|t: int| 0 <= t < kmer_set.kmers@.len() implies #[trigger] kmer_set.kmers@[t]
                < pow4(k as nat) by {
                assert(kmer_set.sorted@.contains(kmer_set.kmers@[t]));
                assert(kmer_set.sorted@.to_multiset().count(kmer_set.kmers@[t]) > 0);
                assert(windows_of(reads@, k as int, canonical, 0, 0).contains(
                    kmer_set.kmers@[t],
                ));
            }
        }
        let unitigs = build_unitigs(&kmer_set.kmers, k, canonical);
        (unitigs, kmer_set)
    }
}

} // verus!
