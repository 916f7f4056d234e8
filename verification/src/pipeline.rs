//! The pipeline facade: N-splitting of reads and minimizer-driven bucket
//! assignment. A read's k-windows are hashed with a canonical rolling
//! hash; windows whose hash passes a fixed threshold are candidates, and
//! the read goes to the bucket of the smallest candidate. The phases that
//! operate on bucket contents hang off the same type from their own
//! modules.

use vstd::prelude::*;

verus! {

/// Namespace for the pipeline's phases.
pub struct Pipeline;

/// A window hash passes the minimizer filter when it is below one percent
/// of the hash range.
pub const MINIMIZER_THRESHOLD_VALUE: u64 = 184467440737095520;

/// The read alphabet: the four bases and the separator N.
pub open spec fn is_acgtn(b: u8) -> bool {
    b == 65 || b == 67 || b == 71 || b == 84 || b == 78
}

/// Watson-Crick complement of one base (N maps to itself).
pub open spec fn comp_base(b: u8) -> u8 {
    if b == 65 {
        84
    } else if b == 84 {
        65
    } else if b == 67 {
        71
    } else if b == 71 {
        67
    } else {
        b
    }
}

/// Reverse complement of a sequence.
pub open spec fn rc_seq(s: Seq<u8>) -> Seq<u8> {
    Seq::new(s.len(), |i: int| comp_base(s[s.len() - 1 - i]))
}

/// Lexicographic order on byte sequences.
pub open spec fn lex_le(a: Seq<u8>, b: Seq<u8>) -> bool
    decreases a.len(),
{
    if a.len() == 0 {
        true
    } else if b.len() == 0 {
        false
    } else if a[0] < b[0] {
        true
    } else if a[0] > b[0] {
        false
    } else {
        lex_le(a.skip(1), b.skip(1))
    }
}

/// The canonical form of a window: the lexicographic minimum of the window
/// and its reverse complement.
pub open spec fn canonical_repr(s: Seq<u8>) -> Seq<u8> {
    if lex_le(s, rc_seq(s)) {
        s
    } else {
        rc_seq(s)
    }
}

/// The value of the canonical rolling hash on a canonical window. The
/// hash is strand-neutral, so it is a function of the canonical form
/// alone; what that function computes is left to the hash crate.
pub uninterp spec fn nt_hash_base(s: Seq<u8>) -> u64;

/// The canonical hash of a window: the hash of its canonical form.
pub open spec fn nt_canon_of(s: Seq<u8>) -> u64 {
    nt_hash_base(canonical_repr(s))
}

/// Relies on nthash::NtHashIterator: one canonical ntHash value per
/// k-window of the sequence, in window order. The crate computes the
/// minimum of the forward-strand and reverse-strand hashes, and its
/// lookup tables give h(complement(b)) == rc(b), so the value is the same
/// function of the window and of its reverse complement: a function of
/// the window's canonical form alone. Panics only on bytes outside
/// ACGTN and on k larger than the sequence, both excluded here.
#[verifier::external_body]
pub(crate) fn nt_canon_hashes(seq: &Vec<u8>, k: usize) -> (r: Vec<u64>)
    requires
        1 <= k <= seq@.len(),
        k <= 0xffff_ffff,
        forall|i: int| 0 <= i < seq@.len() ==> is_acgtn(#[trigger] seq@[i]),
    ensures
        r@.len() == seq@.len() - k + 1,
        forall|i: int|
            0 <= i < r@.len() ==> r@[i] == nt_hash_base(
                canonical_repr(#[trigger] seq@.subrange(i, i + k)),
            ),
        forall|i: int|
            0 <= i < r@.len() ==> r@[i] == nt_canon_of(#[trigger] seq@.subrange(i, i + k)),
{
    nthash::NtHashIterator::new(seq.as_slice(), k).unwrap().collect()
}

/// The pair the minimizer selection minimizes for candidate window `i`:
/// the window's bucket, then its position.
pub open spec fn window_bucket(read: Seq<u8>, k: int, nbuckets: int, i: int) -> int {
    (nt_canon_of(read.subrange(i, i + k)) as int) % nbuckets
}

/// Window `i` passes the minimizer threshold filter.
pub open spec fn is_candidate(read: Seq<u8>, k: int, i: int) -> bool {
    nt_canon_of(read.subrange(i, i + k)) < MINIMIZER_THRESHOLD_VALUE
}

/// The minimizer selection is right for `read`: `r` names the candidate
/// window with the smallest `(bucket, position)` pair, or nothing when no
/// window passes the threshold.
pub open spec fn chosen_ok(read: Seq<u8>, k: int, nbuckets: int, r: Option<(usize, usize)>) -> bool {
    let nw = read.len() - k + 1;
    match r {
        Some((b, pos)) => {
            &&& 0 <= pos < nw
            &&& is_candidate(read, k, pos as int)
            &&& b == window_bucket(read, k, nbuckets, pos as int)
            &&& forall|i: int|
                0 <= i < nw && #[trigger] is_candidate(read, k, i) ==> (b < window_bucket(
                    read,
                    k,
                    nbuckets,
                    i,
                ) || (b == window_bucket(read, k, nbuckets, i) && pos <= i))
        },
        None => forall|i: int| 0 <= i < nw ==> !(#[trigger] is_candidate(read, k, i)),
    }
}

impl Pipeline {
    /// Picks the bucket of a read: among the windows whose canonical hash
    /// passes the threshold, the smallest `(bucket, position)` pair wins;
    /// a read with no candidate window is assigned nowhere.
    pub fn compute_chosen_bucket(read: &Vec<u8>, k: usize, nbuckets: usize) -> (r: Option<(usize, usize)>)
        requires
            1 <= k <= read@.len(),
            k <= 0xffff_ffff,
            nbuckets >= 1,
            forall|i: int| 0 <= i < read@.len() ==> is_acgtn(#[trigger] read@[i]),
        ensures
            chosen_ok(read@, k as int, nbuckets as int, r),
    {
        let hashes = nt_canon_hashes(read, k);
        let mut best: Option<(usize, usize)> = None;
        let mut i: usize = 0;
        let n = hashes.len();
        while i < n
            invariant
                i <= n,
                n == read@.len() - k + 1,
                n == hashes@.len(),
                nbuckets >= 1,
                forall|q: int|
                    0 <= q < n ==> hashes@[q] == nt_canon_of(
                        #[trigger] read@.subrange(q, q + k),
                    ),
                match best {
                    Some((b, pos)) => {
                        &&& 0 <= pos < i
                        &&& is_candidate(read@, k as int, pos as int)
                        &&& b == window_bucket(read@, k as int, nbuckets as int, pos as int)
                        &&& forall|q: int|
                            0 <= q < i && #[trigger] is_candidate(read@, k as int, q) ==> (b
                                < window_bucket(read@, k as int, nbuckets as int, q) || (b
                                == window_bucket(read@, k as int, nbuckets as int, q) && pos <= q))
                    },
                    None => forall|q: int|
                        0 <= q < i ==> !(#[trigger] is_candidate(read@, k as int, q)),
                },
            decreases n - i,
        {
            let h = hashes[i];
            if h < MINIMIZER_THRESHOLD_VALUE {
                let b = (h % (nbuckets as u64)) as usize;
                assert(b == window_bucket(read@, k as int, nbuckets as int, i as int));
                match best {
                    Some((bb, _)) => {
                        if b < bb {
                            best = Some((b, i));
                        }
                    },
                    None => {
                        best = Some((b, i));
                    },
                }
            }
            i = i + 1;
        }
        best
    }
}

/// End of the N-free record starting at `a`: the first position at or
/// after `a` that holds an N or falls off the read.
pub open spec fn record_end(s: Seq<u8>, a: int) -> int
    decreases s.len() - a,
{
    if a < 0 || a >= s.len() || s[a] == 78 {
        a
    } else {
        record_end(s, a + 1)
    }
}

/// Position `a` starts a record: it is the beginning of the read or
/// directly after a separator.
pub open spec fn is_record_start(s: Seq<u8>, a: int) -> bool {
    0 <= a <= s.len() && (a == 0 || s[a - 1] == 78)
}

/// How many record starts before `upto` open a record of length at least
/// `k`.
pub open spec fn count_kept(s: Seq<u8>, upto: int, k: int) -> int
    decreases upto,
{
    if upto <= 0 {
        0
    } else {
        count_kept(s, upto - 1, k) + if is_record_start(s, upto - 1) && record_end(s, upto - 1) - (
        upto - 1) >= k {
            1int
        } else {
            0int
        }
    }
}

/// The record starting at `a` ends at `e` when no separator sits between
/// them and `e` is a boundary.
proof fn lemma_record_end(s: Seq<u8>, a: int, e: int)
    requires
        0 <= a <= e <= s.len(),
        forall|j: int| a <= j < e ==> s[j] != 78,
        e == s.len() || s[e] == 78,
    ensures
        record_end(s, a) == e,
    decreases e - a,
{
    if a < e {
        lemma_record_end(s, a + 1, e);
    }
}

/// Kept-record count never decreases and never exceeds the positions
/// scanned.
proof fn lemma_count_kept_mono(s: Seq<u8>, k: int, a: int, b: int)
    requires
        0 <= a <= b,
    ensures
        0 <= count_kept(s, a, k) <= count_kept(s, b, k) <= count_kept(s, a, k) + (b - a),
    decreases a + b,
{
    if a < b {
        lemma_count_kept_mono(s, k, a, b - 1);
    } else if a > 0 {
        lemma_count_kept_mono(s, k, 0, a - 1);
    }
}

/// Scanning across one record (and its separator) adds its start and no
/// other.
proof fn lemma_count_kept_step(s: Seq<u8>, k: int, a: int, b: int)
    requires
        0 <= a < b,
        forall|p: int| a < p < b ==> !is_record_start(s, p),
    ensures
        count_kept(s, b, k) == count_kept(s, a, k) + if is_record_start(s, a) && record_end(s, a)
            - a >= k {
            1int
        } else {
            0int
        },
    decreases b - a,
{
    if b > a + 1 {
        lemma_count_kept_step(s, k, a, b - 1);
    }
}

impl Pipeline {
    /// Splits a read at every N into its maximal N-free records and keeps
    /// those of length at least `k`, in read order.
    pub fn cut_n(read: &Vec<u8>, k: usize) -> (out: Vec<Vec<u8>>)
        requires
            read@.len() < usize::MAX,
        ensures
            out@.len() == count_kept(read@, read@.len() + 1 as int, k as int),
            forall|a: int|
                is_record_start(read@, a) && #[trigger] record_end(read@, a) - a >= k ==> {
                    &&& 0 <= count_kept(read@, a, k as int) < out@.len()
                    &&& out@[count_kept(read@, a, k as int)]@ == read@.subrange(
                        a,
                        record_end(read@, a),
                    )
                },
    {
        let n = read.len();
        let mut out: Vec<Vec<u8>> = Vec::new();
        let mut a: usize = 0;
        while a <= n
            invariant
                n == read@.len(),
                n < usize::MAX,
                a <= n + 1,
                a <= n ==> is_record_start(read@, a as int),
                out@.len() == count_kept(read@, a as int, k as int),
                forall|p: int|
                    is_record_start(read@, p) && p < a && #[trigger] record_end(read@, p) - p
                        >= k ==> {
                        &&& 0 <= count_kept(read@, p, k as int) < out@.len()
                        &&& out@[count_kept(read@, p, k as int)]@ == read@.subrange(
                            p,
                            record_end(read@, p),
                        )
                    },
            decreases n + 1 - a,
        {
            let ghost pre_out = out@;
            let mut e: usize = a;
            while e < n && read[e] != 78
                invariant
                    a <= e <= n,
                    n == read@.len(),
                    forall|j: int| a <= j < e ==> read@[j] != 78,
                decreases n - e,
            {
                e = e + 1;
            }
            proof {
                lemma_record_end(read@, a as int, e as int);
            }
            if e - a >= k {
                let mut rec: Vec<u8> = Vec::new();
                let mut j: usize = a;
                while j < e
                    invariant
                        a <= j <= e <= n,
                        n == read@.len(),
                        rec@ == read@.subrange(a as int, j as int),
                    decreases e - j,
                {
                    rec.push(read[j]);
                    assert(rec@ =~= read@.subrange(a as int, j + 1));
                    j = j + 1;
                }
                out.push(rec);
            }
            proof {
                assert forall|p: int| a < p < e + 1 implies !is_record_start(read@, p) by {
                    assert(read@[p - 1] != 78);
                }
                lemma_count_kept_step(read@, k as int, a as int, e + 1);
                assert forall|p: int|
                    is_record_start(read@, p) && p < e + 1 && #[trigger] record_end(read@, p) - p
                        >= k implies {
                    &&& 0 <= count_kept(read@, p, k as int) < out@.len()
                    &&& out@[count_kept(read@, p, k as int)]@ == read@.subrange(
                        p,
                        record_end(read@, p),
                    )
                } by {
                    lemma_count_kept_mono(read@, k as int, 0, p);
                    if p < a {
                        lemma_count_kept_mono(read@, k as int, p + 1, a as int);
                        assert(out@[count_kept(read@, p, k as int)] == pre_out[count_kept(
                            read@,
                            p,
                            k as int,
                        )]);
                    } else {
                        assert(p == a);
                    }
                }
            }
            a = e + 1;
        }
        proof {
            assert(a == n + 1);
        }
        out
    }

    /// Assigns every read to its minimizer bucket: for each read, the
    /// chosen `(bucket, window position)` pair, or nothing when no window
    /// passes the threshold.
    pub fn make_buckets(reads: &Vec<Vec<u8>>, k: usize, numbuckets: usize) -> (r: Vec<
        Option<(usize, usize)>,
    >)
        requires
            1 <= k <= 0xffff_ffff,
            numbuckets >= 1,
            forall|ri: int|
                0 <= ri < reads@.len() ==> (#[trigger] reads@[ri])@.len() >= k,
            forall|ri: int, i: int|
                0 <= ri < reads@.len() && 0 <= i < reads@[ri]@.len() ==> is_acgtn(
                    #[trigger] reads@[ri]@[i],
                ),
        ensures
            r@.len() == reads@.len(),
            forall|ri: int|
                0 <= ri < reads@.len() ==> chosen_ok(
                    (#[trigger] reads@[ri])@,
                    k as int,
                    numbuckets as int,
                    r@[ri],
                ),
    {
        let mut r: Vec<Option<(usize, usize)>> = Vec::new();
        let mut ri: usize = 0;
        let n = reads.len();
        while ri < n
            invariant
                ri <= n,
                n == reads@.len(),
                1 <= k <= 0xffff_ffff,
                numbuckets >= 1,
                forall|q: int| 0 <= q < n ==> (#[trigger] reads@[q])@.len() >= k,
                forall|q: int, i: int|
                    0 <= q < n && 0 <= i < reads@[q]@.len() ==> is_acgtn(
                        #[trigger] reads@[q]@[i],
                    ),
                r@.len() == ri,
                forall|q: int|
                    0 <= q < ri ==> chosen_ok(
                        (#[trigger] reads@[q])@,
                        k as int,
                        numbuckets as int,
                        r@[q],
                    ),
            decreases n - ri,
        {
            let choice = Pipeline::compute_chosen_bucket(&reads[ri], k, numbuckets);
            r.push(choice);
            ri = ri + 1;
        }
        r
    }

    /// The minimizer window of every read, taken with the fixed bucket
    /// count the save pass uses; a read without a candidate window yields
    /// nothing.
    pub fn save_minimals(reads: &Vec<Vec<u8>>, k: usize) -> (r: Vec<Option<Vec<u8>>>)
        requires
            1 <= k <= 0xffff_ffff,
            forall|ri: int|
                0 <= ri < reads@.len() ==> (#[trigger] reads@[ri])@.len() >= k,
            forall|ri: int, i: int|
                0 <= ri < reads@.len() && 0 <= i < reads@[ri]@.len() ==> is_acgtn(
                    #[trigger] reads@[ri]@[i],
                ),
        ensures
            r@.len() == reads@.len(),
            forall|ri: int|
                0 <= ri < reads@.len() ==> minimal_window_ok(
                    (#[trigger] reads@[ri])@,
                    k as int,
                    r@[ri],
                ),
    {
        let mut r: Vec<Option<Vec<u8>>> = Vec::new();
        let mut ri: usize = 0;
        let n = reads.len();
        while ri < n
            invariant
                ri <= n,
                n == reads@.len(),
                1 <= k <= 0xffff_ffff,
                forall|q: int| 0 <= q < n ==> (#[trigger] reads@[q])@.len() >= k,
                forall|q: int, i: int|
                    0 <= q < n && 0 <= i < reads@[q]@.len() ==> is_acgtn(
                        #[trigger] reads@[q]@[i],
                    ),
                r@.len() == ri,
                forall|q: int|
                    0 <= q < ri ==> minimal_window_ok((#[trigger] reads@[q])@, k as int, r@[q]),
            decreases n - ri,
        {
            let read = &reads[ri];
            let ghost pre_r = r@;
            match Pipeline::compute_chosen_bucket(read, k, 256) {
                Some((b, pos)) => {
                    proof {
                        assert(chosen_ok(read@, k as int, 256, Some((b, pos))));
                        assert(pos + k <= read@.len());
                    }
                    let rn = read.len();
                    let mut w: Vec<u8> = Vec::new();
                    let mut j: usize = 0;
                    while j < k
                        invariant
                            j <= k,
                            pos + k <= rn,
                            rn == read@.len(),
                            w@ == read@.subrange(pos as int, pos + j),
                        decreases k - j,
                    {
                        w.push(read[pos + j]);
                        assert(w@ =~= read@.subrange(pos as int, pos + j + 1));
                        j = j + 1;
                    }
                    let ghost wv = w@;
                    let ov = Some(w);
                    let ghost ow = ov;
                    r.push(ov);
                    proof {
                        assert(r@[ri as int] == ow);
                        assert(ow matches Some(x) && x@ == wv);
                        assert(minimal_window_ok(reads@[ri as int]@, k as int, ow)) by {
                            assert(chosen_ok(reads@[ri as int]@, k as int, 256, Some((b, pos))));
                        }
                    }
                },
                None => {
                    r.push(None);
                    proof {
                        assert(r@[ri as int] == None::<Vec<u8>>);
                        assert(minimal_window_ok(reads@[ri as int]@, k as int, None));
                    }
                },
            }
            proof {
                assert forall|q: int| 0 <= q < ri + 1 implies minimal_window_ok(
                    (#[trigger] reads@[q])@,
                    k as int,
                    r@[q],
                ) by {
                    if q < ri {
                        assert(r@[q] == pre_r[q]);
                        assert(minimal_window_ok(reads@[q]@, k as int, pre_r[q]));
                    }
                }
            }
            ri = ri + 1;
        }
        r
    }
}

/// The saved minimizer window is right for `read`: the stored bytes are
/// exactly the window the minimizer selection chose, or nothing when no
/// window passes the threshold.
pub open spec fn minimal_window_ok(read: Seq<u8>, k: int, w: Option<Vec<u8>>) -> bool {
    match w {
        Some(wv) => exists|b: usize, pos: usize|
            #[trigger] chosen_ok(read, k, 256, Some((b, pos))) && wv@ == read.subrange(
                pos as int,
                pos + k,
            ),
        None => chosen_ok(read, k, 256, None),
    }
}

/// Complementing twice gives the base back.
proof fn lemma_comp_involution(b: u8)
    ensures
        comp_base(comp_base(b)) == b,
{
}

/// Reverse-complementing twice gives the sequence back.
pub proof fn lemma_rc_involution(s: Seq<u8>)
    ensures
        rc_seq(rc_seq(s)) == s,
{
    assert(rc_seq(rc_seq(s)) =~= s);
}

/// The lexicographic order is total and antisymmetric.
proof fn lemma_lex_le_total(a: Seq<u8>, b: Seq<u8>)
    ensures
        lex_le(a, b) || lex_le(b, a),
        lex_le(a, b) && lex_le(b, a) ==> a == b,
    decreases a.len(),
{
    if a.len() > 0 && b.len() > 0 && a[0] == b[0] {
        lemma_lex_le_total(a.skip(1), b.skip(1));
        if lex_le(a, b) && lex_le(b, a) {
            assert(a.skip(1) == b.skip(1));
            assert(a.len() == b.len());
            assert forall|i: int| 0 <= i < a.len() implies a[i] == b[i] by {
                if i > 0 {
                    assert(a[i] == a.skip(1)[i - 1]);
                    assert(b[i] == b.skip(1)[i - 1]);
                }
            }
            assert(a =~= b);
        }
    } else if a.len() == 0 && b.len() == 0 {
        if lex_le(a, b) && lex_le(b, a) {
            assert(a =~= b);
        }
    }
}

/// A window and its reverse complement have the same canonical form.
pub proof fn lemma_canonical_rc(s: Seq<u8>)
    ensures
        canonical_repr(rc_seq(s)) == canonical_repr(s),
{
    lemma_rc_involution(s);
    lemma_lex_le_total(s, rc_seq(s));
}

/// Windows of the reverse complement of a read are the reverse
/// complements of the read's windows, in reverse order.
proof fn lemma_rc_window(read: Seq<u8>, k: int, j: int)
    requires
        1 <= k <= read.len(),
        0 <= j <= read.len() - k,
    ensures
        rc_seq(read).subrange(j, j + k) == rc_seq(read.subrange(read.len() - k - j, read.len() - j)),
{
    assert(rc_seq(read).subrange(j, j + k) =~= rc_seq(
        read.subrange(read.len() - k - j, read.len() - j),
    ));
}

/// Bucket closure under strand: a read and its reverse complement carry
/// the same candidate hashes, so the minimizer selection puts them in the
/// same bucket (or drops both).
pub proof fn lemma_bucket_closure(
    read: Seq<u8>,
    k: int,
    nbuckets: int,
    r1: Option<(usize, usize)>,
    r2: Option<(usize, usize)>,
)
    requires
        1 <= k <= read.len(),
        nbuckets >= 1,
        chosen_ok(read, k, nbuckets, r1),
        chosen_ok(rc_seq(read), k, nbuckets, r2),
    ensures
        match (r1, r2) {
            (Some(p1), Some(p2)) => p1.0 == p2.0,
            (None, None) => true,
            _ => false,
        },
{
    let n = read.len() as int;
    let rcr = rc_seq(read);
    assert(rcr.len() == n);
    assert forall|j: int| 0 <= j <= n - k implies (is_candidate(rcr, k, j) == is_candidate(
        read,
        k,
        n - k - j,
    ) && window_bucket(rcr, k, nbuckets, j) == window_bucket(read, k, nbuckets, n - k - j)) by {
        lemma_rc_window(read, k, j);
        lemma_canonical_rc(read.subrange(n - k - j, n - j));
    }
    match (r1, r2) {
        (Some(p1), Some(p2)) => {
            let (b1, pos1) = p1;
            let (b2, pos2) = p2;
            // each side's bucket is no worse than the other's mirrored candidate
            assert(is_candidate(rcr, k, n - k - pos1));
            assert(is_candidate(read, k, n - k - pos2));
            assert(b2 <= window_bucket(rcr, k, nbuckets, n - k - pos1));
            assert(b1 <= window_bucket(read, k, nbuckets, n - k - pos2));
        },
        (Some(p1), None) => {
            assert(is_candidate(rcr, k, n - k - p1.1));
        },
        (None, Some(p2)) => {
            assert(is_candidate(read, k, n - k - p2.1));
        },
        (None, None) => {},
    }
}

} // verus!
