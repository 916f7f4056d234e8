//! Building output sequences: a finished unitig's ordered partial
//! sequences are concatenated with a `k - 1` base overlap. Conservation
//! holds through stitching: the stitched sequence covers exactly the
//! k-mers of its pieces, counted once each.

use vstd::prelude::*;

verus! {

/// The stitched sequence: the first piece whole, every later piece
/// without its first `k - 1` bases.
pub open spec fn stitched(pieces: Seq<Vec<u8>>, k: int) -> Seq<u8>
    decreases pieces.len(),
{
    if pieces.len() == 0 {
        Seq::empty()
    } else if pieces.len() == 1 {
        pieces[0]@
    } else {
        stitched(pieces.drop_last(), k) + pieces.last()@.skip(k - 1)
    }
}

/// Total k-mers of a list of pieces: each contributes its length minus
/// the `k - 1` overlap bases.
pub open spec fn sum_piece_kmers(pieces: Seq<Vec<u8>>, k: int) -> int
    decreases pieces.len(),
{
    if pieces.len() == 0 {
        0
    } else {
        sum_piece_kmers(pieces.drop_last(), k) + (pieces.last()@.len() - (k - 1))
    }
}

/// Conservation through stitching: the stitched sequence holds exactly
/// the k-mers of its pieces — its length minus `k - 1` equals the sum of
/// the pieces' k-mer counts.
pub proof fn lemma_stitch_conservation(pieces: Seq<Vec<u8>>, k: int)
    requires
        k >= 1,
        pieces.len() >= 1,
        forall|i: int| 0 <= i < pieces.len() ==> (#[trigger] pieces[i])@.len() >= k,
    ensures
        stitched(pieces, k).len() - (k - 1) == sum_piece_kmers(pieces, k),
    decreases pieces.len(),
{
    assert(pieces[pieces.len() - 1]@.len() >= k);
    assert(pieces.last() == pieces[pieces.len() - 1]);
    if pieces.len() == 1 {
        assert(pieces.drop_last().len() == 0);
        assert(sum_piece_kmers(pieces.drop_last(), k) == 0);
        assert(stitched(pieces, k) == pieces[0]@);
    } else {
        assert forall|i: int|
            0 <= i < pieces.drop_last().len() implies (#[trigger] pieces.drop_last()[i])@.len()
            >= k by {
            assert(pieces.drop_last()[i] == pieces[i]);
        }
        lemma_stitch_conservation(pieces.drop_last(), k);
        assert(pieces.last()@.skip(k - 1).len() == pieces.last()@.len() - (k - 1));
    }
}

/// Concatenates a finished unitig's pieces with a `k - 1` base overlap.
pub fn stitch_sequences(pieces: &Vec<Vec<u8>>, k: usize) -> (r: Vec<u8>)
    requires
        k >= 1,
        forall|i: int| 0 <= i < pieces@.len() ==> (#[trigger] pieces@[i])@.len() >= k,
    ensures
        r@ == stitched(pieces@, k as int),
{
    let mut r: Vec<u8> = Vec::new();
    let n = pieces.len();
    let mut i: usize = 0;
    while i < n
        invariant
            i <= n,
            n == pieces@.len(),
            k >= 1,
            forall|q: int| 0 <= q < n ==> (#[trigger] pieces@[q])@.len() >= k,
            r@ == stitched(pieces@.take(i as int), k as int),
        decreases n - i,
    {
        let piece = &pieces[i];
        let from: usize = if i == 0 {
            0
        } else {
            k - 1
        };
        let plen = piece.len();
        let mut j: usize = from;
        let ghost pre = r@;
        while j < plen
            invariant
                from <= j <= plen,
                plen == piece@.len(),
                r@ == pre + piece@.subrange(from as int, j as int),
            decreases plen - j,
        {
            r.push(piece[j]);
            assert(r@ =~= pre + piece@.subrange(from as int, j + 1));
            j = j + 1;
        }
        proof {
            let taken = pieces@.take(i + 1);
            assert(taken.drop_last() =~= pieces@.take(i as int));
            assert(taken.last() == pieces@[i as int]);
            if i == 0 {
                assert(piece@.subrange(0, plen as int) =~= piece@);
                assert(r@ =~= stitched(taken, k as int));
            } else {
                assert(piece@.subrange(from as int, plen as int) =~= piece@.skip(k - 1));
                assert(r@ =~= stitched(taken, k as int));
            }
        }
        i = i + 1;
    }
    proof {
        assert(pieces@.take(n as int) =~= pieces@);
    }
    r
}

} // verus!
