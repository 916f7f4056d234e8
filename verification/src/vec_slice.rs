//! A slice handle into a shared storage vector. Link records do not own
//! their entry lists; they point into a per-bucket vector that is recycled
//! across records of one bucket pass.

use vstd::prelude::*;

verus! {

/// A `(position, length)` window into a storage vector.
#[derive(Clone, Copy, PartialEq, Eq, Structural, Debug)]
pub struct VecSlice {
    pub pos: usize,
    pub len: usize,
}

impl VecSlice {
    /// The elements this slice selects out of `storage`.
    pub open spec fn view_in<T>(self, storage: Seq<T>) -> Seq<T> {
        storage.subrange(self.pos as int, self.pos + self.len)
    }

    /// The slice lies inside `storage`.
    pub open spec fn wf_in<T>(self, storage: Seq<T>) -> bool {
        self.pos + self.len <= storage.len()
    }

    pub fn new(pos: usize, len: usize) -> (r: Self)
        ensures
            r.pos == pos,
            r.len == len,
    {
        VecSlice { pos, len }
    }

    /// The empty placeholder slice.
    pub fn new_empty() -> (r: Self)
        ensures
            r.pos == 0,
            r.len == 0,
    {
        VecSlice { pos: 0, len: 0 }
    }

    /// Appends all of `src` to `dest` and returns the slice that covers the
    /// appended run.
    pub fn new_extend<T: Copy>(dest: &mut Vec<T>, src: &Vec<T>) -> (r: Self)
        ensures
            final(dest)@ == old(dest)@ + src@,
            r.pos == old(dest)@.len(),
            r.len == src@.len(),
            r.view_in(final(dest)@) == src@,
    {
        let pos = dest.len();
        let len = src.len();
        let mut i: usize = 0;
        while i < len
            invariant
                i <= len,
                len == src@.len(),
                pos == old(dest)@.len(),
                dest@ == old(dest)@ + src@.subrange(0, i as int),
            decreases len - i,
        {
            dest.push(src[i]);
            assert(dest@ =~= old(dest)@ + src@.subrange(0, i + 1));
            i = i + 1;
        }
        assert(dest@ =~= old(dest)@ + src@);
        let r = VecSlice { pos, len };
        assert(r.view_in(dest@) =~= src@);
        r
    }

    /// One element of the slice, read out of its storage.
    pub fn get<T: Copy>(&self, storage: &Vec<T>, i: usize) -> (r: T)
        requires
            self.wf_in(storage@),
            i < self.len,
        ensures
            r == self.view_in(storage@)[i as int],
    {
        let n = storage.len();
        storage[self.pos + i]
    }

    pub fn slice_len(&self) -> (r: usize)
        ensures
            r == self.len,
    {
        self.len
    }
}

} // verus!
