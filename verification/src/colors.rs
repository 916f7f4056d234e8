//! In-memory color-set deduplication: a color set is hashed with a keyed
//! 128-bit hash; a set seen before gets its existing index back, a new
//! one is handed to the storage backend (modelled as an in-memory list of
//! serialized sets) and remembered under its fresh index.

use vstd::prelude::*;
use crate::fast_rand_bool::rand_u64;

verus! {

/// What the keyed 128-bit hash returns for a color list: a function of
/// the two keys and the colors alone.
pub uninterp spec fn sip128_of(k0: u64, k1: u64, colors: Seq<u32>) -> u128;

/// Relies on siphasher::sip128::SipHasher13: hashing a color slice with
/// fixed keys and reading the 128-bit digest; deterministic in the keys
/// and the slice.
#[verifier::external_body]
fn sip128_hash(k0: u64, k1: u64, colors: &Vec<u32>) -> (r: u128)
    ensures
        r == sip128_of(k0, k1, colors@),
{
    let mut hasher = siphasher::sip128::SipHasher13::new_with_keys(k0, k1);
    std::hash::Hash::hash(colors.as_slice(), &mut hasher);
    siphasher::sip128::Hasher128::finish128(&hasher).as_u128()
}

/// The deduplicating color map: known hashes with their color indexes,
/// and the stored color sets the indexes point into.
pub struct ColorsMemMap {
    pub colors: Vec<(u128, u32)>,
    pub color_sets: Vec<Vec<u32>>,
    pub hash_keys: (u64, u64),
}

impl ColorsMemMap {
    /// Hashes are unique keys and every stored index is in range.
    pub open spec fn wf(&self) -> bool {
        &&& forall|i: int, j: int|
            0 <= i < j < self.colors@.len() ==> (#[trigger] self.colors@[i]).0 != (
            #[trigger] self.colors@[j]).0
        &&& forall|i: int|
            0 <= i < self.colors@.len() ==> (#[trigger] self.colors@[i]).1 < self.color_sets@.len()
        &&& self.color_sets@.len() <= u32::MAX
    }

    /// An empty map with per-process random hash keys.
    pub fn new() -> (r: Self)
        ensures
            r.wf(),
            r.colors@.len() == 0,
            r.color_sets@.len() == 0,
    {
        ColorsMemMap {
            colors: Vec::new(),
            color_sets: Vec::new(),
            hash_keys: (rand_u64(), rand_u64()),
        }
    }

    /// The keyed hash of a color list under this map's keys.
    fn hash_colors(&self, colors: &Vec<u32>) -> (r: u128)
        ensures
            r == sip128_of(self.hash_keys.0, self.hash_keys.1, colors@),
    {
        sip128_hash(self.hash_keys.0, self.hash_keys.1, colors)
    }

    /// The index stored for hash `h`, if any.
    pub open spec fn lookup(&self, h: u128) -> Option<u32> {
        if exists|i: int| 0 <= i < self.colors@.len() && (#[trigger] self.colors@[i]).0 == h {
            Some(
                self.colors@[choose|i: int|
                    0 <= i < self.colors@.len() && (#[trigger] self.colors@[i]).0 == h].1,
            )
        } else {
            None
        }
    }

    /// Returns the color index of a color list: the remembered index when
    /// its hash is known, otherwise the next fresh index, under which the
    /// list is stored and remembered.
    pub fn get_id(&mut self, colors: &Vec<u32>) -> (r: u32)
        requires
            old(self).wf(),
            old(self).color_sets@.len() < u32::MAX,
        ensures
            final(self).wf(),
            final(self).hash_keys == old(self).hash_keys,
            ({
                let h = sip128_of(old(self).hash_keys.0, old(self).hash_keys.1, colors@);
                match old(self).lookup(h) {
                    Some(id) => {
                        &&& r == id
                        &&& *final(self) == *old(self)
                    },
                    None => {
                        &&& r == old(self).color_sets@.len()
                        &&& final(self).color_sets@.len() == old(self).color_sets@.len() + 1
                        &&& final(self).color_sets@.last()@ == colors@
                        &&& forall|q: int|
                            0 <= q < old(self).color_sets@.len()
                                ==> final(self).color_sets@[q] == old(self).color_sets@[q]
                        &&& final(self).colors@ == old(self).colors@.push((h, r))
                    },
                }
            }),
    {
        let h = self.hash_colors(colors);
        let n = self.colors.len();
        let mut i: usize = 0;
        while i < n
            invariant
                i <= n,
                n == self.colors@.len(),
                *self == *old(self),
                self.wf(),
                h == sip128_of(old(self).hash_keys.0, old(self).hash_keys.1, colors@),
                forall|q: int| 0 <= q < i ==> (#[trigger] self.colors@[q]).0 != h,
            decreases n - i,
        {
            let pair = self.colors[i];
            if pair.0 == h {
                proof {
                    assert(self.colors@[i as int].0 == h);
                    let w = choose|w: int|
                        0 <= w < self.colors@.len() && (#[trigger] self.colors@[w]).0 == h;
                    assert(self.colors@[w].0 == h);
                    if w < i as int {
                        assert(false);
                    } else if w > i as int {
                        assert(false);
                    }
                    assert(w == i as int);
                    assert(old(self).lookup(h) == Some(self.colors@[i as int].1));
                }
                return pair.1;
            }
            i = i + 1;
        }
        proof {
            assert(self.lookup(h) is None);
        }
        let id = self.color_sets.len() as u32;
        let mut copy: Vec<u32> = Vec::new();
        let mut j: usize = 0;
        let cl = colors.len();
        while j < cl
            invariant
                j <= cl,
                cl == colors@.len(),
                copy@ == colors@.take(j as int),
            decreases cl - j,
        {
            copy.push(colors[j]);
            assert(copy@ =~= colors@.take(j + 1));
            j = j + 1;
        }
        assert(copy@ =~= colors@);
        self.color_sets.push(copy);
        self.colors.push((h, id));
        proof {
            assert forall|a: int, b: int|
                0 <= a < b < self.colors@.len() implies (#[trigger] self.colors@[a]).0 != (
            #[trigger] self.colors@[b]).0 by {
                if b == self.colors@.len() - 1 {
                    assert(self.colors@[a].0 != h);
                }
            }
        }
        id
    }

    /// How many distinct color sets have been stored.
    pub fn print_stats(&self) -> (r: (usize, usize))
        ensures
            r.0 == self.colors@.len(),
            r.1 == self.color_sets@.len(),
    {
        (self.colors.len(), self.color_sets.len())
    }
}

} // verus!
