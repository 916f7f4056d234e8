//! In-RAM sorting of bucket records by a 64-bit key. Every phase that
//! consumes a bucket sorts it first, because records carry no cross-thread
//! ordering guarantee on disk.

use vstd::prelude::*;

verus! {

/// How to read the sort key out of a record.
pub trait SortKey<T> {
    spec fn spec_key(v: T) -> u64;

    fn get(value: &T) -> (r: u64)
        ensures
            r == Self::spec_key(*value),
    ;
}

/// The records of `s` are in non-decreasing key order.
pub open spec fn sorted_by_key<T, K: SortKey<T>>(s: Seq<T>) -> bool {
    forall|i: int, j: int| 0 <= i < j < s.len() ==> K::spec_key(s[i]) <= K::spec_key(s[j])
}

/// Swapping two positions leaves the multiset of records unchanged.
proof fn lemma_swap_multiset<T>(s: Seq<T>, i: int, j: int)
    requires
        0 <= i < s.len(),
        0 <= j < s.len(),
        i != j,
    ensures
        s.update(i, s[j]).update(j, s[i]).to_multiset() == s.to_multiset(),
{
    broadcast use vstd::seq_lib::to_multiset_update;
    broadcast use vstd::multiset::group_multiset_axioms;
    broadcast use vstd::multiset::group_multiset_properties;
    broadcast use vstd::seq_lib::to_multiset_contains;

    let s1 = s.update(i, s[j]);
    assert(s1.to_multiset() == s.to_multiset().insert(s[j]).remove(s[i]));
    assert(s1[j] == s[j]);
    assert(s1.update(j, s[i]).to_multiset() == s1.to_multiset().insert(s[i]).remove(s1[j]));
    assert(s.to_multiset().count(s[i]) > 0);
    assert(s.to_multiset().insert(s[j]).remove(s[i]).insert(s[i]).remove(s[j])
        =~= s.to_multiset());
}

/// Sorts the records in place by key, keeping exactly the same records.
pub fn key_sort<T: Copy, K: SortKey<T>>(v: &mut Vec<T>)
    ensures
        sorted_by_key::<T, K>(final(v)@),
        final(v)@.to_multiset() == old(v)@.to_multiset(),
        final(v)@.len() == old(v)@.len(),
{
    broadcast use vstd::seq_lib::to_multiset_len;

    let n = v.len();
    if n < 2 {
        return;
    }
    let mut i: usize = 1;
    while i < n
        invariant
            1 <= i <= n,
            n == v@.len(),
            sorted_by_key::<T, K>(v@.take(i as int)),
            v@.to_multiset() == old(v)@.to_multiset(),
        decreases n - i,
    {
        proof {
            assert forall|a: int, b: int| 0 <= a < b <= i && b != i implies K::spec_key(v@[a])
                <= K::spec_key(v@[b]) by {
                assert(v@.take(i as int)[a] == v@[a]);
                assert(v@.take(i as int)[b] == v@[b]);
            }
        }
        let mut j: usize = i;
        while j > 0 && K::get(&v[j - 1]) > K::get(&v[j])
            invariant
                0 <= j <= i < n,
                n == v@.len(),
                v@.to_multiset() == old(v)@.to_multiset(),
                forall|a: int, b: int|
                    0 <= a < b <= i && b != j ==> K::spec_key(v@[a]) <= K::spec_key(v@[b]),
            decreases j,
        {
            let ghost pre = v@;
            let x = v[j - 1];
            let y = v[j];
            v.set(j - 1, y);
            v.set(j, x);
            proof {
                lemma_swap_multiset(pre, j - 1, j as int);
                assert(v@ =~= pre.update(j - 1, pre[j as int]).update(j as int, pre[j - 1]));
            }
            j = j - 1;
        }
        proof {
            assert forall|a: int, b: int| 0 <= a < b <= i implies K::spec_key(v@[a])
                <= K::spec_key(v@[b]) by {
                if b == j && j > 0 {
                    assert(K::spec_key(v@[j - 1]) <= K::spec_key(v@[j as int]));
                    if a < j - 1 {
                        assert(K::spec_key(v@[a]) <= K::spec_key(v@[j - 1]));
                    }
                }
            }
            assert(sorted_by_key::<T, K>(v@.take(i + 1))) by {
                assert(forall|a: int| 0 <= a <= i ==> v@.take(i + 1)[a] == v@[a]);
            }
        }
        i = i + 1;
    }
    proof {
        assert(v@.take(n as int) =~= v@);
    }
}

} // verus!
