//! Random sampling support for the search: an in-place shuffle that
//! randomizes which empty cells a chance layer explores, backed by the
//! thread-local random number generator so that concurrently running
//! evaluations never contend.

use vstd::prelude::*;

verus! {

broadcast use
    vstd::multiset::group_multiset_axioms,
    vstd::seq_lib::group_to_multiset_ensures,
    vstd::seq_lib::to_multiset_update,
;

/// Relies on rand::random_range, called on the thread-local generator:
/// it returns a value of the non-empty half-open range `lo..hi`, and
/// nothing more is promised of a random draw.
#[verifier::external_body]
fn random_index(lo: usize, hi: usize) -> (r: usize)
    requires
        lo < hi,
    ensures
        lo <= r < hi,
{
    rand::random_range(lo..hi)
}

/// Permute the vector in place: walk `i` upward and swap position `i`
/// with a position drawn uniformly from those strictly after it. Which
/// permutation results is random; the contents are preserved, and since
/// the first position is always swapped with a strictly later one, it
/// ends up holding a value drawn from a later position on every
/// outcome.
pub fn shuffle<T: Copy>(dest: &mut Vec<T>)
    ensures
        final(dest)@.len() == old(dest)@.len(),
        final(dest)@.to_multiset() == old(dest)@.to_multiset(),
        old(dest)@.len() >= 2 ==> exists|j: int|
            1 <= j < old(dest)@.len() && final(dest)@[0] == old(dest)@[j],
{
    if dest.len() < 2 {
        return ;
    }
    let mut i: usize = 0;
    while i < dest.len() - 1
        invariant
            dest@.len() == old(dest)@.len(),
            dest@.len() >= 2,
            i <= dest@.len() - 1,
            dest@.to_multiset() == old(dest)@.to_multiset(),
            i == 0 ==> dest@ == old(dest)@,
            i >= 1 ==> exists|j: int| 1 <= j < old(dest)@.len() && dest@[0] == old(dest)@[j],
        decreases dest@.len() - i,
    {
        let j = random_index(i + 1, dest.len());
        let ghost s = dest@;
        let vi = dest[i];
        let vj = dest[j];
        dest.set(i, vj);
        dest.set(j, vi);
        proof {
            assert(s.update(i as int, vj)[j as int] == vj);
            assert(dest@ == s.update(i as int, vj).update(j as int, vi));
            assert(s.to_multiset().contains(vi));
            assert(dest@.to_multiset() =~= s.to_multiset());
            if i == 0 {
                assert(dest@[0] == s[j as int]);
            } else {
                assert(dest@[0] == s[0]);
            }
        }
        i = i + 1;
    }
}

} // verus!
