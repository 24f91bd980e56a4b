//! Permutations of index ranges, and the randomness behind them.
//!
//! Sample patterns are built from rearrangements of `0 .. n`: a rook
//! pattern shuffles two copies of the range, and the multi-jittered
//! pattern shuffles grid cells row by row and column by column.  This
//! module defines what it means for a sequence to rearrange an index
//! range, provides the shuffling primitives, and proves the facts about
//! multisets that the pattern builders need.

use vstd::prelude::*;
use rand::seq::SliceRandom;
use rand::Rng;

verus! {

broadcast use
    vstd::seq_lib::group_to_multiset_ensures,
    vstd::multiset::group_multiset_axioms,
;

/// The sequence `0, 1, ..., n - 1`.
pub open spec fn index_seq(n: nat) -> Seq<usize> {
    Seq::new(n, |i: int| i as usize)
}

/// `s` rearranges the range `0 .. n`: same length, same elements with the
/// same multiplicities.
pub open spec fn is_index_perm(s: Seq<usize>, n: nat) -> bool {
    &&& s.len() == n
    &&& s.to_multiset() == index_seq(n).to_multiset()
}

/// Relies on rand's `SliceRandom::shuffle`: reorders the elements of the
/// vector in place, keeping exactly the same elements.
#[verifier::external_body]
pub(crate) fn shuffle<T>(v: &mut Vec<T>)
    ensures
        final(v)@.len() == old(v)@.len(),
        final(v)@.to_multiset() == old(v)@.to_multiset(),
{
    v.shuffle(&mut rand::thread_rng());
}

/// Relies on rand's `Rng::gen_range`: returns a uniformly random value in
/// `low .. high`; it panics when the range is empty, so that case is
/// excluded here.
#[verifier::external_body]
pub(crate) fn random_index(low: usize, high: usize) -> (r: usize)
    requires
        low < high,
    ensures
        low <= r < high,
{
    rand::thread_rng().gen_range(low, high)
}

/// The vector `0, 1, ..., n - 1`.
pub(crate) fn identity_vec(n: usize) -> (v: Vec<usize>)
    ensures
        v@ == index_seq(n as nat),
{
    let mut v: Vec<usize> = Vec::new();
    let mut i: usize = 0;
    while i < n
        invariant
            i <= n,
            v@.len() == i,
            forall|k: int| 0 <= k < i ==> v@[k] == k as usize,
        decreases n - i,
    {
        v.push(i);
        i = i + 1;
    }
    proof {
        assert(v@ =~= index_seq(n as nat));
    }
    v
}

/// Swapping two positions of a sequence leaves its multiset unchanged.
pub proof fn lemma_swap_multiset<T>(s: Seq<T>, i: int, j: int)
    requires
        0 <= i < s.len(),
        0 <= j < s.len(),
    ensures
        s.update(i, s[j]).update(j, s[i]).to_multiset() == s.to_multiset(),
{
    if i == j {
        assert(s.update(i, s[j]).update(j, s[i]) =~= s);
    } else {
        let s1 = s.update(i, s[j]);
        let s2 = s1.update(j, s[i]);
        assert(s1.to_multiset() == s.to_multiset().insert(s[j]).remove(s[i]));
        assert(s1[j] == s[j]);
        assert(s2.to_multiset() == s1.to_multiset().insert(s[i]).remove(s[j]));
        assert(s.contains(s[i]));
        assert(s.contains(s[j]));
        assert(s2.to_multiset() =~= s.to_multiset()) by {
            assert(forall|x: T|
                s2.to_multiset().count(x) == s.to_multiset().count(x));
        }
    }
}

/// Swap the elements at positions `i` and `j`.
pub(crate) fn swap_at(v: &mut Vec<usize>, i: usize, j: usize)
    requires
        i < old(v).len(),
        j < old(v).len(),
    ensures
        final(v)@ == old(v)@.update(i as int, old(v)@[j as int]).update(
            j as int,
            old(v)@[i as int],
        ),
        final(v)@.len() == old(v)@.len(),
        final(v)@.to_multiset() == old(v)@.to_multiset(),
{
    let a = v[i];
    let b = v[j];
    v.set(i, b);
    v.set(j, a);
    proof {
        lemma_swap_multiset(old(v)@, i as int, j as int);
    }
}

/// Every element of a rearrangement of `0 .. n` is below `n`.
pub proof fn lemma_index_perm_bounds(s: Seq<usize>, n: nat)
    requires
        is_index_perm(s, n),
    ensures
        forall|k: int| 0 <= k < s.len() ==> (#[trigger] s[k]) < n,
{
    assert forall|k: int| 0 <= k < s.len() implies (#[trigger] s[k]) < n by {
        assert(s.contains(s[k]));
        assert(s.to_multiset().count(s[k]) > 0);
        assert(index_seq(n).to_multiset().count(s[k]) > 0);
        assert(index_seq(n).contains(s[k]));
        let i = choose|i: int| 0 <= i < index_seq(n).len() && index_seq(n)[i] == s[k];
        assert(index_seq(n)[i] == i as usize);
    }
}

/// A sequence of `n` distinct values below `n`, one of which is each value
/// below `n`, rearranges `0 .. n`.
pub proof fn lemma_index_perm_from_pointwise(s: Seq<usize>, n: nat)
    requires
        n <= usize::MAX,
        s.len() == n,
        s.no_duplicates(),
        forall|v: int| 0 <= v < n ==> s.contains(#[trigger] (v as usize)),
        forall|k: int| 0 <= k < n ==> (#[trigger] s[k]) < n,
    ensures
        is_index_perm(s, n),
{
    s.lemma_multiset_has_no_duplicates();
    assert(index_seq(n).no_duplicates()) by {
        assert forall|i: int, j: int|
            0 <= i < n && 0 <= j < n && i != j implies index_seq(n)[i] != index_seq(
            n,
        )[j] by {
            assert(index_seq(n)[i] == i as usize);
            assert(index_seq(n)[j] == j as usize);
        }
    }
    index_seq(n).lemma_multiset_has_no_duplicates();
    assert forall|x: usize| s.to_multiset().count(x) == index_seq(n).to_multiset().count(
        x,
    ) by {
        if (x as int) < n {
            let v = x as int;
            assert(s.contains((v as usize)));
            assert((v as usize) == x);
            assert(s.contains(x));
            assert(index_seq(n)[x as int] == x);
            assert(index_seq(n).contains(x));
            assert(s.to_multiset().count(x) > 0);
            assert(index_seq(n).to_multiset().count(x) > 0);
            assert(s.to_multiset().count(x) == 1);
            assert(index_seq(n).to_multiset().count(x) == 1);
        } else {
            assert(!s.contains(x)) by {
                if s.contains(x) {
                    let k = choose|k: int| 0 <= k < s.len() && s[k] == x;
                    assert(s[k] < n);
                }
            }
            assert(!index_seq(n).contains(x)) by {
                if index_seq(n).contains(x) {
                    let k = choose|k: int| 0 <= k < n && index_seq(n)[k] == x;
                    assert(index_seq(n)[k] == k as usize);
                }
            }
            assert(s.to_multiset().count(x) == 0);
            assert(index_seq(n).to_multiset().count(x) == 0);
        }
    }
    assert(s.to_multiset() =~= index_seq(n).to_multiset());
}

} // verus!
