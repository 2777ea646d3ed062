//! Helpers shared by the in-place sorting routines: swapping two
//! vector entries and reasoning about the permutations that swaps
//! produce.

use vstd::prelude::*;

verus! {

use vstd::multiset::Multiset;

broadcast use {vstd::seq_lib::group_to_multiset_ensures, vstd::multiset::group_multiset_axioms};

/// Exchanges the entries at `a` and `b`, leaving every other entry in
/// place; the vector afterwards holds the same elements.
pub fn vec_swap<T: Copy>(v: &mut Vec<T>, a: usize, b: usize)
    requires
        a < old(v).len(),
        b < old(v).len(),
    ensures
        final(v)@ == old(v)@.update(a as int, old(v)@[b as int]).update(
            b as int,
            old(v)@[a as int],
        ),
        final(v)@.len() == old(v)@.len(),
        final(v)@.to_multiset() == old(v)@.to_multiset(),
{
    let va = v[a];
    let vb = v[b];
    v.set(a, vb);
    v.set(b, va);
    proof {
        lemma_swap_multiset(old(v)@, a as int, b as int);
    }
}

/// Swapping two entries of a sequence does not change the multiset of
/// its elements.
pub proof fn lemma_swap_multiset<T>(s: Seq<T>, a: int, b: int)
    requires
        0 <= a < s.len(),
        0 <= b < s.len(),
    ensures
        s.update(a, s[b]).update(b, s[a]).to_multiset() == s.to_multiset(),
{
    broadcast use vstd::seq_lib::to_multiset_update;

    if a == b {
        assert(s.update(a, s[b]).update(b, s[a]) =~= s);
    } else {
        let s1 = s.update(a, s[b]);
        assert(s1[b] == s[b]);
        assert(s1.to_multiset() == s.to_multiset().insert(s[b]).remove(s[a]));
        assert(s1.update(b, s[a]).to_multiset() == s1.to_multiset().insert(s[a]).remove(s1[b]));
        assert(s.contains(s[a]));
        assert(s.to_multiset().count(s[a]) > 0);
        assert(s1.update(b, s[a]).to_multiset() =~= s.to_multiset());
    }
}

/// Two sequences with the same elements and the same entries outside a
/// window `lo ..= hi` also hold the same elements inside the window.
pub proof fn lemma_window_multiset<T>(s1: Seq<T>, s2: Seq<T>, lo: int, hi: int)
    requires
        s1.len() == s2.len(),
        0 <= lo <= hi < s1.len(),
        s1.to_multiset() == s2.to_multiset(),
        forall|k: int| 0 <= k < s1.len() && !(lo <= k <= hi) ==> s1[k] == s2[k],
    ensures
        s1.subrange(lo, hi + 1).to_multiset() == s2.subrange(lo, hi + 1).to_multiset(),
{
    broadcast use vstd::seq_lib::lemma_multiset_commutative;

    let n = s1.len() as int;
    assert(s1 =~= s1.subrange(0, lo) + s1.subrange(lo, hi + 1) + s1.subrange(hi + 1, n));
    assert(s2 =~= s2.subrange(0, lo) + s2.subrange(lo, hi + 1) + s2.subrange(hi + 1, n));
    assert(s1.subrange(0, lo) =~= s2.subrange(0, lo));
    assert(s1.subrange(hi + 1, n) =~= s2.subrange(hi + 1, n));
    let pre = s1.subrange(0, lo);
    let post = s1.subrange(hi + 1, n);
    let w1 = s1.subrange(lo, hi + 1);
    let w2 = s2.subrange(lo, hi + 1);
    assert(((pre + w1) + post).to_multiset() == (pre + w1).to_multiset().add(post.to_multiset()));
    assert(((pre + w2) + post).to_multiset() == (pre + w2).to_multiset().add(post.to_multiset()));
    assert forall|x: T| w1.to_multiset().count(x) == w2.to_multiset().count(x) by {
        assert(s1.to_multiset().count(x) == pre.to_multiset().count(x) + w1.to_multiset().count(x)
            + post.to_multiset().count(x));
        assert(s2.to_multiset().count(x) == pre.to_multiset().count(x) + w2.to_multiset().count(x)
            + post.to_multiset().count(x));
    }
    assert(w1.to_multiset() =~= w2.to_multiset());
}

/// A bound satisfied by every element of a sequence carries over to
/// any sequence holding the same elements.
pub proof fn lemma_multiset_bound<T>(s1: Seq<T>, s2: Seq<T>, p: spec_fn(T) -> bool)
    requires
        s1.to_multiset() == s2.to_multiset(),
        forall|i: int| 0 <= i < s1.len() ==> p(#[trigger] s1[i]),
    ensures
        forall|i: int| 0 <= i < s2.len() ==> p(#[trigger] s2[i]),
{
    assert forall|i: int| 0 <= i < s2.len() implies p(#[trigger] s2[i]) by {
        assert(s2.contains(s2[i]));
        assert(s1.to_multiset().count(s2[i]) > 0);
        assert(s1.contains(s2[i]));
        let k = choose|k: int| 0 <= k < s1.len() && s1[k] == s2[i];
        assert(p(s1[k]));
    }
}

} // verus!
