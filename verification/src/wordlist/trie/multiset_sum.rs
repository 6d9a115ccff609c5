//! Sums over the items of a multiset.

use vstd::prelude::*;
use vstd::multiset::Multiset;

verus! {

/// The values of `f` on the items of `m`, added up.
pub open spec fn msum<T>(m: Multiset<T>, f: spec_fn(T) -> nat) -> nat
    decreases m.len(),
{
    if m.len() == 0 {
        0
    } else {
        proof {
            broadcast use vstd::multiset::group_multiset_axioms;

            vstd::multiset::axiom_choose_count(m);
            assert(Multiset::singleton(m.choose()).subset_of(m));
        }
        f(m.choose()) + msum(m.remove(m.choose()), f)
    }
}

/// The sum over a multiset is the value on any one of its items and the sum
/// over the rest.
pub proof fn lemma_msum_remove<T>(m: Multiset<T>, f: spec_fn(T) -> nat, x: T)
    requires
        m.contains(x),
    ensures
        msum(m, f) == f(x) + msum(m.remove(x), f),
    decreases m.len(),
{
    broadcast use vstd::multiset::group_multiset_axioms;

    let c = m.choose();
    vstd::multiset::axiom_choose_count(m);
    assert(m.len() > 0) by {
        vstd::multiset::axiom_count_le_len(m, x);
    }
    assert(Multiset::singleton(c).subset_of(m));
    assert(Multiset::singleton(x).subset_of(m));
    if c != x {
        let mc = m.remove(c);
        let mx = m.remove(x);
        assert(mc.contains(x));
        assert(mx.contains(c));
        lemma_msum_remove(mc, f, x);
        lemma_msum_remove(mx, f, c);
        assert(mc.remove(x) =~= mx.remove(c));
    }
}

/// One more item adds its value to the sum.
pub proof fn lemma_msum_insert<T>(m: Multiset<T>, f: spec_fn(T) -> nat, x: T)
    ensures
        msum(m.insert(x), f) == msum(m, f) + f(x),
{
    broadcast use vstd::multiset::group_multiset_axioms;

    lemma_msum_remove(m.insert(x), f, x);
    assert(m.insert(x).remove(x) =~= m);
}

} // verus!
