//! How the states of an automaton hang together by their forward edges.

use vstd::prelude::*;
use crate::regex::nfa::graph::{edge, gains_edge};
use crate::regex::nfa::state::{NfaState, NfaStatePtr};

verus! {

/// Whether forward edges lead from state `i` to state `t` in `n` steps.
pub open spec fn hops(g: Seq<NfaState>, i: int, t: int, n: nat) -> bool
    decreases n,
{
    if n == 0 {
        i == t && 0 <= i < g.len()
    } else {
        exists|m: int| #[trigger] edge(g, i, m, true) && hops(g, m, t, (n - 1) as nat)
    }
}

/// Whether forward edges lead from state `i` to state `t`.
pub open spec fn flows(g: Seq<NfaState>, i: int, t: int) -> bool {
    exists|n: nat| hops(g, i, t, n)
}

/// Every state is reached from the start, and reaches the end, by forward
/// edges.
pub open spec fn connected(g: Seq<NfaState>) -> bool {
    &&& g.len() >= 2
    &&& forall|i: int| 0 <= i < g.len() ==> #[trigger] flows(g, 0, i)
    &&& forall|i: int| 0 <= i < g.len() ==> #[trigger] flows(g, i, 1)
}

/// `g` has the states of `old`, and each forward edge of `old`.
pub open spec fn grown(old: Seq<NfaState>, g: Seq<NfaState>) -> bool {
    &&& old.len() <= g.len()
    &&& forall|i: int, t: int| #[trigger] edge(old, i, t, true) ==> edge(g, i, t, true)
}

/// The states from `lo` up to `hi` are entered at `s` and left into `k`:
/// each of them is reached from `s` and reaches `k`, and so `s` reaches `k`.
pub open spec fn wired(g: Seq<NfaState>, lo: int, hi: int, s: int, k: int) -> bool {
    &&& flows(g, s, k)
    &&& forall|i: int| lo <= i < hi ==> #[trigger] flows(g, s, i)
    &&& forall|i: int| lo <= i < hi ==> #[trigger] flows(g, i, k)
}

/// A fork at `lo + 1` and a join at `lo`, with the states from `lo + 2` up
/// to `hi` between them; with `some`, the fork reaches the join.
pub open spec fn forked(g: Seq<NfaState>, lo: int, hi: int, k: int, some: bool) -> bool {
    &&& edge(g, lo, k, true)
    &&& 0 <= lo + 1 < g.len()
    &&& some ==> flows(g, lo + 1, lo)
    &&& forall|i: int| lo + 2 <= i < hi ==> #[trigger] flows(g, lo + 1, i)
    &&& forall|i: int| lo + 2 <= i < hi ==> #[trigger] flows(g, i, lo)
}

/// A state reaches itself.
pub proof fn lemma_flows_self(g: Seq<NfaState>, i: int)
    requires
        0 <= i < g.len(),
    ensures
        flows(g, i, i),
{
    assert(hops(g, i, i, 0));
}

/// A state reaches what one of its forward edges leads to.
pub proof fn lemma_flows_edge(g: Seq<NfaState>, i: int, t: int)
    requires
        edge(g, i, t, true),
    ensures
        flows(g, i, t),
{
    assert(hops(g, t, t, 0));
    assert(hops(g, i, t, 1));
}

proof fn lemma_hops_then(g: Seq<NfaState>, i: int, m: int, t: int, a: nat, b: nat)
    requires
        hops(g, i, m, a),
        hops(g, m, t, b),
    ensures
        hops(g, i, t, a + b),
    decreases a,
{
    if a > 0 {
        let x = choose|x: int| #[trigger] edge(g, i, x, true) && hops(g, x, m, (a - 1) as nat);
        lemma_hops_then(g, x, m, t, (a - 1) as nat, b);
        assert(edge(g, i, x, true) && hops(g, x, t, (a + b - 1) as nat));
    }
}

/// What a state reaches, it reaches by way of another.
pub proof fn lemma_flows_then(g: Seq<NfaState>, i: int, m: int, t: int)
    requires
        flows(g, i, m),
        flows(g, m, t),
    ensures
        flows(g, i, t),
{
    let a = choose|a: nat| hops(g, i, m, a);
    let b = choose|b: nat| hops(g, m, t, b);
    lemma_hops_then(g, i, m, t, a, b);
}

proof fn lemma_hops_grown(old: Seq<NfaState>, g: Seq<NfaState>, i: int, t: int, n: nat)
    requires
        grown(old, g),
        hops(old, i, t, n),
    ensures
        hops(g, i, t, n),
    decreases n,
{
    if n > 0 {
        let x = choose|x: int| #[trigger] edge(old, i, x, true) && hops(old, x, t, (n - 1) as nat);
        lemma_hops_grown(old, g, x, t, (n - 1) as nat);
        assert(edge(g, i, x, true) && hops(g, x, t, (n - 1) as nat));
    }
}

/// What a state reaches, it still reaches when edges and states are added.
pub proof fn lemma_flows_grown(old: Seq<NfaState>, g: Seq<NfaState>, i: int, t: int)
    requires
        grown(old, g),
        flows(old, i, t),
    ensures
        flows(g, i, t),
{
    let n = choose|n: nat| hops(old, i, t, n);
    lemma_hops_grown(old, g, i, t, n);
}

/// An arena that holds the states of another as they are has grown from it.
pub proof fn lemma_same_grown(old: Seq<NfaState>, g: Seq<NfaState>)
    requires
        old.len() <= g.len(),
        forall|i: int| 0 <= i < old.len() ==> #[trigger] g[i] == old[i],
    ensures
        grown(old, g),
{
    assert forall|i: int, t: int| #[trigger] edge(old, i, t, true) implies edge(g, i, t, true) by {
        let k = choose|k: int|
            0 <= k < old[i].successors@.len() && (#[trigger] old[i].successors@[k]).id() == t
                && old[i].successors@[k] is Strong;
        assert(g[i] == old[i]);
        assert(g[i].successors@[k].id() == t);
    }
}

/// An arena with one more edge has grown; a forward one is an edge of it.
pub proof fn lemma_gains_grown(
    old: Seq<NfaState>,
    g: Seq<NfaState>,
    from: int,
    to: NfaStatePtr,
    strong: bool,
)
    requires
        0 <= from < old.len(),
        0 <= to.id() < old.len(),
        gains_edge(old, g, from, to, strong),
    ensures
        grown(old, g),
        strong ==> edge(g, from, to.id() as int, true),
{
    assert forall|i: int, t: int| #[trigger] edge(old, i, t, true) implies edge(g, i, t, true) by {
        let k = choose|k: int|
            0 <= k < old[i].successors@.len() && (#[trigger] old[i].successors@[k]).id() == t
                && old[i].successors@[k] is Strong;
        if i != from {
            assert(g[i] == old[i]);
        } else {
            assert(g[i].successors@[k] == old[i].successors@[k]);
        }
        assert(g[i].successors@[k].id() == t);
    }
    if strong {
        let last = g[from].successors@.len() - 1;
        assert(g[from].successors@[last] == g[from].successors@.last());
        assert(g[from].successors@[last].id() == to.id());
    }
}

/// States stay entered and left as they are when edges and states are
/// added.
pub proof fn lemma_wired_grown(
    old: Seq<NfaState>,
    g: Seq<NfaState>,
    lo: int,
    hi: int,
    s: int,
    k: int,
)
    requires
        grown(old, g),
        wired(old, lo, hi, s, k),
    ensures
        wired(g, lo, hi, s, k),
{
    lemma_flows_grown(old, g, s, k);
    assert forall|i: int| lo <= i < hi implies #[trigger] flows(g, s, i) by {
        lemma_flows_grown(old, g, s, i);
    }
    assert forall|i: int| lo <= i < hi implies #[trigger] flows(g, i, k) by {
        lemma_flows_grown(old, g, i, k);
    }
}

/// No states, entered where they are left.
pub proof fn lemma_wired_none(g: Seq<NfaState>, base: int, k: int)
    requires
        0 <= k < g.len(),
    ensures
        wired(g, base, base, k, k),
{
    lemma_flows_self(g, k);
}

/// One state with a forward edge to `k`.
pub proof fn lemma_wired_one(g: Seq<NfaState>, lo: int, k: int)
    requires
        edge(g, lo, k, true),
    ensures
        wired(g, lo, lo + 1, lo, k),
{
    lemma_flows_self(g, lo);
    lemma_flows_edge(g, lo, k);
}

/// States that are left into `cur`, before states that are entered there.
pub proof fn lemma_wired_cons(
    g: Seq<NfaState>,
    base: int,
    mid: int,
    hi: int,
    first: int,
    cur: int,
    k: int,
)
    requires
        wired(g, base, mid, cur, k),
        wired(g, mid, hi, first, cur),
    ensures
        wired(g, base, hi, first, k),
{
    lemma_flows_then(g, first, cur, k);
    assert forall|i: int| base <= i < hi implies #[trigger] flows(g, first, i) by {
        if i < mid {
            assert(flows(g, cur, i));
            lemma_flows_then(g, first, cur, i);
        }
    }
    assert forall|i: int| base <= i < hi implies #[trigger] flows(g, i, k) by {
        if i >= mid {
            assert(flows(g, i, cur));
            lemma_flows_then(g, i, cur, k);
        }
    }
}

/// An option: the state `lo` behind the inner states, the state `mid`
/// before them, and the edge that skips them.
pub proof fn lemma_wired_optional(g: Seq<NfaState>, lo: int, mid: int, first: int, k: int)
    requires
        wired(g, lo + 1, mid, first, lo),
        edge(g, lo, k, true),
        edge(g, mid, first, true),
        edge(g, mid, lo, true),
    ensures
        wired(g, lo, mid + 1, mid, k),
{
    lemma_flows_edge(g, lo, k);
    lemma_flows_edge(g, mid, first);
    lemma_flows_edge(g, mid, lo);
    lemma_flows_self(g, mid);
    lemma_flows_then(g, mid, lo, k);
    assert forall|i: int| lo <= i < mid + 1 implies #[trigger] flows(g, mid, i) by {
        if lo < i < mid {
            assert(flows(g, first, i));
            lemma_flows_then(g, mid, first, i);
        }
    }
    assert forall|i: int| lo <= i < mid + 1 implies #[trigger] flows(g, i, k) by {
        if lo < i < mid {
            assert(flows(g, i, lo));
            lemma_flows_then(g, i, lo, k);
        }
    }
}

/// A repetition: the state `lo` behind it, the state `lo + 1` before the
/// inner states, and the state `lo + 2` into which they are left.
pub proof fn lemma_wired_repeat(g: Seq<NfaState>, lo: int, hi: int, first: int, k: int)
    requires
        lo + 3 <= hi,
        wired(g, lo + 3, hi, first, lo + 2),
        edge(g, lo, k, true),
        edge(g, lo + 1, first, true),
        edge(g, lo + 1, lo, true),
        edge(g, lo + 2, lo, true),
    ensures
        wired(g, lo, hi, lo + 1, k),
{
    lemma_flows_edge(g, lo, k);
    lemma_flows_edge(g, lo + 1, first);
    lemma_flows_edge(g, lo + 1, lo);
    lemma_flows_edge(g, lo + 2, lo);
    lemma_flows_self(g, lo + 1);
    lemma_flows_then(g, lo + 1, lo, k);
    lemma_flows_then(g, lo + 1, first, lo + 2);
    lemma_flows_then(g, lo + 2, lo, k);
    assert forall|i: int| lo <= i < hi implies #[trigger] flows(g, lo + 1, i) by {
        if lo + 3 <= i {
            assert(flows(g, first, i));
            lemma_flows_then(g, lo + 1, first, i);
        }
    }
    assert forall|i: int| lo <= i < hi implies #[trigger] flows(g, i, k) by {
        if lo + 3 <= i {
            assert(flows(g, i, lo + 2));
            lemma_flows_then(g, i, lo + 2, k);
        }
    }
}

/// A fork and a join stay what they are when edges and states are added.
pub proof fn lemma_forked_grown(
    old: Seq<NfaState>,
    g: Seq<NfaState>,
    lo: int,
    hi: int,
    k: int,
    some: bool,
)
    requires
        grown(old, g),
        forked(old, lo, hi, k, some),
    ensures
        forked(g, lo, hi, k, some),
{
    if some {
        lemma_flows_grown(old, g, lo + 1, lo);
    }
    assert forall|i: int| lo + 2 <= i < hi implies #[trigger] flows(g, lo + 1, i) by {
        lemma_flows_grown(old, g, lo + 1, i);
    }
    assert forall|i: int| lo + 2 <= i < hi implies #[trigger] flows(g, i, lo) by {
        lemma_flows_grown(old, g, i, lo);
    }
}

/// One more branch between a fork and a join: states that are left into
/// the join, and an edge from the fork to where they are entered.
pub proof fn lemma_forked_more(
    g: Seq<NfaState>,
    lo: int,
    mid: int,
    hi: int,
    entry: int,
    k: int,
    some: bool,
)
    requires
        forked(g, lo, mid, k, some),
        wired(g, mid, hi, entry, lo),
        edge(g, lo + 1, entry, true),
    ensures
        forked(g, lo, hi, k, true),
{
    lemma_flows_edge(g, lo + 1, entry);
    lemma_flows_then(g, lo + 1, entry, lo);
    assert forall|i: int| lo + 2 <= i < hi implies #[trigger] flows(g, lo + 1, i) by {
        if mid <= i {
            assert(flows(g, entry, i));
            lemma_flows_then(g, lo + 1, entry, i);
        }
    }
    assert forall|i: int| lo + 2 <= i < hi implies #[trigger] flows(g, i, lo) by {}
}

/// A group: a fork that reaches its join.
pub proof fn lemma_wired_group(g: Seq<NfaState>, lo: int, hi: int, k: int)
    requires
        forked(g, lo, hi, k, true),
    ensures
        wired(g, lo, hi, lo + 1, k),
{
    lemma_flows_edge(g, lo, k);
    lemma_flows_self(g, lo + 1);
    lemma_flows_then(g, lo + 1, lo, k);
    assert forall|i: int| lo <= i < hi implies #[trigger] flows(g, lo + 1, i) by {}
    assert forall|i: int| lo <= i < hi implies #[trigger] flows(g, i, k) by {
        if lo + 2 <= i {
            assert(flows(g, i, lo));
            lemma_flows_then(g, i, lo, k);
        }
    }
}

/// An automaton whose start has a forward edge to where the states between
/// it and the end are entered, and whose states are left into the end.
pub proof fn lemma_connected(g: Seq<NfaState>, entry: int)
    requires
        g.len() >= 2,
        wired(g, 2, g.len() as int, entry, 1),
        edge(g, 0, entry, true),
    ensures
        connected(g),
{
    lemma_flows_edge(g, 0, entry);
    lemma_flows_self(g, 0);
    lemma_flows_self(g, 1);
    lemma_flows_then(g, 0, entry, 1);
    assert forall|i: int| 0 <= i < g.len() implies #[trigger] flows(g, 0, i) by {
        if 2 <= i {
            assert(flows(g, entry, i));
            lemma_flows_then(g, 0, entry, i);
        }
    }
    assert forall|i: int| 0 <= i < g.len() implies #[trigger] flows(g, i, 1) by {}
}

} // verus!
