//! What an automaton accepts, told state by state, and that a run of live
//! states accepts the same.

use vstd::prelude::*;
use crate::regex::nfa::graph::{edge, in_closure, is_dummy, reach};
use crate::regex::nfa::run::{accepts_set, closure_set, language, run_set, step_set, RegexCursor};
use crate::regex::nfa::state::{kind_accepts, NfaState, NfaStateKind};
use crate::wordlist::trie::cursor::{cursor_accepts, run, StateT};

verus! {

/// Whether the automaton, entered at state `s`, accepts `w` along a path of
/// no more than `n` edges. A state with a character takes the first
/// character of `w`, which it must let pass; a state without, and the
/// start, take none; the end accepts the empty word.
pub open spec fn leads(g: Seq<NfaState>, s: int, w: Seq<char>, n: nat) -> bool
    decreases n,
{
    &&& 0 <= s < g.len()
    &&& match g[s].kind {
        NfaStateKind::Accept => w.len() == 0,
        NfaStateKind::Dummy => n > 0 && exists|t: int| #[trigger]
            edge(g, s, t, false) && leads(g, t, w, (n - 1) as nat),
        NfaStateKind::Start => n > 0 && exists|t: int| #[trigger]
            edge(g, s, t, false) && leads(g, t, w, (n - 1) as nat),
        _ => n > 0 && w.len() > 0 && kind_accepts(g[s].kind, w[0]) && exists|t: int| #[trigger]
            edge(g, s, t, false) && leads(g, t, w.skip(1), (n - 1) as nat),
    }
}

/// Whether the automaton, entered at state `s`, accepts `w`.
pub open spec fn reaches(g: Seq<NfaState>, s: int, w: Seq<char>) -> bool {
    exists|n: nat| leads(g, s, w, n)
}

/// The end has no edge, and no edge leads to a start.
pub open spec fn tidy(g: Seq<NfaState>) -> bool {
    &&& forall|i: int| 0 <= i < g.len() && (#[trigger] g[i]).kind is Accept ==> g[i].successors@.len() == 0
    &&& forall|i: int, t: int| #[trigger] edge(g, i, t, false) ==> !(g[t].kind is Start)
}

/// What the edges lead to has an edge into it.
proof fn lemma_reach_last_edge(g: Seq<NfaState>, i: int, j: int, n: nat) -> (x: int)
    requires
        reach(g, i, j, false, n),
    ensures
        edge(g, x, j, false),
    decreases n,
{
    if edge(g, i, j, false) {
        i
    } else {
        let d = choose|d: int| #[trigger]
            edge(g, i, d, false) && is_dummy(g, d) && reach(g, d, j, false, (n - 1) as nat);
        lemma_reach_last_edge(g, d, j, (n - 1) as nat)
    }
}

/// What is accepted from behind an edge of `q` is accepted from a state of
/// the closure of `q`.
proof fn lemma_edge_to_closure(g: Seq<NfaState>, q: int, t: int, w: Seq<char>, n: nat) -> (found:
    int)
    requires
        tidy(g),
        edge(g, q, t, false),
        leads(g, t, w, n),
    ensures
        in_closure(g, q, found, false),
        reaches(g, found, w),
    decreases n,
{
    if is_dummy(g, t) {
        let next = choose|next: int| #[trigger]
            edge(g, t, next, false) && leads(g, next, w, (n - 1) as nat);
        let found = lemma_edge_to_closure(g, t, next, w, (n - 1) as nat);
        let m = choose|m: nat| reach(g, t, found, false, m);
        assert(reach(g, q, found, false, m + 1));
        found
    } else {
        assert(reach(g, q, t, false, 0));
        t
    }
}

/// What is accepted from a state of the closure of `q` is accepted from
/// behind an edge of `q`.
proof fn lemma_closure_to_edge(g: Seq<NfaState>, q: int, found: int, w: Seq<char>, m: nat) -> (t:
    int)
    requires
        reach(g, q, found, false, m),
        reaches(g, found, w),
    ensures
        edge(g, q, t, false),
        reaches(g, t, w),
    decreases m,
{
    if edge(g, q, found, false) {
        found
    } else {
        let d = choose|d: int| #[trigger]
            edge(g, q, d, false) && is_dummy(g, d) && reach(g, d, found, false, (m - 1) as nat);
        let next = lemma_closure_to_edge(g, d, found, w, (m - 1) as nat);
        let n = choose|n: nat| leads(g, next, w, n);
        assert(leads(g, d, w, n + 1));
        d
    }
}

/// A run of one character and then the rest is the run of all.
proof fn lemma_run_set_front(g: Seq<NfaState>, live: Set<int>, w: Seq<char>)
    requires
        w.len() > 0,
    ensures
        run_set(g, live, w) == run_set(g, step_set(g, live, w[0]), w.skip(1)),
    decreases w.len(),
{
    if w.len() == 1 {
        assert(w.drop_last() =~= Seq::<char>::empty());
        assert(w.skip(1) =~= Seq::<char>::empty());
        assert(run_set(g, live, w.drop_last()) == live);
        assert(w.last() == w[0]);
        assert(run_set(g, step_set(g, live, w[0]), w.skip(1)) == step_set(g, live, w[0]));
    } else {
        let init = w.drop_last();
        lemma_run_set_front(g, live, init);
        assert(init.skip(1) =~= w.skip(1).drop_last());
        assert(init[0] == w[0]);
        assert(w.skip(1).last() == w.last());
        assert(run_set(g, live, w) == step_set(g, run_set(g, live, init), w.last()));
        assert(run_set(g, step_set(g, live, w[0]), w.skip(1)) == step_set(
            g,
            run_set(g, step_set(g, live, w[0]), w.skip(1).drop_last()),
            w.skip(1).last(),
        ));
    }
}

/// The live states `live` are states with a character, or ends.
pub open spec fn live_ok(g: Seq<NfaState>, live: Set<int>) -> bool {
    forall|q: int| #[trigger]
        live.contains(q) ==> 0 <= q < g.len() && !is_dummy(g, q) && !(g[q].kind is Start)
}

/// The end is live after a run through `w` exactly where the automaton,
/// entered at a state that was live before, accepts `w`.
proof fn lemma_run_leads(g: Seq<NfaState>, live: Set<int>, w: Seq<char>)
    requires
        tidy(g),
        live_ok(g, live),
    ensures
        accepts_set(g, run_set(g, live, w)) <==> exists|q: int|
            live.contains(q) && #[trigger] reaches(g, q, w),
    decreases w.len(),
{
    if w.len() == 0 {
        if accepts_set(g, live) {
            let q = choose|q: int|
                live.contains(q) && 0 <= q < g.len() && (#[trigger] g[q]).kind is Accept;
            assert(leads(g, q, w, 0));
            assert(reaches(g, q, w));
        }
        if exists|q: int| live.contains(q) && #[trigger] reaches(g, q, w) {
            let q = choose|q: int| live.contains(q) && #[trigger] reaches(g, q, w);
            let n = choose|n: nat| leads(g, q, w, n);
            assert(g[q].kind is Accept);
        }
    } else {
        let c = w[0];
        let rest = w.skip(1);
        let next = step_set(g, live, c);
        lemma_run_set_front(g, live, w);
        assert forall|q: int| #[trigger] next.contains(q) implies 0 <= q < g.len() && !is_dummy(
            g,
            q,
        ) && !(g[q].kind is Start) by {
            let i = choose|i: int|
                live.contains(i) && 0 <= i < g.len() && kind_accepts(g[i].kind, c)
                    && #[trigger] in_closure(g, i, q, false);
            let m = choose|m: nat| reach(g, i, q, false, m);
            let x = lemma_reach_last_edge(g, i, q, m);
        }
        lemma_run_leads(g, next, rest);
        if accepts_set(g, run_set(g, live, w)) {
            let found = choose|found: int| next.contains(found) && #[trigger] reaches(g, found, rest);
            let q = choose|q: int|
                live.contains(q) && 0 <= q < g.len() && kind_accepts(g[q].kind, c)
                    && #[trigger] in_closure(g, q, found, false);
            let m = choose|m: nat| reach(g, q, found, false, m);
            let t = lemma_closure_to_edge(g, q, found, rest, m);
            let n = choose|n: nat| leads(g, t, rest, n);
            // `q` has an edge, so it is no end
            let k = choose|k: int|
                0 <= k < g[q].successors@.len() && (#[trigger] g[q].successors@[k]).id() == t;
            assert(leads(g, q, w, n + 1));
            assert(reaches(g, q, w));
        }
        if exists|q: int| live.contains(q) && #[trigger] reaches(g, q, w) {
            let q = choose|q: int| live.contains(q) && #[trigger] reaches(g, q, w);
            let n = choose|n: nat| leads(g, q, w, n);
            let t = choose|t: int| #[trigger]
                edge(g, q, t, false) && leads(g, t, rest, (n - 1) as nat);
            let found = lemma_edge_to_closure(g, q, t, rest, (n - 1) as nat);
            assert(next.contains(found));
        }
    }
}

/// An automaton with its start first accepts a word by its run from the
/// closure of the start exactly where, entered at the start, it accepts it.
pub proof fn lemma_language_leads(g: Seq<NfaState>, w: Seq<char>)
    requires
        tidy(g),
        g.len() > 0,
        g[0].kind is Start,
    ensures
        language(g, w) <==> reaches(g, 0, w),
{
    let live = closure_set(g, 0);
    assert forall|q: int| #[trigger] live.contains(q) implies 0 <= q < g.len() && !is_dummy(g, q)
        && !(g[q].kind is Start) by {
        let m = choose|m: nat| reach(g, 0, q, false, m);
        let x = lemma_reach_last_edge(g, 0, q, m);
    }
    lemma_run_leads(g, live, w);
    if language(g, w) {
        let q = choose|q: int| live.contains(q) && #[trigger] reaches(g, q, w);
        let m = choose|m: nat| reach(g, 0, q, false, m);
        let t = lemma_closure_to_edge(g, 0, q, w, m);
        let n = choose|n: nat| leads(g, t, w, n);
        assert(leads(g, 0, w, n + 1));
    }
    if reaches(g, 0, w) {
        let n = choose|n: nat| leads(g, 0, w, n);
        let t = choose|t: int| #[trigger] edge(g, 0, t, false) && leads(g, t, w, (n - 1) as nat);
        let found = lemma_edge_to_closure(g, 0, t, w, (n - 1) as nat);
        assert(live.contains(found));
    }
}

/// Where the cursor of a search by an automaton stands after `letters`: at
/// the live states of the run, unless none is left.
proof fn lemma_regex_run(g: Seq<NfaState>, live: Set<int>, letters: Seq<char>)
    ensures
        match run::<RegexCursor>((g, live), letters) {
            Some(v) => v == (g, run_set(g, live, letters)),
            None => forall|j: int| !run_set(g, live, letters).contains(j),
        },
    decreases letters.len(),
{
    if letters.len() > 0 {
        let init = letters.drop_last();
        let c = letters.last();
        lemma_regex_run(g, live, init);
        match run::<RegexCursor>((g, live), init) {
            Some(v) => {
                assert(run::<RegexCursor>((g, live), letters) == RegexCursor::step(v, c));
                let next = step_set(g, run_set(g, live, init), c);
                assert(run_set(g, live, letters) == next);
                assert(v.0 == g);
                assert(v.1 == run_set(g, live, init));
                assert(step_set(v.0, v.1, c) == next);
                if exists|j: int| next.contains(j) {
                    let j = choose|j: int| next.contains(j);
                    assert(step_set(v.0, v.1, c).contains(j));
                    assert(RegexCursor::step(v, c) == Some((v.0, step_set(v.0, v.1, c))));
                } else {
                    assert(RegexCursor::step(v, c) is None);
                    assert forall|j: int| !run_set(g, live, letters).contains(j) by {}
                }
            },
            None => {
                assert(run::<RegexCursor>((g, live), letters) is None);
                assert forall|j: int| !run_set(g, live, letters).contains(j) by {
                    if step_set(g, run_set(g, live, init), c).contains(j) {
                        let i = choose|i: int|
                            run_set(g, live, init).contains(i) && 0 <= i < g.len() && kind_accepts(
                                g[i].kind,
                                c,
                            ) && #[trigger] in_closure(g, i, j, false);
                    }
                }
            },
        }
    } else {
        assert(run::<RegexCursor>((g, live), letters) == Some((g, live)));
        assert(run_set(g, live, letters) == live);
    }
}

/// The cursor of a search by an automaton accepts after `letters` exactly
/// where the run of the automaton through `letters` accepts.
pub proof fn lemma_regex_cursor(g: Seq<NfaState>, live: Set<int>, letters: Seq<char>)
    ensures
        cursor_accepts::<RegexCursor>((g, live), letters) <==> accepts_set(
            g,
            run_set(g, live, letters),
        ),
{
    lemma_regex_run(g, live, letters);
}

/// The cursor with which a search by an automaton starts accepts after
/// `letters` exactly where the automaton accepts `letters`.
pub proof fn lemma_regex_start(g: Seq<NfaState>, letters: Seq<char>)
    ensures
        cursor_accepts::<RegexCursor>((g, closure_set(g, 0)), letters) <==> language(g, letters),
{
    lemma_regex_cursor(g, closure_set(g, 0), letters);
}

} // verus!
