//! The arena of the states of an automaton, and the closure of a state: the
//! states with a character that its edges lead to, through states without.

use vstd::prelude::*;
use crate::regex::nfa::state::{same_kind, NfaState, NfaStateKind, NfaStatePtr};

verus! {

/// Whether state `i` carries no character.
pub open spec fn is_dummy(g: Seq<NfaState>, i: int) -> bool {
    g[i].kind is Dummy
}

/// Whether state `i` has an edge to state `j`; with `strong_only`, a
/// forward edge. An edge to a state that the arena does not hold is dead,
/// and is none.
pub open spec fn edge(g: Seq<NfaState>, i: int, j: int, strong_only: bool) -> bool {
    &&& 0 <= i < g.len()
    &&& 0 <= j < g.len()
    &&& exists|k: int|
        0 <= k < g[i].successors@.len() && (#[trigger] g[i].successors@[k]).id() == j && (
        strong_only ==> g[i].successors@[k] is Strong)
}

/// Whether the edges lead from state `i` to state `j` through no more than
/// `n` states between, all of them without a character.
pub open spec fn reach(g: Seq<NfaState>, i: int, j: int, strong_only: bool, n: nat) -> bool
    decreases n,
{
    edge(g, i, j, strong_only) || (n > 0 && exists|d: int| #[trigger]
        edge(g, i, d, strong_only) && is_dummy(g, d) && reach(
            g,
            d,
            j,
            strong_only,
            (n - 1) as nat,
        ))
}

/// Whether state `j` is in the closure of state `i`: it carries a
/// character, or is the start or the end, and the edges lead from `i` to it
/// through states without a character.
pub open spec fn in_closure(g: Seq<NfaState>, i: int, j: int, strong_only: bool) -> bool {
    &&& 0 <= j < g.len()
    &&& !is_dummy(g, j)
    &&& exists|n: nat| reach(g, i, j, strong_only, n)
}

/// Where the edges lead to a state without a character, they lead on along
/// each of its edges.
proof fn lemma_reach_extend(
    g: Seq<NfaState>,
    from: int,
    i: int,
    j: int,
    strong_only: bool,
    n: nat,
)
    requires
        reach(g, from, i, strong_only, n),
        is_dummy(g, i),
        edge(g, i, j, strong_only),
    ensures
        reach(g, from, j, strong_only, n + 1),
    decreases n,
{
    if edge(g, from, i, strong_only) {
        assert(reach(g, i, j, strong_only, 0));
        if n > 0 {
            lemma_reach_more(g, i, j, strong_only, 0, n);
        }
    } else {
        let d = choose|d: int| #[trigger]
            edge(g, from, d, strong_only) && is_dummy(g, d) && reach(
                g,
                d,
                i,
                strong_only,
                (n - 1) as nat,
            );
        lemma_reach_extend(g, d, i, j, strong_only, (n - 1) as nat);
    }
}

/// What is reached through few states between is reached through more.
proof fn lemma_reach_more(g: Seq<NfaState>, i: int, j: int, strong_only: bool, n: nat, m: nat)
    requires
        reach(g, i, j, strong_only, n),
        n <= m,
    ensures
        reach(g, i, j, strong_only, m),
    decreases n,
{
    if !edge(g, i, j, strong_only) {
        let d = choose|d: int| #[trigger]
            edge(g, i, d, strong_only) && is_dummy(g, d) && reach(
                g,
                d,
                j,
                strong_only,
                (n - 1) as nat,
            );
        lemma_reach_more(g, d, j, strong_only, (n - 1) as nat, (m - 1) as nat);
    }
}

/// The number of entries that are `false`.
pub open spec fn count_false(s: Seq<bool>) -> nat
    decreases s.len(),
{
    if s.len() == 0 {
        0
    } else {
        count_false(s.drop_last()) + if s.last() {
            0nat
        } else {
            1nat
        }
    }
}

proof fn lemma_count_false_set(s: Seq<bool>, j: int)
    requires
        0 <= j < s.len(),
        !s[j],
    ensures
        count_false(s.update(j, true)) == count_false(s) - 1,
    decreases s.len(),
{
    if j == s.len() - 1 {
        assert(s.update(j, true).drop_last() =~= s.drop_last());
    } else {
        lemma_count_false_set(s.drop_last(), j);
        assert(s.update(j, true).drop_last() =~= s.drop_last().update(j, true));
    }
}

/// Whether every edge of state `i` leads to a state that has been seen, if
/// it is without a character, and marked, if not.
pub open spec fn closed(
    g: Seq<NfaState>,
    i: int,
    strong_only: bool,
    seen: Seq<bool>,
    marked: Seq<bool>,
) -> bool {
    forall|j: int| #[trigger]
        edge(g, i, j, strong_only) ==> if is_dummy(g, j) {
            seen[j]
        } else {
            marked[j]
        }
}

/// When every state that was seen has all its edges followed, every state
/// of the closure is marked.
proof fn lemma_closure_complete(
    g: Seq<NfaState>,
    from: int,
    i: int,
    j: int,
    strong_only: bool,
    n: nat,
    seen: Seq<bool>,
    marked: Seq<bool>,
)
    requires
        seen.len() == g.len(),
        marked.len() == g.len(),
        closed(g, from, strong_only, seen, marked),
        forall|d: int| 0 <= d < g.len() && seen[d] ==> closed(g, d, strong_only, seen, marked),
        i == from || (0 <= i < g.len() && seen[i]),
        reach(g, i, j, strong_only, n),
        !is_dummy(g, j),
    ensures
        marked[j],
    decreases n,
{
    assert(closed(g, i, strong_only, seen, marked));
    if !edge(g, i, j, strong_only) {
        let d = choose|d: int| #[trigger]
            edge(g, i, d, strong_only) && is_dummy(g, d) && reach(
                g,
                d,
                j,
                strong_only,
                (n - 1) as nat,
            );
        lemma_closure_complete(g, from, d, j, strong_only, (n - 1) as nat, seen, marked);
    }
}

/// The two references are to the same state, with the same kind, and both
/// forward or both back.
pub open spec fn same_ptr(a: NfaStatePtr, b: NfaStatePtr) -> bool {
    &&& a.id() == b.id()
    &&& same_kind(a.kind(), b.kind())
    &&& a is Strong == b is Strong
}

/// `new` is `old` with one more edge out of state `from`, the last of its
/// edges: a reference to the state of `to`, forward where `strong` is set,
/// else back.
pub open spec fn gains_edge(
    old: Seq<NfaState>,
    new: Seq<NfaState>,
    from: int,
    to: NfaStatePtr,
    strong: bool,
) -> bool {
    let before = old[from].successors@;
    let after = new[from].successors@;
    &&& new.len() == old.len()
    &&& forall|i: int| 0 <= i < old.len() && i != from ==> #[trigger] new[i] == old[i]
    &&& new[from].kind == old[from].kind
    &&& after.len() == before.len() + 1
    &&& forall|k: int| 0 <= k < before.len() ==> #[trigger] after[k] == before[k]
    &&& after.last().id() == to.id()
    &&& same_kind(after.last().kind(), to.kind())
    &&& after.last() is Strong == strong
}

/// The arena of the states of an automaton. A state is named by its place.
pub struct NfaGraph {
    states: Vec<NfaState>,
}

fn falses(n: usize) -> (v: Vec<bool>)
    ensures
        v@.len() == n,
        forall|i: int| 0 <= i < n ==> !v@[i],
{
    let mut v: Vec<bool> = Vec::with_capacity(n);
    let mut i: usize = 0;
    while i < n
        invariant
            i <= n,
            v@.len() == i,
            forall|k: int| 0 <= k < i ==> !v@[k],
        decreases n - i,
    {
        v.push(false);
        i = i + 1;
    }
    v
}

impl NfaGraph {
    /// The states, each at the place that is its id.
    pub closed spec fn states(&self) -> Seq<NfaState> {
        self.states@
    }

    /// Whether `ptr` refers to a state of this arena.
    pub open spec fn holds(&self, ptr: NfaStatePtr) -> bool {
        ptr.id() < self.states().len()
    }

    /// An arena without a state.
    pub fn new() -> (graph: NfaGraph)
        ensures
            graph.states().len() == 0,
    {
        NfaGraph { states: Vec::new() }
    }

    /// The number of states.
    pub fn len(&self) -> (n: usize)
        ensures
            n == self.states().len(),
    {
        self.states.len()
    }

    /// A new state of kind `kind`, without an edge, and a forward reference
    /// to it.
    pub fn strong_ptr(&mut self, kind: NfaStateKind) -> (ptr: NfaStatePtr)
        ensures
            final(self).states().len() == old(self).states().len() + 1,
            forall|i: int|
                0 <= i < old(self).states().len() ==> final(self).states()[i] == old(self).states()[i],
            ptr is Strong,
            ptr.id() == old(self).states().len(),
            same_kind(ptr.kind(), kind),
            same_kind(final(self).states()[ptr.id() as int].kind, kind),
            final(self).states()[ptr.id() as int].kind is Dummy == kind is Dummy,
            final(self).states()[ptr.id() as int].successors@.len() == 0,
    {
        let id = self.states.len();
        let copy = kind.duplicate();
        self.states.push(NfaState { kind, successors: Vec::new() });
        NfaStatePtr::Strong(id, copy)
    }

    /// Adds to the state `from` a forward edge to the state of `other`.
    pub fn add_successor(&mut self, from: &NfaStatePtr, other: &NfaStatePtr)
        requires
            old(self).holds(*from),
        ensures
            gains_edge(old(self).states(), final(self).states(), from.id() as int, *other, true),
    {
        let i = from.index();
        let ptr = other.to_strong();
        self.states[i].successors.push(ptr);
    }

    /// Adds to the state `from` an edge back to the state of `other`.
    pub fn add_weak_successor(&mut self, from: &NfaStatePtr, other: &NfaStatePtr)
        requires
            old(self).holds(*from),
        ensures
            gains_edge(old(self).states(), final(self).states(), from.id() as int, *other, false),
    {
        let i = from.index();
        let ptr = other.weak_clone();
        self.states[i].successors.push(ptr);
    }

    /// The edges of the state `ptr`, in the order in which they were added.
    pub fn get_successors(&self, ptr: &NfaStatePtr) -> (edges: Vec<NfaStatePtr>)
        requires
            self.holds(*ptr),
        ensures
            edges@.len() == self.states()[ptr.id() as int].successors@.len(),
            forall|k: int|
                0 <= k < edges@.len() ==> same_ptr(
                    #[trigger] edges@[k],
                    self.states()[ptr.id() as int].successors@[k],
                ),
    {
        let i = ptr.index();
        let n = self.states[i].successors.len();
        let mut edges: Vec<NfaStatePtr> = Vec::with_capacity(n);
        let mut k: usize = 0;
        while k < n
            invariant
                k <= n,
                i == ptr.id(),
                i < self.states@.len(),
                n == self.states@[i as int].successors@.len(),
                edges@.len() == k,
                forall|m: int|
                    0 <= m < k ==> same_ptr(
                        #[trigger] edges@[m],
                        self.states@[i as int].successors@[m],
                    ),
            decreases n - k,
        {
            edges.push(self.states[i].successors[k].duplicate());
            k = k + 1;
        }
        edges
    }

    /// Gives the state `ptr` the edges `other` in place of its own.
    pub fn set_successors(&mut self, ptr: &NfaStatePtr, other: Vec<NfaStatePtr>)
        requires
            old(self).holds(*ptr),
        ensures
            final(self).states().len() == old(self).states().len(),
            forall|i: int|
                0 <= i < old(self).states().len() && i != ptr.id() ==> final(self).states()[i]
                    == old(self).states()[i],
            final(self).states()[ptr.id() as int].kind == old(self).states()[ptr.id() as int].kind,
            final(self).states()[ptr.id() as int].successors == other,
    {
        let i = ptr.index();
        self.states[i].successors = other;
    }

    /// Whether the state `ptr` lets the character `next_char` pass.
    pub fn accepts(&self, ptr: &NfaStatePtr, next_char: char) -> (pass: bool)
        requires
            self.holds(*ptr),
        ensures
            pass == crate::regex::nfa::state::kind_accepts(
                self.states()[ptr.id() as int].kind,
                next_char,
            ),
    {
        self.states[ptr.index()].kind.accepts(next_char)
    }

    /// Whether state `i` is the end of the automaton.
    pub fn is_accept(&self, i: usize) -> (b: bool)
        requires
            i < self.states().len(),
        ensures
            b == self.states()[i as int].kind is Accept,
    {
        match self.states[i].kind {
            NfaStateKind::Accept => true,
            _ => false,
        }
    }

    /// The ids of the closure of state `from`, in the order in which the
    /// edges lead to them: each once.
#[verifier::rlimit(40)]
    pub fn closure_ids(&self, from: usize, strong_only: bool) -> (out: Vec<usize>)
        requires
            from < self.states().len(),
        ensures
            out@.no_duplicates(),
            forall|k: int|
                0 <= k < out@.len() ==> in_closure(
                    self.states(),
                    from as int,
                    (#[trigger] out@[k]) as int,
                    strong_only,
                ),
            forall|j: int| #[trigger]
                in_closure(self.states(), from as int, j, strong_only) ==> out@.contains(j as usize),
    {
        let ghost g = self.states@;
        let n = self.states.len();
        let mut seen = falses(n);
        let mut marked = falses(n);
        let mut out: Vec<usize> = Vec::new();
        let mut work: Vec<usize> = Vec::new();
        work.push(from);
        let ghost mut done: Set<int> = Set::empty();
        proof {
            assert(work@[0] == from);
        }
        while work.len() > 0
            invariant
                g == self.states@,
                n == g.len(),
                from < n,
                seen@.len() == n,
                marked@.len() == n,
                forall|k: int|
                    0 <= k < work@.len() ==> (#[trigger] work@[k]) < n && (work@[k] == from
                        || seen@[work@[k] as int]),
                forall|j: int|
                    0 <= j < n && #[trigger] seen@[j] ==> is_dummy(g, j) && exists|m: nat|
                        reach(g, from as int, j, strong_only, m),
                forall|j: int|
                    0 <= j < n && #[trigger] marked@[j] ==> !is_dummy(g, j) && exists|m: nat|
                        reach(g, from as int, j, strong_only, m),
                forall|j: int| 0 <= j < n ==> (#[trigger] marked@[j] <==> out@.contains(j as usize)),
                forall|k: int| 0 <= k < out@.len() ==> (#[trigger] out@[k]) < n,
                out@.no_duplicates(),
                forall|i: int| #[trigger]
                    done.contains(i) ==> 0 <= i < n && closed(g, i, strong_only, seen@, marked@),
                done.contains(from as int) || work@.contains(from),
                forall|j: int|
                    0 <= j < n && #[trigger] seen@[j] ==> done.contains(j) || work@.contains(
                        j as usize,
                    ),
            decreases count_false(seen@), work@.len(),
        {
            let ghost c0 = count_false(seen@);
            let ghost w0 = work@.len();
            let ghost work0 = work@;
            let i = work.pop().unwrap();
            let edges = self.states[i].successors.len();
            let mut k: usize = 0;
            proof {
                assert(work0[w0 - 1] == i);
                assert(work@ =~= work0.drop_last());
                if !done.contains(from as int) && from != i {
                    let m = choose|m: int| 0 <= m < work0.len() && work0[m] == from;
                    assert(work@[m] == from);
                }
                assert forall|j: int| 0 <= j < n && #[trigger] seen@[j] implies done.contains(j)
                    || work@.contains(j as usize) || j == i by {
                    if !done.contains(j) && j != i {
                        let m = choose|m: int| 0 <= m < work0.len() && work0[m] == j as usize;
                        assert(work@[m] == j as usize);
                    }
                }
            }
            while k < edges
                invariant
                    g == self.states@,
                    n == g.len(),
                    from < n,
                    i < n,
                    i == from || seen@[i as int],
                    edges == g[i as int].successors@.len(),
                    k <= edges,
                    seen@.len() == n,
                    marked@.len() == n,
                    forall|m: int|
                        0 <= m < work@.len() ==> (#[trigger] work@[m]) < n && (work@[m] == from
                            || seen@[work@[m] as int]),
                    forall|j: int|
                        0 <= j < n && #[trigger] seen@[j] ==> is_dummy(g, j) && exists|m: nat|
                            reach(g, from as int, j, strong_only, m),
                    forall|j: int|
                        0 <= j < n && #[trigger] marked@[j] ==> !is_dummy(g, j) && exists|m: nat|
                            reach(g, from as int, j, strong_only, m),
                    forall|j: int|
                        0 <= j < n ==> (#[trigger] marked@[j] <==> out@.contains(j as usize)),
                    forall|m: int| 0 <= m < out@.len() ==> (#[trigger] out@[m]) < n,
                    out@.no_duplicates(),
                    forall|d: int| #[trigger]
                        done.contains(d) ==> 0 <= d < n && closed(
                            g,
                            d,
                            strong_only,
                            seen@,
                            marked@,
                        ),
                    done.contains(from as int) || work@.contains(from) || from == i,
                    forall|j: int|
                        0 <= j < n && #[trigger] seen@[j] ==> done.contains(j) || work@.contains(
                            j as usize,
                        ) || j == i,
                    forall|m: int|
                        0 <= m < k && (#[trigger] g[i as int].successors@[m]).id() < n && (
                        strong_only ==> g[i as int].successors@[m] is Strong) ==> if is_dummy(
                            g,
                            g[i as int].successors@[m].id() as int,
                        ) {
                            seen@[g[i as int].successors@[m].id() as int]
                        } else {
                            marked@[g[i as int].successors@[m].id() as int]
                        },
                    count_false(seen@) < c0 || (count_false(seen@) == c0 && work@.len() == w0 - 1),
                decreases edges - k,
            {
                let ptr = &self.states[i].successors[k];
                let j = ptr.index();
                if j < n && (!strong_only || ptr.is_strong()) {
                    let ghost seen0 = seen@;
                    let ghost marked0 = marked@;
                    let ghost out0 = out@;
                    let ghost work1 = work@;
                    proof {
                        assert(edge(g, i as int, j as int, strong_only));
                        // the edges lead from `from` to `j`
                        if i == from {
                            assert(reach(g, from as int, j as int, strong_only, 0));
                        } else {
                            let m = choose|m: nat| reach(g, from as int, i as int, strong_only, m);
                            lemma_reach_extend(g, from as int, i as int, j as int, strong_only, m);
                        }
                    }
                    let dummy = match self.states[j].kind {
                        NfaStateKind::Dummy => true,
                        _ => false,
                    };
                    if dummy {
                        if !seen[j] {
                            seen.set(j, true);
                            work.push(j);
                            proof {
                                lemma_count_false_set(seen0, j as int);
                                assert(work@ =~= work1.push(j));
                                if !done.contains(from as int) && from != i {
                                    let m = choose|m: int| 0 <= m < work1.len() && work1[m] == from;
                                    assert(work@[m] == from);
                                }
                                assert forall|x: int|
                                    0 <= x < n && #[trigger] seen@[x] implies done.contains(x)
                                    || work@.contains(x as usize) || x == i by {
                                    if x == j {
                                        assert(work@[work@.len() - 1] == j);
                                    } else if !done.contains(x) && x != i {
                                        assert(seen0[x]);
                                        let m = choose|m: int|
                                            0 <= m < work1.len() && work1[m] == x as usize;
                                        assert(work@[m] == x as usize);
                                    }
                                }
                            }
                        }
                    } else {
                        if !marked[j] {
                            marked.set(j, true);
                            out.push(j);
                            proof {
                                assert forall|x: int| 0 <= x < n implies (#[trigger] marked@[x]
                                    <==> out@.contains(x as usize)) by {
                                    if x == j {
                                        assert(out@[out@.len() - 1] == j);
                                    } else {
                                        if out0.contains(x as usize) {
                                            let m = choose|m: int|
                                                0 <= m < out0.len() && out0[m] == x as usize;
                                            assert(out@[m] == x as usize);
                                        }
                                        if out@.contains(x as usize) {
                                            let m = choose|m: int|
                                                0 <= m < out@.len() && out@[m] == x as usize;
                                            assert(out0[m] == x as usize);
                                        }
                                    }
                                }
                            }
                        }
                    }
                    proof {
                        assert forall|d: int| #[trigger] done.contains(d) implies 0 <= d < n
                            && closed(g, d, strong_only, seen@, marked@) by {
                            assert(closed(g, d, strong_only, seen0, marked0));
                        }
                    }
                }
                k = k + 1;
            }
            proof {
                assert(closed(g, i as int, strong_only, seen@, marked@)) by {
                    assert forall|j: int| #[trigger] edge(g, i as int, j, strong_only) implies if is_dummy(
                        g,
                        j,
                    ) {
                        seen@[j]
                    } else {
                        marked@[j]
                    } by {
                        let m = choose|m: int|
                            0 <= m < g[i as int].successors@.len() && (
                            #[trigger] g[i as int].successors@[m]).id() == j && (strong_only
                                ==> g[i as int].successors@[m] is Strong);
                        assert(g[i as int].successors@[m].id() < n);
                    }
                }
                done = done.insert(i as int);
            }
        }
        proof {
            assert(work@.len() == 0);
            assert forall|k: int| 0 <= k < out@.len() implies in_closure(
                g,
                from as int,
                (#[trigger] out@[k]) as int,
                strong_only,
            ) by {
                assert(out@.contains(out@[k]));
                assert(marked@[out@[k] as int]);
            }
            assert forall|j: int| #[trigger]
                in_closure(g, from as int, j, strong_only) implies out@.contains(j as usize) by {
                let m = choose|m: nat| reach(g, from as int, j, strong_only, m);
                assert(done.contains(from as int));
                assert forall|d: int| 0 <= d < g.len() && seen@[d] implies closed(
                    g,
                    d,
                    strong_only,
                    seen@,
                    marked@,
                ) by {
                    assert(done.contains(d));
                }
                lemma_closure_complete(g, from as int, from as int, j, strong_only, m, seen@, marked@);
            }
        }
        out
    }

    /// The ids of the closure of the state `ptr` along forward edges only.
    pub fn non_dummy_successors_strong(&self, ptr: &NfaStatePtr) -> (out: Vec<usize>)
        requires
            self.holds(*ptr),
        ensures
            out@.no_duplicates(),
            forall|k: int|
                0 <= k < out@.len() ==> in_closure(
                    self.states(),
                    ptr.id() as int,
                    (#[trigger] out@[k]) as int,
                    true,
                ),
            forall|j: int| #[trigger]
                in_closure(self.states(), ptr.id() as int, j, true) ==> out@.contains(j as usize),
    {
        self.closure_ids(ptr.index(), true)
    }

    /// The ids of the closure of the state `ptr` along all edges.
    pub fn non_dummy_successors_all(&self, ptr: &NfaStatePtr) -> (out: Vec<usize>)
        requires
            self.holds(*ptr),
        ensures
            out@.no_duplicates(),
            forall|k: int|
                0 <= k < out@.len() ==> in_closure(
                    self.states(),
                    ptr.id() as int,
                    (#[trigger] out@[k]) as int,
                    false,
                ),
            forall|j: int| #[trigger]
                in_closure(self.states(), ptr.id() as int, j, false) ==> out@.contains(j as usize),
    {
        self.closure_ids(ptr.index(), false)
    }

    /// The closure of the state `ptr`: a reference to each state that
    /// carries a character, or is the start or the end, and that the edges
    /// of `ptr` lead to through states without a character. Those that
    /// forward edges alone lead to come first, as forward references; the
    /// others follow as references back. No state comes twice.
#[verifier::rlimit(40)]
    pub fn non_dummy_successors(&self, ptr: &NfaStatePtr) -> (out: Vec<NfaStatePtr>)
        requires
            self.holds(*ptr),
        ensures
            forall|a: int, b: int|
                0 <= a < b < out@.len() ==> (#[trigger] out@[a]).id() != (#[trigger] out@[b]).id(),
            forall|k: int|
                0 <= k < out@.len() ==> {
                    &&& in_closure(
                        self.states(),
                        ptr.id() as int,
                        (#[trigger] out@[k]).id() as int,
                        false,
                    )
                    &&& same_kind(out@[k].kind(), self.states()[out@[k].id() as int].kind)
                    &&& out@[k] is Strong <==> in_closure(
                        self.states(),
                        ptr.id() as int,
                        out@[k].id() as int,
                        true,
                    )
                },
            forall|j: int| #[trigger]
                in_closure(self.states(), ptr.id() as int, j, false) ==> exists|k: int|
                    0 <= k < out@.len() && (#[trigger] out@[k]).id() == j,
            forall|a: int, b: int|
                0 <= a < b < out@.len() && (#[trigger] out@[b]) is Strong ==> (
                #[trigger] out@[a]) is Strong,
    {
        let ghost g = self.states@;
        let ghost from = ptr.id() as int;
        let n = self.states.len();
        let strong = self.non_dummy_successors_strong(ptr);
        let all = self.non_dummy_successors_all(ptr);
        let is_strong = marks_of(n, &strong);
        let weak = without(&all, &is_strong);
        let mut out: Vec<NfaStatePtr> = Vec::new();
        self.push_ptrs(&strong, true, &mut out);
        self.push_ptrs(&weak, false, &mut out);
        proof {
            let s = strong@.len() as int;
            assert forall|m: int| 0 <= m < out@.len() implies {
                &&& in_closure(g, from, (#[trigger] out@[m]).id() as int, false)
                &&& same_kind(out@[m].kind(), g[out@[m].id() as int].kind)
                &&& out@[m] is Strong <==> in_closure(g, from, out@[m].id() as int, true)
            } by {
                if m < s {
                    assert(out@[m].id() == strong@[m]);
                    lemma_closure_weaker(g, from, strong@[m] as int);
                } else {
                    assert(out@[m].id() == weak@[m - s]);
                    assert(all@.contains(weak@[m - s]));
                    let q = choose|q: int| 0 <= q < all@.len() && all@[q] == weak@[m - s];
                    assert(in_closure(g, from, all@[q] as int, false));
                    assert(!is_strong@[weak@[m - s] as int]);
                }
            }
            assert forall|j: int| #[trigger] in_closure(g, from, j, false) implies exists|k: int|
                0 <= k < out@.len() && (#[trigger] out@[k]).id() == j by {
                assert(all@.contains(j as usize));
                if strong@.contains(j as usize) {
                    let m = choose|m: int| 0 <= m < strong@.len() && strong@[m] == j as usize;
                    assert(out@[m].id() == j);
                } else {
                    assert(weak@.contains(j as usize));
                    let m = choose|m: int| 0 <= m < weak@.len() && weak@[m] == j as usize;
                    assert(out@[s + m].id() == j);
                }
            }
            assert forall|a: int, b: int| 0 <= a < b < out@.len() implies (#[trigger] out@[a]).id()
                != (#[trigger] out@[b]).id() by {
                if b < s {
                    assert(out@[a].id() == strong@[a]);
                    assert(out@[b].id() == strong@[b]);
                } else if a < s {
                    assert(out@[a].id() == strong@[a]);
                    assert(out@[b].id() == weak@[b - s]);
                    assert(strong@.contains(strong@[a]));
                    assert(!is_strong@[weak@[b - s] as int]);
                } else {
                    assert(out@[a].id() == weak@[a - s]);
                    assert(out@[b].id() == weak@[b - s]);
                }
            }
            assert forall|a: int, b: int|
                0 <= a < b < out@.len() && (#[trigger] out@[b]) is Strong implies (
            #[trigger] out@[a]) is Strong by {
                if b >= s {
                    assert(out@[b].id() == weak@[b - s]);
                }
                assert(out@[a].id() == strong@[a]);
            }
        }
        out
    }

    /// Appends to `out` a reference to each of the states `ids`.
    fn push_ptrs(&self, ids: &Vec<usize>, strong: bool, out: &mut Vec<NfaStatePtr>)
        requires
            forall|m: int| 0 <= m < ids@.len() ==> (#[trigger] ids@[m]) < self.states().len(),
        ensures
            final(out)@.len() == old(out)@.len() + ids@.len(),
            forall|m: int| 0 <= m < old(out)@.len() ==> final(out)@[m] == old(out)@[m],
            forall|m: int|
                old(out)@.len() <= m < final(out)@.len() ==> {
                    let p = #[trigger] final(out)@[m];
                    &&& p.id() == ids@[m - old(out)@.len()]
                    &&& p is Strong == strong
                    &&& same_kind(p.kind(), self.states()[p.id() as int].kind)
                },
    {
        let mut k: usize = 0;
        while k < ids.len()
            invariant
                k <= ids@.len(),
                forall|m: int| 0 <= m < ids@.len() ==> (#[trigger] ids@[m]) < self.states@.len(),
                out@.len() == old(out)@.len() + k,
                forall|m: int| 0 <= m < old(out)@.len() ==> out@[m] == old(out)@[m],
                forall|m: int|
                    old(out)@.len() <= m < out@.len() ==> {
                        let p = #[trigger] out@[m];
                        &&& p.id() == ids@[m - old(out)@.len()]
                        &&& p is Strong == strong
                        &&& same_kind(p.kind(), self.states@[p.id() as int].kind)
                    },
            decreases ids@.len() - k,
        {
            let id = ids[k];
            let kind = self.states[id].kind.duplicate();
            if strong {
                out.push(NfaStatePtr::Strong(id, kind));
            } else {
                out.push(NfaStatePtr::Weak(id, kind));
            }
            k = k + 1;
        }
    }
}

/// For each place below `n`, whether it is among `ids`.
fn marks_of(n: usize, ids: &Vec<usize>) -> (marks: Vec<bool>)
    requires
        forall|m: int| 0 <= m < ids@.len() ==> (#[trigger] ids@[m]) < n,
    ensures
        marks@.len() == n,
        forall|j: int| 0 <= j < n ==> (#[trigger] marks@[j] <==> ids@.contains(j as usize)),
{
    let mut marks = falses(n);
    let mut k: usize = 0;
    while k < ids.len()
        invariant
            k <= ids@.len(),
            marks@.len() == n,
            forall|m: int| 0 <= m < ids@.len() ==> (#[trigger] ids@[m]) < n,
            forall|j: int|
                0 <= j < n ==> (#[trigger] marks@[j] <==> ids@.take(k as int).contains(j as usize)),
        decreases ids@.len() - k,
    {
        let ghost before = marks@;
        let ghost done = ids@.take(k as int);
        marks.set(ids[k], true);
        proof {
            let next = ids@.take(k + 1);
            assert(next =~= done.push(ids@[k as int]));
            assert forall|j: int| 0 <= j < n implies (#[trigger] marks@[j] <==> next.contains(
                j as usize,
            )) by {
                if j == ids@[k as int] {
                    assert(next[k as int] == j as usize);
                } else {
                    if done.contains(j as usize) {
                        let m = choose|m: int| 0 <= m < done.len() && done[m] == j as usize;
                        assert(next[m] == j as usize);
                    }
                    if next.contains(j as usize) {
                        let m = choose|m: int| 0 <= m < next.len() && next[m] == j as usize;
                        assert(done[m] == j as usize);
                    }
                }
            }
        }
        k = k + 1;
    }
    proof {
        assert(ids@.take(ids@.len() as int) =~= ids@);
    }
    marks
}

/// Those of `ids` that are not marked, in their order.
fn without(ids: &Vec<usize>, marks: &Vec<bool>) -> (rest: Vec<usize>)
    requires
        ids@.no_duplicates(),
        forall|m: int| 0 <= m < ids@.len() ==> (#[trigger] ids@[m]) < marks@.len(),
    ensures
        rest@.no_duplicates(),
        forall|m: int|
            0 <= m < rest@.len() ==> ids@.contains(#[trigger] rest@[m]) && !marks@[rest@[m] as int],
        forall|m: int|
            0 <= m < ids@.len() && !marks@[(#[trigger] ids@[m]) as int] ==> rest@.contains(ids@[m]),
{
    let mut rest: Vec<usize> = Vec::new();
    let mut k: usize = 0;
    while k < ids.len()
        invariant
            k <= ids@.len(),
            ids@.no_duplicates(),
            forall|m: int| 0 <= m < ids@.len() ==> (#[trigger] ids@[m]) < marks@.len(),
            rest@.no_duplicates(),
            forall|m: int|
                0 <= m < rest@.len() ==> ids@.take(k as int).contains(#[trigger] rest@[m])
                    && !marks@[rest@[m] as int],
            forall|m: int|
                0 <= m < k && !marks@[(#[trigger] ids@[m]) as int] ==> rest@.contains(ids@[m]),
        decreases ids@.len() - k,
    {
        let id = ids[k];
        let ghost before = rest@;
        let ghost done = ids@.take(k as int);
        proof {
            assert(ids@.take(k + 1) =~= done.push(id));
        }
        if !marks[id] {
            proof {
                if before.contains(id) {
                    let m = choose|m: int| 0 <= m < before.len() && before[m] == id;
                    assert(done.contains(before[m]));
                    let q = choose|q: int| 0 <= q < done.len() && done[q] == id;
                    assert(ids@[q] == ids@[k as int]);
                }
            }
            rest.push(id);
            proof {
                assert(rest@ =~= before.push(id));
                assert(rest@[rest@.len() - 1] == id);
            }
        }
        proof {
            let next = ids@.take(k + 1);
            assert forall|m: int| 0 <= m < rest@.len() implies next.contains(#[trigger] rest@[m])
                && !marks@[rest@[m] as int] by {
                if m < before.len() {
                    assert(rest@[m] == before[m]);
                    let q = choose|q: int| 0 <= q < done.len() && done[q] == before[m];
                    assert(next[q] == before[m]);
                } else {
                    assert(next[k as int] == id);
                }
            }
            assert forall|m: int|
                0 <= m < k + 1 && !marks@[(#[trigger] ids@[m]) as int] implies rest@.contains(
                ids@[m],
            ) by {
                if m < k {
                    let q = choose|q: int| 0 <= q < before.len() && before[q] == ids@[m];
                    assert(rest@[q] == ids@[m]);
                }
            }
        }
        k = k + 1;
    }
    proof {
        assert(ids@.take(ids@.len() as int) =~= ids@);
    }
    rest
}

/// What forward edges lead to, all edges lead to.
proof fn lemma_reach_weaker(g: Seq<NfaState>, i: int, j: int, n: nat)
    requires
        reach(g, i, j, true, n),
    ensures
        reach(g, i, j, false, n),
    decreases n,
{
    if edge(g, i, j, true) {
        assert(edge(g, i, j, false));
    } else {
        let d = choose|d: int| #[trigger]
            edge(g, i, d, true) && is_dummy(g, d) && reach(g, d, j, true, (n - 1) as nat);
        lemma_reach_weaker(g, d, j, (n - 1) as nat);
        assert(edge(g, i, d, false));
    }
}

/// The closure along forward edges is part of the closure along all edges.
pub proof fn lemma_closure_weaker(g: Seq<NfaState>, i: int, j: int)
    requires
        in_closure(g, i, j, true),
    ensures
        in_closure(g, i, j, false),
{
    let n = choose|n: nat| reach(g, i, j, true, n);
    lemma_reach_weaker(g, i, j, n);
}

} // verus!
