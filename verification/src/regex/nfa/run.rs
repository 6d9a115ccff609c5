//! Running an automaton: the set of its live states, taken through the
//! characters of a word.

use vstd::prelude::*;
use crate::regex::nfa::graph::{in_closure, NfaGraph};
use crate::regex::nfa::state::{kind_accepts, NfaState, NfaStateKind, NfaStatePtr};
use crate::text::chars_of;
use crate::wordlist::trie::cursor::StateT;

verus! {

/// The ids of the states referred to.
pub open spec fn ids_of(states: Seq<NfaStatePtr>) -> Set<int> {
    Set::new(|j: int| exists|k: int| 0 <= k < states.len() && (#[trigger] states[k]).id() == j)
}

/// The closure of state `i`, as a set.
pub open spec fn closure_set(g: Seq<NfaState>, i: int) -> Set<int> {
    Set::new(|j: int| in_closure(g, i, j, false))
}

/// The live states after the character `c`: the closures of the live
/// states that let `c` pass.
pub open spec fn step_set(g: Seq<NfaState>, live: Set<int>, c: char) -> Set<int> {
    Set::new(
        |j: int|
            exists|i: int|
                live.contains(i) && 0 <= i < g.len() && kind_accepts(g[i].kind, c) && #[trigger] in_closure(
                    g,
                    i,
                    j,
                    false,
                ),
    )
}

/// The live states after the characters of `word`.
pub open spec fn run_set(g: Seq<NfaState>, live: Set<int>, word: Seq<char>) -> Set<int>
    decreases word.len(),
{
    if word.len() == 0 {
        live
    } else {
        step_set(g, run_set(g, live, word.drop_last()), word.last())
    }
}

/// Whether the end of the automaton is among the live states.
pub open spec fn accepts_set(g: Seq<NfaState>, live: Set<int>) -> bool {
    exists|i: int| live.contains(i) && 0 <= i < g.len() && (#[trigger] g[i]).kind is Accept
}

/// Whether the automaton, run from the closure of its first state, accepts
/// `word`.
pub open spec fn language(g: Seq<NfaState>, word: Seq<char>) -> bool {
    accepts_set(g, run_set(g, closure_set(g, 0), word))
}

/// The live states that a run ended in.
pub struct NfaResult {
    /// The live states.
    pub states: Vec<NfaStatePtr>,
}

/// The marks tell which states `out` refers to, and `out` refers to none
/// twice.
pub open spec fn marked_out(marks: Seq<bool>, out: Seq<NfaStatePtr>) -> bool {
    &&& forall|m: int| 0 <= m < out.len() ==> (#[trigger] out[m]).id() < marks.len()
    &&& forall|j: int| 0 <= j < marks.len() ==> (#[trigger] marks[j] <==> ids_of(out).contains(j))
    &&& forall|a: int, b: int|
        0 <= a < b < out.len() ==> (#[trigger] out[a]).id() != (#[trigger] out[b]).id()
}

fn falses(n: usize) -> (v: Vec<bool>)
    ensures
        v@.len() == n,
        forall|i: int| 0 <= i < n ==> !v@[i],
{
    let mut v: Vec<bool> = Vec::with_capacity(n);
    let mut i: usize = 0;
    while i < n
        invariant
            i <= n,
            v@.len() == i,
            forall|k: int| 0 <= k < i ==> !v@[k],
        decreases n - i,
    {
        v.push(false);
        i = i + 1;
    }
    v
}

/// Adds to `out` those of `more` that it does not refer to yet.
#[verifier::rlimit(40)]
fn merge(marks: &mut Vec<bool>, out: &mut Vec<NfaStatePtr>, more: Vec<NfaStatePtr>)
    requires
        marked_out(old(marks)@, old(out)@),
        forall|m: int| 0 <= m < more@.len() ==> (#[trigger] more@[m]).id() < old(marks)@.len(),
    ensures
        final(marks)@.len() == old(marks)@.len(),
        marked_out(final(marks)@, final(out)@),
        forall|j: int|
            0 <= j < old(marks)@.len() ==> (#[trigger] final(marks)@[j] <==> old(marks)@[j]
                || ids_of(more@).contains(j)),
{
    let ghost n = marks@.len();
    let mut k: usize = 0;
    while k < more.len()
        invariant
            k <= more@.len(),
            marks@.len() == n,
            n == old(marks)@.len(),
            marked_out(marks@, out@),
            forall|m: int| 0 <= m < more@.len() ==> (#[trigger] more@[m]).id() < n,
            forall|j: int|
                0 <= j < n ==> (#[trigger] marks@[j] <==> old(marks)@[j] || ids_of(
                    more@.take(k as int),
                ).contains(j)),
        decreases more@.len() - k,
    {
        let id = more[k].index();
        let ghost marks0 = marks@;
        let ghost out0 = out@;
        proof {
            assert(more@.take(k + 1) =~= more@.take(k as int).push(more@[k as int]));
        }
        if !marks[id] {
            let ptr = more[k].duplicate();
            marks.set(id, true);
            out.push(ptr);
            proof {
                assert(out@ =~= out0.push(ptr));
                assert forall|j: int| 0 <= j < n implies (#[trigger] marks@[j] <==> ids_of(
                    out@,
                ).contains(j)) by {
                    if j == id {
                        assert(out@[out@.len() - 1].id() == j);
                    } else {
                        if ids_of(out0).contains(j) {
                            let m = choose|m: int| 0 <= m < out0.len() && (#[trigger] out0[m]).id() == j;
                            assert(out@[m].id() == j);
                        }
                        if ids_of(out@).contains(j) {
                            let m = choose|m: int| 0 <= m < out@.len() && (#[trigger] out@[m]).id() == j;
                            assert(out0[m].id() == j);
                        }
                    }
                }
                assert forall|a: int, b: int| 0 <= a < b < out@.len() implies (
                #[trigger] out@[a]).id() != (#[trigger] out@[b]).id() by {
                    if b == out0.len() {
                        assert(out@[a] == out0[a]);
                        assert(ids_of(out0).contains(out0[a].id() as int));
                    } else {
                        assert(out@[a] == out0[a]);
                        assert(out@[b] == out0[b]);
                    }
                }
            }
        }
        proof {
            let done = more@.take(k as int);
            let next = more@.take(k + 1);
            assert forall|j: int| 0 <= j < n implies (#[trigger] marks@[j] <==> old(marks)@[j]
                || ids_of(next).contains(j)) by {
                if ids_of(done).contains(j) {
                    let m = choose|m: int| 0 <= m < done.len() && (#[trigger] done[m]).id() == j;
                    assert(next[m].id() == j);
                }
                if ids_of(next).contains(j) {
                    let m = choose|m: int| 0 <= m < next.len() && (#[trigger] next[m]).id() == j;
                    if m < k {
                        assert(done[m].id() == j);
                    }
                }
                if j == id {
                    assert(next[k as int].id() == j);
                }
            }
        }
        k = k + 1;
    }
    proof {
        assert(more@.take(more@.len() as int) =~= more@);
    }
}

impl NfaGraph {
    /// The live states with which a run starts: the closure of the first
    /// state, the start.
    pub fn starting_states(&self) -> (states: Vec<NfaStatePtr>)
        requires
            self.states().len() > 0,
        ensures
            ids_of(states@) == closure_set(self.states(), 0),
            forall|m: int| 0 <= m < states@.len() ==> self.holds(#[trigger] states@[m]),
    {
        let kind = NfaStateKind::Start;
        let start = NfaStatePtr::Strong(0, kind);
        let states = self.non_dummy_successors(&start);
        proof {
            let g = self.states();
            assert(start.id() == 0);
            assert forall|j: int| ids_of(states@).contains(j) <==> closure_set(g, 0).contains(
                j,
            ) by {
                if ids_of(states@).contains(j) {
                    let m = choose|m: int|
                        0 <= m < states@.len() && (#[trigger] states@[m]).id() == j;
                    assert(in_closure(g, 0, states@[m].id() as int, false));
                }
                if in_closure(g, 0, j, false) {
                    assert(in_closure(g, start.id() as int, j, false));
                    let m = choose|m: int|
                        0 <= m < states@.len() && (#[trigger] states@[m]).id() == j;
                    assert(ids_of(states@).contains(j));
                }
            }
            assert(ids_of(states@) =~= closure_set(g, 0));
            assert forall|m: int| 0 <= m < states@.len() implies self.holds(
                #[trigger] states@[m],
            ) by {
                assert(in_closure(g, 0, states@[m].id() as int, false));
            }
        }
        states
    }

    /// The live states after the character `c`, from the live states
    /// `states`: the closures of those that let `c` pass. A reference to a
    /// state that the arena does not hold is dead, and adds nothing.
#[verifier::rlimit(40)]
    pub fn advance(&self, states: &Vec<NfaStatePtr>, c: char) -> (next: Vec<NfaStatePtr>)
        ensures
            ids_of(next@) == step_set(self.states(), ids_of(states@), c),
            forall|m: int| 0 <= m < next@.len() ==> self.holds(#[trigger] next@[m]),
            forall|a: int, b: int|
                0 <= a < b < next@.len() ==> (#[trigger] next@[a]).id() != (#[trigger] next@[b]).id(),
    {
        let ghost g = self.states();
        let n = self.len();
        let mut marks = falses(n);
        let mut out: Vec<NfaStatePtr> = Vec::new();
        let mut k: usize = 0;
        proof {
            assert forall|j: int| 0 <= j < n implies !ids_of(out@).contains(j) by {}
        }
        while k < states.len()
            invariant
                k <= states@.len(),
                g == self.states(),
                n == g.len(),
                marks@.len() == n,
                marked_out(marks@, out@),
                forall|j: int|
                    0 <= j < n ==> (#[trigger] marks@[j] <==> exists|q: int|
                        0 <= q < k && (#[trigger] states@[q]).id() < n && kind_accepts(
                            g[states@[q].id() as int].kind,
                            c,
                        ) && in_closure(g, states@[q].id() as int, j, false)),
            decreases states@.len() - k,
        {
            let ptr = &states[k];
            let i = ptr.index();
            let ghost marks0 = marks@;
            if i < n && self.accepts(ptr, c) {
                let more = self.non_dummy_successors(ptr);
                merge(&mut marks, &mut out, more);
                proof {
                    assert forall|j: int| 0 <= j < n implies (#[trigger] marks@[j] <==> exists|
                        q: int,
                    |
                        0 <= q < k + 1 && (#[trigger] states@[q]).id() < n && kind_accepts(
                            g[states@[q].id() as int].kind,
                            c,
                        ) && in_closure(g, states@[q].id() as int, j, false)) by {
                        if marks0[j] {
                            let q = choose|q: int|
                                0 <= q < k && (#[trigger] states@[q]).id() < n && kind_accepts(
                                    g[states@[q].id() as int].kind,
                                    c,
                                ) && in_closure(g, states@[q].id() as int, j, false);
                            assert(0 <= q < k + 1);
                        }
                        if ids_of(more@).contains(j) {
                            let m = choose|m: int|
                                0 <= m < more@.len() && (#[trigger] more@[m]).id() == j;
                            assert(in_closure(g, i as int, more@[m].id() as int, false));
                            assert(states@[k as int].id() == i);
                        }
                        if in_closure(g, i as int, j, false) {
                            let m = choose|m: int|
                                0 <= m < more@.len() && (#[trigger] more@[m]).id() == j;
                            assert(ids_of(more@).contains(j));
                        }
                    }
                }
            } else {
                proof {
                    assert forall|j: int| 0 <= j < n implies (#[trigger] marks@[j] <==> exists|
                        q: int,
                    |
                        0 <= q < k + 1 && (#[trigger] states@[q]).id() < n && kind_accepts(
                            g[states@[q].id() as int].kind,
                            c,
                        ) && in_closure(g, states@[q].id() as int, j, false)) by {
                        if marks0[j] {
                            let q = choose|q: int|
                                0 <= q < k && (#[trigger] states@[q]).id() < n && kind_accepts(
                                    g[states@[q].id() as int].kind,
                                    c,
                                ) && in_closure(g, states@[q].id() as int, j, false);
                            assert(0 <= q < k + 1);
                        }
                    }
                }
            }
            k = k + 1;
        }
        proof {
            let live = ids_of(states@);
            assert forall|j: int| ids_of(out@).contains(j) <==> step_set(g, live, c).contains(
                j,
            ) by {
                if ids_of(out@).contains(j) {
                    let m = choose|m: int| 0 <= m < out@.len() && (#[trigger] out@[m]).id() == j;
                    assert(marks@[j]);
                    let q = choose|q: int|
                        0 <= q < k && (#[trigger] states@[q]).id() < n && kind_accepts(
                            g[states@[q].id() as int].kind,
                            c,
                        ) && in_closure(g, states@[q].id() as int, j, false);
                    assert(live.contains(states@[q].id() as int));
                }
                if step_set(g, live, c).contains(j) {
                    let i = choose|i: int|
                        live.contains(i) && 0 <= i < g.len() && kind_accepts(g[i].kind, c)
                            && #[trigger] in_closure(g, i, j, false);
                    let q = choose|q: int| 0 <= q < states@.len() && (#[trigger] states@[q]).id() == i;
                    assert(marks@[j]);
                }
            }
            assert(ids_of(out@) =~= step_set(g, live, c));
        }
        out
    }

    /// The live states after the characters of `input`, from the live
    /// states `states`.
    pub fn apply_with_start(&self, input: &str, states: &Vec<NfaStatePtr>) -> (result: NfaResult)
        ensures
            ids_of(result.states@) == run_set(self.states(), ids_of(states@), input@),
    {
        let chars = chars_of(input);
        let mut live: Vec<NfaStatePtr> = Vec::new();
        let mut k: usize = 0;
        while k < states.len()
            invariant
                k <= states@.len(),
                live@.len() == k,
                forall|m: int| 0 <= m < k ==> (#[trigger] live@[m]).id() == states@[m].id(),
            decreases states@.len() - k,
        {
            live.push(states[k].duplicate());
            k = k + 1;
        }
        proof {
            assert forall|j: int| ids_of(live@).contains(j) <==> ids_of(states@).contains(j) by {
                if ids_of(live@).contains(j) {
                    let m = choose|m: int| 0 <= m < live@.len() && (#[trigger] live@[m]).id() == j;
                    assert(states@[m].id() == j);
                }
                if ids_of(states@).contains(j) {
                    let m = choose|m: int|
                        0 <= m < states@.len() && (#[trigger] states@[m]).id() == j;
                    assert(live@[m].id() == j);
                }
            }
            assert(ids_of(live@) =~= ids_of(states@));
        }
        let mut i: usize = 0;
        while i < chars.len()
            invariant
                i <= chars@.len(),
                chars@ == input@,
                ids_of(live@) == run_set(self.states(), ids_of(states@), input@.take(i as int)),
            decreases chars@.len() - i,
        {
            proof {
                assert(input@.take(i + 1).drop_last() =~= input@.take(i as int));
            }
            live = self.advance(&live, chars[i]);
            i = i + 1;
        }
        proof {
            assert(input@.take(input@.len() as int) =~= input@);
        }
        NfaResult { states: live }
    }

    /// The live states after the characters of `input`, from the start.
    pub fn apply(&self, input: &str) -> (result: NfaResult)
        requires
            self.states().len() > 0,
        ensures
            ids_of(result.states@) == run_set(
                self.states(),
                closure_set(self.states(), 0),
                input@,
            ),
    {
        let start = self.starting_states();
        self.apply_with_start(input, &start)
    }

    /// Whether the end of the automaton is among the states `states`.
    pub fn any_accept(&self, states: &Vec<NfaStatePtr>) -> (found: bool)
        ensures
            found == accepts_set(self.states(), ids_of(states@)),
    {
        let n = self.len();
        let mut k: usize = 0;
        while k < states.len()
            invariant
                k <= states@.len(),
                n == self.states().len(),
                forall|q: int|
                    0 <= q < k && (#[trigger] states@[q]).id() < n ==> !(self.states()[states@[q].id() as int].kind
                        is Accept),
            decreases states@.len() - k,
        {
            let i = states[k].index();
            if i < n && self.is_accept(i) {
                proof {
                    assert(ids_of(states@).contains(i as int));
                }
                return true;
            }
            k = k + 1;
        }
        proof {
            if accepts_set(self.states(), ids_of(states@)) {
                let i = choose|i: int|
                    ids_of(states@).contains(i) && 0 <= i < self.states().len() && (
                    #[trigger] self.states()[i]).kind is Accept;
                let q = choose|q: int| 0 <= q < states@.len() && (#[trigger] states@[q]).id() == i;
                assert(false);
            }
        }
        false
    }
}

/// The cursor of a search by regular expression: the automaton and its live
/// states.
pub struct RegexCursor<'a> {
    graph: &'a NfaGraph,
    states: Vec<NfaStatePtr>,
}

impl<'a> RegexCursor<'a> {
    /// The cursor with which a search by the automaton `graph` starts.
    pub fn new(graph: &'a NfaGraph) -> (cursor: Self)
        requires
            graph.states().len() > 0,
        ensures
            cursor.wf(),
            cursor@ == (graph.states(), closure_set(graph.states(), 0)),
    {
        RegexCursor { graph, states: graph.starting_states() }
    }
}

impl<'a> StateT for RegexCursor<'a> {
    type V = (Seq<NfaState>, Set<int>);

    closed spec fn view(&self) -> (Seq<NfaState>, Set<int>) {
        (self.graph.states(), ids_of(self.states@))
    }

    closed spec fn wf(&self) -> bool {
        true
    }

    open spec fn step(v: (Seq<NfaState>, Set<int>), c: char) -> Option<(Seq<NfaState>, Set<int>)> {
        if exists|j: int| step_set(v.0, v.1, c).contains(j) {
            Some((v.0, step_set(v.0, v.1, c)))
        } else {
            None
        }
    }

    open spec fn accepting(v: (Seq<NfaState>, Set<int>)) -> bool {
        accepts_set(v.0, v.1)
    }

    fn keep_going(&self, c: char) -> (next: Option<Self>) {
        let states = self.graph.advance(&self.states, c);
        if states.len() == 0 {
            proof {
                assert forall|j: int| !ids_of(states@).contains(j) by {}
            }
            None
        } else {
            let next = RegexCursor { graph: self.graph, states };
            proof {
                let live = step_set(self@.0, self@.1, c);
                assert(ids_of(next.states@).contains(next.states@[0].id() as int));
                assert(live.contains(next.states@[0].id() as int));
                assert(next@ == (self@.0, live));
            }
            Some(next)
        }
    }

    fn accept(&self) -> (b: bool) {
        self.graph.any_accept(&self.states)
    }

    fn duplicate(&self) -> (copy: Self) {
        let mut states: Vec<NfaStatePtr> = Vec::new();
        let mut k: usize = 0;
        while k < self.states.len()
            invariant
                k <= self.states@.len(),
                states@.len() == k,
                forall|m: int| 0 <= m < k ==> (#[trigger] states@[m]).id() == self.states@[m].id(),
            decreases self.states@.len() - k,
        {
            states.push(self.states[k].duplicate());
            k = k + 1;
        }
        proof {
            assert forall|j: int| ids_of(states@).contains(j) <==> ids_of(self.states@).contains(
                j,
            ) by {
                if ids_of(states@).contains(j) {
                    let m = choose|m: int|
                        0 <= m < states@.len() && (#[trigger] states@[m]).id() == j;
                    assert(self.states@[m].id() == j);
                }
                if ids_of(self.states@).contains(j) {
                    let m = choose|m: int|
                        0 <= m < self.states@.len() && (#[trigger] self.states@[m]).id() == j;
                    assert(states@[m].id() == j);
                }
            }
            assert(ids_of(states@) =~= ids_of(self.states@));
        }
        RegexCursor { graph: self.graph, states }
    }
}

} // verus!
