//! From a pattern to its automaton.

use vstd::prelude::*;
use crate::regex::language::{elem_matches, pattern_matches, regex_matches, seq_matches};
use crate::regex::nfa::fragment::{
    agree, char_to, dummy_to, fragment, lemma_bwd, lemma_char_fragment, lemma_cons_fragment,
    lemma_dummy_stays, lemma_fragment_stays, lemma_fwd, lemma_group_fragment, lemma_nil_fragment,
    lemma_optional_fragment, lemma_repeat_fragment, sound, Lang,
};
use crate::regex::nfa::flow::{
    connected, forked, grown, lemma_connected, lemma_forked_grown, lemma_forked_more,
    lemma_gains_grown, lemma_same_grown, lemma_wired_cons, lemma_wired_grown, lemma_wired_group,
    lemma_wired_none, lemma_wired_one, lemma_wired_optional, lemma_wired_repeat, wired,
};
use crate::regex::nfa::graph::{edge, NfaGraph};
use crate::regex::nfa::language::{leads, lemma_language_leads, reaches, tidy};
use crate::regex::nfa::run::language;
use crate::regex::nfa::state::{kind_accepts, same_kind, NfaState, NfaStateKind, NfaStatePtr};
use crate::regex::parse::{
    element_model, elements_model, is_regex, lemma_elements_index, lemma_patterns_index,
    lemma_pattern_proper, pattern_model, patterns_model, proper_element,
    proper_elements, whole_pattern, Element, ElementModel, Pattern, PatternModel, RegexError,
};

verus! {

/// The automaton is one of a pattern: its first state is the start, its
/// second the end, and no other state is a start or an end; every edge
/// leads to a state of the automaton other than the start, and the end has
/// no edge.
pub open spec fn compiled(g: Seq<NfaState>) -> bool {
    &&& g.len() >= 2
    &&& g[0].kind is Start
    &&& g[1].kind is Accept
    &&& g[1].successors@.len() == 0
    &&& forall|i: int| 2 <= i < g.len() ==> !((#[trigger] g[i]).kind is Start) && !(g[i].kind is Accept)
    &&& sound(g)
}

/// The states from `lo` on are no starts and no ends.
pub open spec fn plain_from(g: Seq<NfaState>, lo: int) -> bool {
    forall|i: int| lo <= i < g.len() ==> !((#[trigger] g[i]).kind is Start) && !(g[i].kind is Accept)
}

/// An automaton of a pattern accepts a word by its run exactly where,
/// entered at its start, it accepts it.
pub proof fn lemma_compiled_language(g: Seq<NfaState>, w: Seq<char>)
    requires
        compiled(g),
    ensures
        language(g, w) <==> reaches(g, 0, w),
{
    assert(tidy(g)) by {
        assert forall|i: int| 0 <= i < g.len() && (#[trigger] g[i]).kind is Accept implies g[i].successors@.len()
            == 0 by {
            if i >= 2 {
                assert(!(g[i].kind is Accept));
            }
        }
        assert forall|i: int, t: int| #[trigger] edge(g, i, t, false) implies !(g[t].kind is Start) by {
            let j = choose|j: int|
                0 <= j < g[i].successors@.len() && (#[trigger] g[i].successors@[j]).id() == t;
            assert(1 <= g[i].successors@[j].id());
            if t >= 2 {
                assert(!(g[t].kind is Start));
            }
        }
    }
    lemma_language_leads(g, w);
}

/// The automaton whose start leads into a part that matches a sequence of
/// elements and is left into the end accepts what the sequence matches.
proof fn lemma_whole(g: Seq<NfaState>, entry: int, es: Seq<ElementModel>, w: Seq<char>)
    requires
        compiled(g),
        g[0].successors@.len() == 1,
        g[0].successors@[0].id() == entry,
        fragment(g, 2, g.len() as int, entry, 1, Lang::Sequence(es)),
    ensures
        language(g, w) <==> seq_matches(es, w),
{
    let l = Lang::Sequence(es);
    lemma_compiled_language(g, w);
    assert(agree(g, g, 2, g.len() as int));
    if reaches(g, 0, w) {
        let n = choose|n: nat| leads(g, 0, w, n);
        let t = choose|t: int| #[trigger] edge(g, 0, t, false) && leads(g, t, w, (n - 1) as nat);
        let j = choose|j: int|
            0 <= j < g[0].successors@.len() && (#[trigger] g[0].successors@[j]).id() == t;
        let (u, v, m) = lemma_fwd(g, entry, 1, l, w, (n - 1) as nat);
        assert(v.len() == 0);
        assert(w =~= u);
    }
    if seq_matches(es, w) {
        let empty = Seq::<char>::empty();
        assert(leads(g, 1, empty, 0));
        let n = lemma_bwd(g, entry, 1, l, w, empty, 0);
        assert(w + empty =~= w);
        assert(1 <= g[0].successors@[0].id() < g.len());
        assert(edge(g, 0, entry, false));
        assert(leads(g, 0, w, n + 1));
    }
}

impl NfaGraph {
    /// A new state without a character, and without an edge.
    fn new_dummy(&mut self) -> (ptr: NfaStatePtr)
        requires
            sound(old(self).states()),
        ensures
            final(self).states().len() == old(self).states().len() + 1,
            forall|i: int|
                0 <= i < old(self).states().len() ==> final(self).states()[i] == old(
                    self,
                ).states()[i],
            ptr.id() == old(self).states().len(),
            dummy_to(final(self).states(), ptr.id() as int, Seq::empty()),
            sound(final(self).states()),
            grown(old(self).states(), final(self).states()),
    {
        let ptr = self.strong_ptr(NfaStateKind::Dummy);
        proof {
            let g = self.states();
            lemma_same_grown(old(self).states(), g);
            assert forall|i: int, j: int|
                0 <= i < g.len() && 0 <= j < g[i].successors@.len() implies 1 <= (
            #[trigger] g[i].successors@[j]).id() < g.len() by {
                assert(g[i] == old(self).states()[i]);
                assert(1 <= old(self).states()[i].successors@[j].id());
            }
        }
        ptr
    }

    /// One more edge out of a state without a character: an edge back where
    /// `back` is set, else a forward edge.
    fn connect(
        &mut self,
        from: &NfaStatePtr,
        to: &NfaStatePtr,
        back: bool,
        Ghost(targets): Ghost<Seq<int>>,
    )
        requires
            sound(old(self).states()),
            dummy_to(old(self).states(), from.id() as int, targets),
            1 <= to.id() < old(self).states().len(),
        ensures
            final(self).states().len() == old(self).states().len(),
            forall|i: int|
                0 <= i < old(self).states().len() && i != from.id() ==> final(self).states()[i]
                    == old(self).states()[i],
            dummy_to(final(self).states(), from.id() as int, targets.push(to.id() as int)),
            sound(final(self).states()),
            grown(old(self).states(), final(self).states()),
            !back ==> edge(final(self).states(), from.id() as int, to.id() as int, true),
    {
        if back {
            self.add_weak_successor(from, to);
        } else {
            self.add_successor(from, to);
        }
        proof {
            let g0 = old(self).states();
            let g = self.states();
            let s = from.id() as int;
            lemma_gains_grown(g0, g, s, *to, !back);
            let more = targets.push(to.id() as int);
            assert forall|j: int| 0 <= j < more.len() implies (#[trigger] g[s].successors@[j]).id()
                == more[j] by {
                if j < targets.len() {
                    assert(g[s].successors@[j] == g0[s].successors@[j]);
                    assert(g0[s].successors@[j].id() == targets[j]);
                }
            }
            assert forall|j: int| 0 <= j < more.len() implies 0 <= #[trigger] more[j] by {
                if j < targets.len() {
                    assert(0 <= targets[j]);
                }
            }
            assert forall|j: int| 0 <= j < more.len() implies #[trigger] more[j] < g.len() by {
                if j < targets.len() {
                    assert(targets[j] < g0.len());
                }
            }
            assert forall|i: int, j: int|
                0 <= i < g.len() && 0 <= j < g[i].successors@.len() implies 1 <= (
            #[trigger] g[i].successors@[j]).id() < g.len() by {
                if i != s {
                    assert(g[i] == g0[i]);
                    assert(1 <= g0[i].successors@[j].id());
                } else if j < targets.len() {
                    assert(g[s].successors@[j] == g0[s].successors@[j]);
                    assert(1 <= g0[s].successors@[j].id());
                }
            }
        }
    }

    /// A new state with a character, and its edge to `next`.
    fn new_char(&mut self, kind: NfaStateKind, next: &NfaStatePtr) -> (ptr: NfaStatePtr)
        requires
            sound(old(self).states()),
            1 <= next.id() < old(self).states().len(),
            kind is Literal || kind is AnyOf || kind is Wildcard,
        ensures
            final(self).states().len() == old(self).states().len() + 1,
            forall|i: int|
                0 <= i < old(self).states().len() ==> final(self).states()[i] == old(
                    self,
                ).states()[i],
            ptr.id() == old(self).states().len(),
            char_to(final(self).states(), ptr.id() as int, next.id() as int),
            same_kind(final(self).states()[ptr.id() as int].kind, kind),
            sound(final(self).states()),
            grown(old(self).states(), final(self).states()),
            edge(final(self).states(), ptr.id() as int, next.id() as int, true),
    {
        let ptr = self.strong_ptr(kind);
        let ghost g1 = self.states();
        self.add_successor(&ptr, next);
        proof {
            let g0 = old(self).states();
            let g = self.states();
            let s = ptr.id() as int;
            lemma_gains_grown(g1, g, s, *next, true);
            assert forall|i: int| 0 <= i < g0.len() implies g[i] == g0[i] by {
                assert(g[i] == g1[i]);
            }
            lemma_same_grown(g0, g);
            assert forall|i: int, j: int|
                0 <= i < g.len() && 0 <= j < g[i].successors@.len() implies 1 <= (
            #[trigger] g[i].successors@[j]).id() < g.len() by {
                if i != s {
                    assert(g[i] == g0[i]);
                    assert(1 <= g0[i].successors@[j].id());
                }
            }
        }
        ptr
    }

    /// Adds the part of the automaton that matches `element` and is left
    /// into `next`, and returns the state at which it is entered. A
    /// character, a wildcard or a set is one state. A group is a fork and
    /// a join without a character, with each of its patterns between them.
    /// An option is its element between two states without a character,
    /// and an edge that skips it. A repetition is that, and an edge back
    /// from behind the element to the state before it.
#[verifier::rlimit(40)]
    fn add_element(&mut self, element: &Element, next: &NfaStatePtr) -> (entry: NfaStatePtr)
        requires
            sound(old(self).states()),
            1 <= next.id() < old(self).states().len(),
        ensures
            sound(final(self).states()),
            forall|i: int|
                0 <= i < old(self).states().len() ==> final(self).states()[i] == old(
                    self,
                ).states()[i],
            old(self).states().len() <= entry.id() < final(self).states().len(),
            plain_from(final(self).states(), old(self).states().len() as int),
            fragment(
                final(self).states(),
                old(self).states().len() as int,
                final(self).states().len() as int,
                entry.id() as int,
                next.id() as int,
                Lang::Elem(element_model(*element)),
            ),
            grown(old(self).states(), final(self).states()),
            proper_element(element_model(*element)) ==> wired(
                final(self).states(),
                old(self).states().len() as int,
                final(self).states().len() as int,
                entry.id() as int,
                next.id() as int,
            ),
        decreases element, 0int,
    {
        let ghost g0 = self.states();
        let ghost lo = g0.len() as int;
        let ghost k = next.id() as int;
        let ghost proper = proper_element(element_model(*element));
        match element {
            Element::Literal(c) => {
                let state = self.new_char(NfaStateKind::Literal(*c), next);
                proof {
                    let g = self.states();
                    let e = element_model(*element);
                    assert(e == ElementModel::Literal(*c));
                    assert forall|w: Seq<char>| #[trigger]
                        elem_matches(e, w) <==> w.len() == 1 && kind_accepts(
                            g[lo].kind,
                            w[0],
                        ) by {
                        if w.len() == 1 && w[0] == *c {
                            assert(w =~= seq![*c]);
                        }
                    }
                    lemma_char_fragment(g, lo, k, e);
                    lemma_wired_one(g, lo, k);
                }
                state
            },
            Element::Wildcard => {
                let state = self.new_char(NfaStateKind::Wildcard, next);
                proof {
                    let g = self.states();
                    let e = element_model(*element);
                    assert(e == ElementModel::Wildcard);
                    assert forall|w: Seq<char>| #[trigger]
                        elem_matches(e, w) <==> w.len() == 1 && kind_accepts(
                            g[lo].kind,
                            w[0],
                        ) by {}
                    lemma_char_fragment(g, lo, k, e);
                    lemma_wired_one(g, lo, k);
                }
                state
            },
            Element::AnyOf(set) => {
                let state = self.new_char(NfaStateKind::AnyOf(set.clone()), next);
                proof {
                    let g = self.states();
                    let e = element_model(*element);
                    assert(e == ElementModel::AnyOf(set@));
                    assert forall|w: Seq<char>| #[trigger]
                        elem_matches(e, w) <==> w.len() == 1 && kind_accepts(
                            g[lo].kind,
                            w[0],
                        ) by {}
                    lemma_char_fragment(g, lo, k, e);
                    lemma_wired_one(g, lo, k);
                }
                state
            },
            Element::Optional(inner) => {
                let after = self.new_dummy();
                self.connect(&after, next, false, Ghost(Seq::empty()));
                let ghost g1 = self.states();
                let first = self.add_element(inner, &after);
                let ghost g2 = self.states();
                let ghost mid = g2.len() as int;
                let before = self.new_dummy();
                let ghost g3 = self.states();
                self.connect(&before, &first, false, Ghost(Seq::empty()));
                let ghost g4 = self.states();
                let ghost one = Seq::<int>::empty().push(first.id() as int);
                self.connect(&before, &after, false, Ghost(one));
                proof {
                    let g = self.states();
                    let e = element_model(**inner);
                    assert(Seq::<int>::empty().push(k) =~= seq![k]);
                    assert(Seq::<int>::empty().push(first.id() as int).push(lo) =~= seq![
                        first.id() as int,
                        lo,
                    ]);
                    assert forall|i: int| 0 <= i < mid implies g[i] == g2[i] by {
                        assert(g3[i] == g2[i]);
                        assert(g4[i] == g3[i]);
                        assert(g[i] == g4[i]);
                    }
                    assert(g2[lo] == g1[lo]);
                    lemma_dummy_stays(g1, g, lo, seq![k]);
                    lemma_fragment_stays(g2, g, lo + 1, mid, first.id() as int, lo, Lang::Elem(e));
                    lemma_optional_fragment(g, lo, mid + 1, first.id() as int, k, e);
                    assert(element_model(*element) == ElementModel::Optional(Box::new(e)));
                    assert forall|i: int| 0 <= i < lo implies g[i] == g0[i] by {
                        assert(g1[i] == g0[i]);
                        assert(g2[i] == g1[i]);
                    }
                    lemma_same_grown(g0, g);
                    if proper {
                        assert(proper_element(e));
                        assert(grown(g2, g));
                        lemma_wired_grown(g2, g, lo + 1, mid, first.id() as int, lo);
                        assert(edge(g1, lo, k, true));
                        assert(edge(g, lo, k, true));
                        assert(edge(g4, mid, first.id() as int, true));
                        assert(edge(g, mid, first.id() as int, true));
                        lemma_wired_optional(g, lo, mid, first.id() as int, k);
                    }
                    assert forall|i: int| lo <= i < g.len() implies !((#[trigger] g[i]).kind is Start)
                        && !(g[i].kind is Accept) by {
                        if lo < i < mid {
                            assert(g[i] == g2[i]);
                        }
                    }
                }
                before
            },
            Element::Repeat(inner) => {
                let after = self.new_dummy();
                self.connect(&after, next, false, Ghost(Seq::empty()));
                let ghost ga = self.states();
                let before = self.new_dummy();
                let behind = self.new_dummy();
                self.connect(&behind, &after, false, Ghost(Seq::empty()));
                let ghost gb = self.states();
                let ghost back = Seq::<int>::empty().push(lo);
                self.connect(&behind, &before, true, Ghost(back));
                let ghost g1 = self.states();
                let first = self.add_element(inner, &behind);
                let ghost g2 = self.states();
                self.connect(&before, &first, false, Ghost(Seq::empty()));
                let ghost g3 = self.states();
                let ghost one = Seq::<int>::empty().push(first.id() as int);
                self.connect(&before, &after, false, Ghost(one));
                proof {
                    let g = self.states();
                    let hi = g.len() as int;
                    let e = element_model(**inner);
                    assert(Seq::<int>::empty().push(k) =~= seq![k]);
                    assert(Seq::<int>::empty().push(lo).push(lo + 1) =~= seq![lo, lo + 1]);
                    assert(Seq::<int>::empty().push(first.id() as int).push(lo) =~= seq![
                        first.id() as int,
                        lo,
                    ]);
                    assert forall|i: int| 0 <= i < hi && i != lo + 1 implies g[i] == g2[i] by {
                        assert(g3[i] == g2[i]);
                        assert(g[i] == g3[i]);
                    }
                    assert(g2[lo] == g1[lo]);
                    assert(g2[lo + 2] == g1[lo + 2]);
                    lemma_dummy_stays(g1, g, lo, seq![k]);
                    lemma_dummy_stays(g1, g, lo + 2, seq![lo, lo + 1]);
                    lemma_fragment_stays(g2, g, lo + 3, hi, first.id() as int, lo + 2, Lang::Elem(e));
                    lemma_repeat_fragment(g, lo, hi, first.id() as int, k, e);
                    assert(element_model(*element) == ElementModel::Repeat(Box::new(e)));
                    assert forall|i: int| 0 <= i < lo implies g[i] == g0[i] by {
                        assert(g2[i] == g1[i]);
                    }
                    lemma_same_grown(g0, g);
                    if proper {
                        assert(proper_element(e));
                        assert(grown(g2, g));
                        lemma_wired_grown(g2, g, lo + 3, hi, first.id() as int, lo + 2);
                        assert(edge(ga, lo, k, true));
                        assert(edge(gb, lo + 2, lo, true));
                        assert(grown(ga, g));
                        assert(grown(gb, g));
                        assert(edge(g3, lo + 1, first.id() as int, true));
                        assert(edge(g, lo + 1, first.id() as int, true));
                        lemma_wired_repeat(g, lo, hi, first.id() as int, k);
                    }
                    assert forall|i: int| lo <= i < g.len() implies !((#[trigger] g[i]).kind is Start)
                        && !(g[i].kind is Accept) by {
                        if lo + 3 <= i {
                            assert(g[i] == g2[i]);
                        }
                    }
                }
                before
            },
            Element::Group(patterns) => {
                let join = self.new_dummy();
                self.connect(&join, next, false, Ghost(Seq::empty()));
                let fork = self.new_dummy();
                let ghost ps = patterns_model(patterns@);
                let ghost mut entries: Seq<int> = Seq::empty();
                let ghost mut bounds: Seq<int> = seq![lo + 2];
                let mut i: usize = 0;
                proof {
                    assert(Seq::<int>::empty().push(k) =~= seq![k]);
                    crate::regex::parse::lemma_patterns_len(patterns@);
                    assert(element_model(*element) == ElementModel::Group(ps));
                    assert(edge(self.states(), lo, k, true));
                }
                while i < patterns.len()
                    invariant
                        i <= patterns@.len(),
                        *element == Element::Group(*patterns),
                        ps == patterns_model(patterns@),
                        ps.len() == patterns@.len(),
                        lo == g0.len(),
                        lo >= 2,
                        k == next.id(),
                        join.id() == lo,
                        fork.id() == lo + 1,
                        lo + 2 <= self.states().len(),
                        sound(self.states()),
                        forall|x: int| 0 <= x < lo ==> self.states()[x] == g0[x],
                        plain_from(self.states(), lo),
                        dummy_to(self.states(), lo, seq![k]),
                        dummy_to(self.states(), lo + 1, entries),
                        proper ==> ps.len() > 0 && forall|j: int|
                            0 <= j < ps.len() ==> proper_elements((#[trigger] ps[j]).elements),
                        proper ==> forked(
                            self.states(),
                            lo,
                            self.states().len() as int,
                            k,
                            i > 0,
                        ),
                        entries.len() == i,
                        bounds.len() == i + 1,
                        bounds[i as int] == self.states().len(),
                        forall|j: int|
                            0 <= j < bounds.len() ==> lo + 2 <= #[trigger] bounds[j]
                                <= self.states().len(),
                        forall|j: int|
                            0 <= j < i ==> #[trigger] fragment(
                                self.states(),
                                bounds[j],
                                bounds[j + 1],
                                entries[j],
                                lo,
                                Lang::Sequence(ps[j].elements),
                            ),
                    decreases patterns@.len() - i,
                {
                    proof {
                        vstd::std_specs::vec::axiom_vec_index_decreases(
                            element->Group_0,
                            i as int,
                        );
                        assert(decreases_to!(*element => element->Group_0));
                        lemma_patterns_index(patterns@, i as int);
                    }
                    let ghost g1 = self.states();
                    let entry = self.add_pattern(&patterns[i], &join);
                    let ghost g2 = self.states();
                    self.connect(&fork, &entry, false, Ghost(entries));
                    proof {
                        let g = self.states();
                        let old_entries = entries;
                        let old_bounds = bounds;
                        entries = entries.push(entry.id() as int);
                        bounds = bounds.push(g.len() as int);
                        if proper {
                            assert(proper_elements(ps[i as int].elements));
                            assert(grown(g1, g));
                            lemma_forked_grown(g1, g, lo, g1.len() as int, k, i > 0);
                            lemma_wired_grown(
                                g2,
                                g,
                                g1.len() as int,
                                g2.len() as int,
                                entry.id() as int,
                                lo,
                            );
                            lemma_forked_more(
                                g,
                                lo,
                                g1.len() as int,
                                g.len() as int,
                                entry.id() as int,
                                k,
                                i > 0,
                            );
                        }
                        assert(g2[lo] == g1[lo]);
                        assert(g[lo] == g2[lo]);
                        lemma_dummy_stays(g1, g, lo, seq![k]);
                        assert forall|x: int| 0 <= x < lo implies g[x] == g0[x] by {
                            assert(g2[x] == g1[x]);
                            assert(g[x] == g2[x]);
                        }
                        assert forall|x: int| lo <= x < g.len() implies !((#[trigger] g[x]).kind is Start)
                            && !(g[x].kind is Accept) by {
                            if x < g1.len() {
                                assert(g2[x] == g1[x]);
                                if x != lo + 1 {
                                    assert(g[x] == g2[x]);
                                }
                            } else {
                                assert(g[x] == g2[x]);
                            }
                        }
                        assert forall|j: int| 0 <= j < i + 1 implies #[trigger] fragment(
                            g,
                            bounds[j],
                            bounds[j + 1],
                            entries[j],
                            lo,
                            Lang::Sequence(ps[j].elements),
                        ) by {
                            if j < i {
                                assert(fragment(
                                    g1,
                                    old_bounds[j],
                                    old_bounds[j + 1],
                                    old_entries[j],
                                    lo,
                                    Lang::Sequence(ps[j].elements),
                                ));
                                assert(agree(g1, g, old_bounds[j], old_bounds[j + 1])) by {
                                    assert forall|x: int|
                                        old_bounds[j] <= x < old_bounds[j + 1] implies #[trigger] g[x]
                                        == g1[x] by {
                                        assert(g2[x] == g1[x]);
                                        assert(g[x] == g2[x]);
                                    }
                                }
                                lemma_fragment_stays(
                                    g1,
                                    g,
                                    old_bounds[j],
                                    old_bounds[j + 1],
                                    old_entries[j],
                                    lo,
                                    Lang::Sequence(ps[j].elements),
                                );
                            } else {
                                assert(agree(g2, g, g1.len() as int, g2.len() as int)) by {
                                    assert forall|x: int|
                                        g1.len() <= x < g2.len() implies #[trigger] g[x] == g2[x] by {}
                                }
                                lemma_fragment_stays(
                                    g2,
                                    g,
                                    g1.len() as int,
                                    g2.len() as int,
                                    entry.id() as int,
                                    lo,
                                    Lang::Sequence(ps[j].elements),
                                );
                            }
                        }
                    }
                    i = i + 1;
                }
                proof {
                    let g = self.states();
                    lemma_group_fragment(g, lo, g.len() as int, entries, bounds, k, ps);
                    assert(element_model(*element) == ElementModel::Group(ps));
                    lemma_same_grown(g0, g);
                    if proper {
                        lemma_wired_group(g, lo, g.len() as int, k);
                    }
                }
                fork
            },
        }
    }

    /// Adds the part of the automaton that matches `pattern` and is left
    /// into `next`: the parts of its elements, from the last to the first,
    /// each left into the one after it. It returns the state at which the
    /// pattern is entered, which is `next` where the pattern is empty.
#[verifier::rlimit(40)]
    fn add_pattern(&mut self, pattern: &Pattern, next: &NfaStatePtr) -> (entry: NfaStatePtr)
        requires
            sound(old(self).states()),
            1 <= next.id() < old(self).states().len(),
        ensures
            sound(final(self).states()),
            old(self).states().len() <= final(self).states().len(),
            forall|i: int|
                0 <= i < old(self).states().len() ==> final(self).states()[i] == old(
                    self,
                ).states()[i],
            1 <= entry.id() < final(self).states().len(),
            plain_from(final(self).states(), old(self).states().len() as int),
            fragment(
                final(self).states(),
                old(self).states().len() as int,
                final(self).states().len() as int,
                entry.id() as int,
                next.id() as int,
                Lang::Sequence(pattern_model(*pattern).elements),
            ),
            grown(old(self).states(), final(self).states()),
            proper_elements(pattern_model(*pattern).elements) ==> wired(
                final(self).states(),
                old(self).states().len() as int,
                final(self).states().len() as int,
                entry.id() as int,
                next.id() as int,
            ),
        decreases pattern, 1int,
    {
        let ghost g0 = self.states();
        let ghost base = g0.len() as int;
        let ghost k = next.id() as int;
        let ghost model = elements_model(pattern.elements@);
        let ghost proper = proper_elements(model);
        let mut cur = next.duplicate();
        let mut i: usize = pattern.elements.len();
        proof {
            crate::regex::parse::lemma_elements_len(pattern.elements@);
            assert(model.skip(i as int) =~= Seq::<ElementModel>::empty());
            lemma_nil_fragment(g0, base, k);
            lemma_wired_none(g0, base, k);
        }
        while i > 0
            invariant
                i <= pattern.elements@.len(),
                model == elements_model(pattern.elements@),
                model.len() == pattern.elements@.len(),
                base == g0.len(),
                k == next.id(),
                1 <= k < base,
                base <= self.states().len(),
                sound(self.states()),
                forall|x: int| 0 <= x < base ==> self.states()[x] == g0[x],
                plain_from(self.states(), base),
                1 <= cur.id() < self.states().len(),
                fragment(
                    self.states(),
                    base,
                    self.states().len() as int,
                    cur.id() as int,
                    k,
                    Lang::Sequence(model.skip(i as int)),
                ),
                proper == proper_elements(model),
                proper ==> wired(
                    self.states(),
                    base,
                    self.states().len() as int,
                    cur.id() as int,
                    k,
                ),
            decreases i,
        {
            i = i - 1;
            let ghost g1 = self.states();
            let ghost mid = g1.len() as int;
            let first = self.add_element(&pattern.elements[i], &cur);
            proof {
                let g = self.states();
                let e = element_model(pattern.elements@[i as int]);
                lemma_elements_index(pattern.elements@, i as int);
                assert(agree(g1, g, base, mid)) by {
                    assert forall|x: int| base <= x < mid implies #[trigger] g[x] == g1[x] by {}
                }
                lemma_fragment_stays(
                    g1,
                    g,
                    base,
                    mid,
                    cur.id() as int,
                    k,
                    Lang::Sequence(model.skip(i + 1)),
                );
                lemma_cons_fragment(
                    g,
                    base,
                    mid,
                    g.len() as int,
                    first.id() as int,
                    cur.id() as int,
                    k,
                    e,
                    model.skip(i + 1),
                );
                assert(seq![e] + model.skip(i + 1) =~= model.skip(i as int));
                if proper {
                    assert(proper_element(model[i as int]));
                    lemma_wired_grown(g1, g, base, mid, cur.id() as int, k);
                    lemma_wired_cons(
                        g,
                        base,
                        mid,
                        g.len() as int,
                        first.id() as int,
                        cur.id() as int,
                        k,
                    );
                }
                assert forall|x: int| 0 <= x < base implies g[x] == g0[x] by {
                    assert(g[x] == g1[x]);
                }
                assert forall|x: int| base <= x < g.len() implies !((#[trigger] g[x]).kind is Start)
                    && !(g[x].kind is Accept) by {
                    if x < mid {
                        assert(g[x] == g1[x]);
                    }
                }
            }
            cur = first;
        }
        proof {
            assert(model.skip(0) =~= model);
            lemma_same_grown(g0, self.states());
        }
        cur
    }

    /// The automaton of `pattern`: a start, an end, and between them the
    /// part that matches the pattern. It accepts what the pattern matches.
    /// Where no group of the pattern is without a pattern, each of its
    /// states is reached from the start and reaches the end.
#[verifier::rlimit(40)]
    pub fn from_pattern(pattern: &Pattern) -> (graph: NfaGraph)
        ensures
            compiled(graph.states()),
            forall|w: Seq<char>| #[trigger]
                language(graph.states(), w) <==> pattern_matches(pattern_model(*pattern), w),
            proper_elements(pattern_model(*pattern).elements) ==> connected(graph.states()),
    {
        let mut graph = NfaGraph::new();
        let start = graph.strong_ptr(NfaStateKind::Start);
        let accept = graph.strong_ptr(NfaStateKind::Accept);
        let ghost base = graph.states();
        proof {
            assert(sound(base));
        }
        let entry = graph.add_pattern(pattern, &accept);
        let ghost g1 = graph.states();
        graph.add_successor(&start, &entry);
        proof {
            let g = graph.states();
            let es = pattern_model(*pattern).elements;
            assert(g1[0] == base[0]);
            assert(g1[1] == base[1]);
            assert(g[1] == g1[1]);
            assert forall|i: int, j: int|
                0 <= i < g.len() && 0 <= j < g[i].successors@.len() implies 1 <= (
            #[trigger] g[i].successors@[j]).id() < g.len() by {
                if i != 0 {
                    assert(g[i] == g1[i]);
                    assert(1 <= g1[i].successors@[j].id());
                }
            }
            assert forall|i: int| 2 <= i < g.len() implies !((#[trigger] g[i]).kind is Start) && !(
            g[i].kind is Accept) by {
                assert(g[i] == g1[i]);
            }
            assert(agree(g1, g, 2, g1.len() as int)) by {
                assert forall|x: int| 2 <= x < g1.len() implies #[trigger] g[x] == g1[x] by {}
            }
            lemma_fragment_stays(g1, g, 2, g1.len() as int, entry.id() as int, 1, Lang::Sequence(es));
            lemma_gains_grown(g1, g, 0, entry, true);
            if proper_elements(es) {
                lemma_wired_grown(g1, g, 2, g1.len() as int, entry.id() as int, 1);
                lemma_connected(g, entry.id() as int);
            }
            assert forall|w: Seq<char>| #[trigger]
                language(g, w) <==> pattern_matches(pattern_model(*pattern), w) by {
                lemma_whole(g, entry.id() as int, es, w);
            }
        }
        graph
    }

    /// The automaton of the regular expression `regex`, which must be a
    /// pattern from its first character to its last. It accepts what the
    /// regular expression matches, and each of its states is reached from
    /// the start and reaches the end.
    pub fn from_regex(regex: &str) -> (r: Result<NfaGraph, RegexError>)
        ensures
            r is Ok <==> is_regex(regex@),
            r matches Ok(graph) ==> compiled(graph.states()) && forall|w: Seq<char>| #[trigger]
                language(graph.states(), w) <==> regex_matches(regex@, w),
            r matches Ok(graph) ==> connected(graph.states()),
    {
        match whole_pattern(regex) {
            Ok(pattern) => {
                proof {
                    lemma_pattern_proper(regex@, 0);
                }
                Ok(NfaGraph::from_pattern(&pattern))
            },
            Err(e) => Err(e),
        }
    }
}

} // verus!
