//! The parts of which the automaton of a pattern is made, and what each
//! accepts.

use vstd::prelude::*;
use crate::regex::language::{
    any_matches, elem_matches, lemma_any_elim, lemma_any_intro, lemma_seq_cons, lemma_seq_uncons,
    lemma_star_cons, lemma_star_uncons, seq_matches, star_matches,
};
use crate::regex::nfa::graph::edge;
use crate::regex::nfa::language::{leads, reaches};
use crate::regex::nfa::state::{kind_accepts, NfaState, NfaStateKind};
use crate::regex::parse::{ElementModel, PatternModel};

verus! {

/// What a part of an automaton is to match: an element, a sequence of
/// elements, one of several patterns, or an element any number of times.
pub ghost enum Lang {
    Elem(ElementModel),
    Sequence(Seq<ElementModel>),
    Any(Seq<PatternModel>),
    Star(ElementModel),
}

/// Whether `w` is matched.
pub open spec fn in_lang(l: Lang, w: Seq<char>) -> bool {
    match l {
        Lang::Elem(e) => elem_matches(e, w),
        Lang::Sequence(es) => seq_matches(es, w),
        Lang::Any(ps) => any_matches(ps, w),
        Lang::Star(e) => star_matches(e, w),
    }
}

/// `g2` holds the states of `g` from `lo` up to `hi` as they are.
pub open spec fn agree(g: Seq<NfaState>, g2: Seq<NfaState>, lo: int, hi: int) -> bool {
    &&& g.len() <= g2.len()
    &&& forall|i: int| lo <= i < hi ==> #[trigger] g2[i] == g[i]
}

/// Every edge leads to a state of the arena, and none to the first state.
pub open spec fn sound(g: Seq<NfaState>) -> bool {
    forall|i: int, j: int|
        0 <= i < g.len() && 0 <= j < g[i].successors@.len() ==> 1 <= (
        #[trigger] g[i].successors@[j]).id() < g.len()
}

/// `w` is a word of `l` and then a word that the automaton accepts from
/// state `k` along no more than `n` edges.
pub open spec fn splits(g: Seq<NfaState>, k: int, l: Lang, w: Seq<char>, n: nat) -> bool {
    exists|u: Seq<char>, v: Seq<char>, m: nat|
        m <= n && w == u + v && #[trigger] in_lang(l, u) && #[trigger] leads(g, k, v, m)
}

/// What the automaton accepts from state `s` is a word of `l` and then a
/// word that it accepts from state `k`.
#[verifier::opaque]
pub open spec fn fp_fwd(g: Seq<NfaState>, s: int, k: int, l: Lang) -> bool {
    forall|w: Seq<char>, n: nat| #[trigger] leads(g, s, w, n) ==> splits(g, k, l, w, n)
}

/// A word of `l` and then a word that the automaton accepts from state `k`
/// is one that it accepts from state `s`.
#[verifier::opaque]
pub open spec fn fp_bwd(g: Seq<NfaState>, s: int, k: int, l: Lang) -> bool {
    forall|u: Seq<char>, v: Seq<char>, m: nat|
        #[trigger] in_lang(l, u) && #[trigger] leads(g, k, v, m) ==> reaches(g, s, u + v)
}

/// How `fp_fwd` is shown.
pub proof fn lemma_fwd_intro(g: Seq<NfaState>, s: int, k: int, l: Lang)
    requires
        forall|w: Seq<char>, n: nat| #[trigger] leads(g, s, w, n) ==> splits(g, k, l, w, n),
    ensures
        fp_fwd(g, s, k, l),
{
    reveal(fp_fwd);
}

/// How `fp_bwd` is shown.
pub proof fn lemma_bwd_intro(g: Seq<NfaState>, s: int, k: int, l: Lang)
    requires
        forall|u: Seq<char>, v: Seq<char>, m: nat|
            #[trigger] in_lang(l, u) && #[trigger] leads(g, k, v, m) ==> reaches(g, s, u + v),
    ensures
        fp_bwd(g, s, k, l),
{
    reveal(fp_bwd);
}

/// How `fp_fwd` is used: the word accepted from `s` is split.
pub proof fn lemma_fwd(g: Seq<NfaState>, s: int, k: int, l: Lang, w: Seq<char>, n: nat) -> (parts: (
    Seq<char>,
    Seq<char>,
    nat,
))
    requires
        fp_fwd(g, s, k, l),
        leads(g, s, w, n),
    ensures
        parts.2 <= n,
        w == parts.0 + parts.1,
        in_lang(l, parts.0),
        leads(g, k, parts.1, parts.2),
{
    reveal(fp_fwd);
    assert(splits(g, k, l, w, n));
    choose|u: Seq<char>, v: Seq<char>, m: nat|
        m <= n && w == u + v && #[trigger] in_lang(l, u) && #[trigger] leads(g, k, v, m)
}

/// How `fp_bwd` is used: the number of edges along which the word is
/// accepted from `s`.
pub proof fn lemma_bwd(
    g: Seq<NfaState>,
    s: int,
    k: int,
    l: Lang,
    u: Seq<char>,
    v: Seq<char>,
    m: nat,
) -> (n: nat)
    requires
        fp_bwd(g, s, k, l),
        in_lang(l, u),
        leads(g, k, v, m),
    ensures
        leads(g, s, u + v, n),
{
    reveal(fp_bwd);
    assert(reaches(g, s, u + v));
    choose|n: nat| leads(g, s, u + v, n)
}

/// The states from `lo` up to `hi` are a part of the automaton that is
/// entered at `s`, matches `l`, and is left into `k`: whatever becomes of
/// the other states.
pub open spec fn fragment(g: Seq<NfaState>, lo: int, hi: int, s: int, k: int, l: Lang) -> bool {
    forall|g2: Seq<NfaState>| #[trigger]
        agree(g, g2, lo, hi) ==> fp_fwd(g2, s, k, l) && fp_bwd(g2, s, k, l)
}

/// State `s` is without a character, and its edges lead to `targets`.
pub open spec fn dummy_to(g: Seq<NfaState>, s: int, targets: Seq<int>) -> bool {
    &&& 0 <= s < g.len()
    &&& g[s].kind is Dummy
    &&& g[s].successors@.len() == targets.len()
    &&& forall|j: int|
        0 <= j < targets.len() ==> (#[trigger] g[s].successors@[j]).id() == targets[j]
    &&& forall|j: int| 0 <= j < targets.len() ==> 0 <= #[trigger] targets[j]
    &&& forall|j: int| 0 <= j < targets.len() ==> #[trigger] targets[j] < g.len()
}

/// State `s` carries a character, and its one edge leads to `target`.
pub open spec fn char_to(g: Seq<NfaState>, s: int, target: int) -> bool {
    &&& 0 <= s < g.len()
    &&& (g[s].kind is Literal || g[s].kind is AnyOf || g[s].kind is Wildcard)
    &&& g[s].successors@.len() == 1
    &&& g[s].successors@[0].id() == target
    &&& 0 <= target < g.len()
}

/// A part of an automaton stays what it is while its states stay as they
/// are.
pub proof fn lemma_fragment_stays(
    old: Seq<NfaState>,
    g: Seq<NfaState>,
    lo: int,
    hi: int,
    s: int,
    k: int,
    l: Lang,
)
    requires
        fragment(old, lo, hi, s, k, l),
        agree(old, g, lo, hi),
    ensures
        fragment(g, lo, hi, s, k, l),
{
    assert forall|g2: Seq<NfaState>| #[trigger] agree(g, g2, lo, hi) implies fp_fwd(g2, s, k, l)
        && fp_bwd(g2, s, k, l) by {
        assert(agree(old, g2, lo, hi)) by {
            assert forall|i: int| lo <= i < hi implies #[trigger] g2[i] == old[i] by {
                assert(g2[i] == g[i]);
                assert(g[i] == old[i]);
            }
        }
    }
}

/// A state that stays as it is stays without a character, with its edges.
pub proof fn lemma_dummy_stays(g: Seq<NfaState>, g2: Seq<NfaState>, s: int, targets: Seq<int>)
    requires
        dummy_to(g, s, targets),
        g.len() <= g2.len(),
        g2[s] == g[s],
    ensures
        dummy_to(g2, s, targets),
{
    assert forall|j: int| 0 <= j < targets.len() implies (#[trigger] g2[s].successors@[j]).id()
        == targets[j] by {
        assert(g[s].successors@[j].id() == targets[j]);
    }
}

/// From a state without a character the automaton accepts what it accepts
/// from behind one of its edges.
pub proof fn lemma_dummy_step(
    g: Seq<NfaState>,
    s: int,
    targets: Seq<int>,
    w: Seq<char>,
    n: nat,
) -> (j: int)
    requires
        dummy_to(g, s, targets),
        leads(g, s, w, n),
    ensures
        0 <= j < targets.len(),
        n > 0,
        leads(g, targets[j], w, (n - 1) as nat),
{
    let t = choose|t: int| #[trigger] edge(g, s, t, false) && leads(g, t, w, (n - 1) as nat);
    let j = choose|j: int|
        0 <= j < g[s].successors@.len() && (#[trigger] g[s].successors@[j]).id() == t;
    j
}

/// What the automaton accepts from behind an edge of a state without a
/// character, it accepts from that state.
pub proof fn lemma_dummy_enter(
    g: Seq<NfaState>,
    s: int,
    targets: Seq<int>,
    j: int,
    w: Seq<char>,
    n: nat,
)
    requires
        dummy_to(g, s, targets),
        0 <= j < targets.len(),
        leads(g, targets[j], w, n),
    ensures
        leads(g, s, w, n + 1),
{
    assert(g[s].successors@[j].id() == targets[j]);
    assert(edge(g, s, targets[j], false));
}

/// A state with a character is the part that matches its character.
pub proof fn lemma_char_fragment(g: Seq<NfaState>, s: int, k: int, e: ElementModel)
    requires
        char_to(g, s, k),
        forall|w: Seq<char>| #[trigger]
            elem_matches(e, w) <==> w.len() == 1 && kind_accepts(g[s].kind, w[0]),
    ensures
        fragment(g, s, s + 1, s, k, Lang::Elem(e)),
{
    let l = Lang::Elem(e);
    assert forall|g2: Seq<NfaState>| #[trigger] agree(g, g2, s, s + 1) implies fp_fwd(g2, s, k, l)
        && fp_bwd(g2, s, k, l) by {
        assert(g2[s] == g[s]);
        assert forall|w: Seq<char>, n: nat| #[trigger] leads(g2, s, w, n) implies splits(
            g2,
            k,
            l,
            w,
            n,
        ) by {
            let t = choose|t: int| #[trigger]
                edge(g2, s, t, false) && leads(g2, t, w.skip(1), (n - 1) as nat);
            let j = choose|j: int|
                0 <= j < g2[s].successors@.len() && (#[trigger] g2[s].successors@[j]).id() == t;
            let u = w.take(1);
            let v = w.skip(1);
            assert(w =~= u + v);
            assert(elem_matches(e, u));
            assert(in_lang(l, u) && leads(g2, k, v, (n - 1) as nat));
        }
        lemma_fwd_intro(g2, s, k, l);
        assert forall|u: Seq<char>, v: Seq<char>, m: nat|
            #[trigger] in_lang(l, u) && #[trigger] leads(g2, k, v, m) implies reaches(
            g2,
            s,
            u + v,
        ) by {
            assert(elem_matches(e, u));
            let w = u + v;
            assert(w.skip(1) =~= v);
            assert(w[0] == u[0]);
            assert(g2[s].successors@[0].id() == k);
            assert(edge(g2, s, k, false));
            assert(leads(g2, s, w, m + 1));
        }
        lemma_bwd_intro(g2, s, k, l);
    }
}

/// Nothing is the part that matches the empty sequence.
pub proof fn lemma_nil_fragment(g: Seq<NfaState>, lo: int, k: int)
    ensures
        fragment(g, lo, lo, k, k, Lang::Sequence(Seq::empty())),
{
    let l = Lang::Sequence(Seq::<ElementModel>::empty());
    assert forall|g2: Seq<NfaState>| #[trigger] agree(g, g2, lo, lo) implies fp_fwd(g2, k, k, l)
        && fp_bwd(g2, k, k, l) by {
        assert forall|w: Seq<char>, n: nat| #[trigger] leads(g2, k, w, n) implies splits(
            g2,
            k,
            l,
            w,
            n,
        ) by {
            let u = Seq::<char>::empty();
            assert(w =~= u + w);
            assert(in_lang(l, u) && leads(g2, k, w, n));
        }
        lemma_fwd_intro(g2, k, k, l);
        assert forall|u: Seq<char>, v: Seq<char>, m: nat|
            #[trigger] in_lang(l, u) && #[trigger] leads(g2, k, v, m) implies reaches(
            g2,
            k,
            u + v,
        ) by {
            assert(u + v =~= v);
        }
        lemma_bwd_intro(g2, k, k, l);
    }
}

/// A part that matches an element, left into a part that matches a
/// sequence, is the part that matches the element and then the sequence.
#[verifier::rlimit(40)]
pub proof fn lemma_cons_fragment(
    g: Seq<NfaState>,
    lo: int,
    mid: int,
    hi: int,
    s: int,
    cur: int,
    k: int,
    e: ElementModel,
    es: Seq<ElementModel>,
)
    requires
        lo <= mid <= hi,
        fragment(g, lo, mid, cur, k, Lang::Sequence(es)),
        fragment(g, mid, hi, s, cur, Lang::Elem(e)),
    ensures
        fragment(g, lo, hi, s, k, Lang::Sequence(seq![e] + es)),
{
    let all = seq![e] + es;
    let l = Lang::Sequence(all);
    let le = Lang::Elem(e);
    let ls = Lang::Sequence(es);
    assert(all[0] == e);
    assert(all.subrange(1, all.len() as int) =~= es);
    assert forall|g2: Seq<NfaState>| #[trigger] agree(g, g2, lo, hi) implies fp_fwd(g2, s, k, l)
        && fp_bwd(g2, s, k, l) by {
        assert(agree(g, g2, lo, mid));
        assert(agree(g, g2, mid, hi));
        assert forall|w: Seq<char>, n: nat| #[trigger] leads(g2, s, w, n) implies splits(
            g2,
            k,
            l,
            w,
            n,
        ) by {
            let (u1, v1, m1) = lemma_fwd(g2, s, cur, le, w, n);
            let (u2, v, m) = lemma_fwd(g2, cur, k, ls, v1, m1);
            let u = u1 + u2;
            assert(w =~= u + v);
            assert(u.take(u1.len() as int) =~= u1);
            assert(u.skip(u1.len() as int) =~= u2);
            assert(elem_matches(all[0], u.take(u1.len() as int)));
            assert(seq_matches(all.subrange(1, all.len() as int), u.skip(u1.len() as int)));
            lemma_seq_cons(all, u, u1.len() as int);
            assert(in_lang(l, u) && leads(g2, k, v, m));
        }
        lemma_fwd_intro(g2, s, k, l);
        assert forall|u: Seq<char>, v: Seq<char>, m: nat|
            #[trigger] in_lang(l, u) && #[trigger] leads(g2, k, v, m) implies reaches(
            g2,
            s,
            u + v,
        ) by {
            let j = lemma_seq_uncons(all, u);
            let n1 = lemma_bwd(g2, cur, k, ls, u.skip(j), v, m);
            let n2 = lemma_bwd(g2, s, cur, le, u.take(j), u.skip(j) + v, n1);
            assert(u.take(j) + (u.skip(j) + v) =~= u + v);
        }
        lemma_bwd_intro(g2, s, k, l);
    }
}

/// An element between two states without a character, with an edge that
/// skips it, is the part that matches the element or nothing. The state at
/// `lo` is the one after the element, the state at `hi - 1` the one before.
pub proof fn lemma_optional_fragment(
    g: Seq<NfaState>,
    lo: int,
    hi: int,
    inner: int,
    k: int,
    e: ElementModel,
)
    requires
        lo + 2 <= hi <= g.len(),
        dummy_to(g, lo, seq![k]),
        dummy_to(g, hi - 1, seq![inner, lo]),
        fragment(g, lo + 1, hi - 1, inner, lo, Lang::Elem(e)),
    ensures
        fragment(g, lo, hi, hi - 1, k, Lang::Elem(ElementModel::Optional(Box::new(e)))),
{
    let l = Lang::Elem(ElementModel::Optional(Box::new(e)));
    let li = Lang::Elem(e);
    let s = hi - 1;
    assert forall|g2: Seq<NfaState>| #[trigger] agree(g, g2, lo, hi) implies fp_fwd(g2, s, k, l)
        && fp_bwd(g2, s, k, l) by {
        assert(agree(g, g2, lo + 1, hi - 1));
        assert(g2[lo] == g[lo]);
        assert(g2[s] == g[s]);
        lemma_dummy_stays(g, g2, lo, seq![k]);
        lemma_dummy_stays(g, g2, s, seq![inner, lo]);
        assert forall|w: Seq<char>, n: nat| #[trigger] leads(g2, s, w, n) implies splits(
            g2,
            k,
            l,
            w,
            n,
        ) by {
            let j = lemma_dummy_step(g2, s, seq![inner, lo], w, n);
            if j == 0 {
                let (u, v, m) = lemma_fwd(g2, inner, lo, li, w, (n - 1) as nat);
                let j2 = lemma_dummy_step(g2, lo, seq![k], v, m);
                assert(in_lang(l, u) && leads(g2, k, v, (m - 1) as nat));
            } else {
                let j2 = lemma_dummy_step(g2, lo, seq![k], w, (n - 1) as nat);
                let u = Seq::<char>::empty();
                assert(w =~= u + w);
                assert(in_lang(l, u) && leads(g2, k, w, (n - 2) as nat));
            }
        }
        lemma_fwd_intro(g2, s, k, l);
        assert forall|u: Seq<char>, v: Seq<char>, m: nat|
            #[trigger] in_lang(l, u) && #[trigger] leads(g2, k, v, m) implies reaches(
            g2,
            s,
            u + v,
        ) by {
            lemma_dummy_enter(g2, lo, seq![k], 0, v, m);
            if u.len() == 0 {
                assert(u + v =~= v);
                lemma_dummy_enter(g2, s, seq![inner, lo], 1, v, m + 1);
            } else {
                let n1 = lemma_bwd(g2, inner, lo, li, u, v, m + 1);
                lemma_dummy_enter(g2, s, seq![inner, lo], 0, u + v, n1);
            }
        }
        lemma_bwd_intro(g2, s, k, l);
    }
}

/// What the automaton accepts from the state before a repeated element is
/// pieces that the element matches and then a word that it accepts from
/// behind the repetition.
proof fn lemma_repeat_fwd(
    g: Seq<NfaState>,
    lo: int,
    inner: int,
    k: int,
    e: ElementModel,
    w: Seq<char>,
    n: nat,
) -> (parts: (Seq<char>, Seq<char>, nat))
    requires
        dummy_to(g, lo, seq![k]),
        dummy_to(g, lo + 1, seq![inner, lo]),
        dummy_to(g, lo + 2, seq![lo, lo + 1]),
        fp_fwd(g, inner, lo + 2, Lang::Elem(e)),
        leads(g, lo + 1, w, n),
    ensures
        parts.2 <= n,
        w == parts.0 + parts.1,
        star_matches(e, parts.0),
        leads(g, k, parts.1, parts.2),
    decreases n,
{
    let j = lemma_dummy_step(g, lo + 1, seq![inner, lo], w, n);
    if j == 1 {
        let j2 = lemma_dummy_step(g, lo, seq![k], w, (n - 1) as nat);
        let u = Seq::<char>::empty();
        assert(w =~= u + w);
        (u, w, (n - 2) as nat)
    } else {
        let (u1, v1, m1) = lemma_fwd(g, inner, lo + 2, Lang::Elem(e), w, (n - 1) as nat);
        let j2 = lemma_dummy_step(g, lo + 2, seq![lo, lo + 1], v1, m1);
        if j2 == 0 {
            let j3 = lemma_dummy_step(g, lo, seq![k], v1, (m1 - 1) as nat);
            assert(u1.take(u1.len() as int) =~= u1);
            assert(u1.skip(u1.len() as int) =~= Seq::<char>::empty());
            lemma_star_cons(e, u1, u1.len() as int);
            (u1, v1, (m1 - 2) as nat)
        } else {
            let (u2, v, m) = lemma_repeat_fwd(g, lo, inner, k, e, v1, (m1 - 1) as nat);
            let u = u1 + u2;
            assert(u.take(u1.len() as int) =~= u1);
            assert(u.skip(u1.len() as int) =~= u2);
            lemma_star_cons(e, u, u1.len() as int);
            assert(w =~= u + v);
            (u, v, m)
        }
    }
}

/// Pieces that a repeated element matches, and then a word that the
/// automaton accepts from behind the repetition, are a word that it accepts
/// from the state before.
proof fn lemma_repeat_bwd(
    g: Seq<NfaState>,
    lo: int,
    inner: int,
    k: int,
    e: ElementModel,
    u: Seq<char>,
    v: Seq<char>,
    m: nat,
) -> (n: nat)
    requires
        dummy_to(g, lo, seq![k]),
        dummy_to(g, lo + 1, seq![inner, lo]),
        dummy_to(g, lo + 2, seq![lo, lo + 1]),
        fp_bwd(g, inner, lo + 2, Lang::Elem(e)),
        star_matches(e, u),
        leads(g, k, v, m),
    ensures
        leads(g, lo + 1, u + v, n),
    decreases u.len(),
{
    if u.len() == 0 {
        lemma_dummy_enter(g, lo, seq![k], 0, v, m);
        lemma_dummy_enter(g, lo + 1, seq![inner, lo], 1, v, m + 1);
        assert(u + v =~= v);
        m + 2
    } else {
        let j = lemma_star_uncons(e, u);
        let n1 = lemma_repeat_bwd(g, lo, inner, k, e, u.skip(j), v, m);
        let x = u.skip(j) + v;
        lemma_dummy_enter(g, lo + 2, seq![lo, lo + 1], 1, x, n1);
        let n2 = lemma_bwd(g, inner, lo + 2, Lang::Elem(e), u.take(j), x, n1 + 1);
        lemma_dummy_enter(g, lo + 1, seq![inner, lo], 0, u.take(j) + x, n2);
        assert(u.take(j) + x =~= u + v);
        n2 + 1
    }
}

/// An element between states without a character, with an edge that skips
/// it and an edge back from behind it, is the part that matches the
/// element any number of times. The state at `lo` is the one after the
/// repetition, the state at `lo + 1` the one before, the state at `lo + 2`
/// the one behind the element, from which the edge leads back.
#[verifier::rlimit(40)]
pub proof fn lemma_repeat_fragment(
    g: Seq<NfaState>,
    lo: int,
    hi: int,
    inner: int,
    k: int,
    e: ElementModel,
)
    requires
        lo + 3 <= hi <= g.len(),
        dummy_to(g, lo, seq![k]),
        dummy_to(g, lo + 1, seq![inner, lo]),
        dummy_to(g, lo + 2, seq![lo, lo + 1]),
        fragment(g, lo + 3, hi, inner, lo + 2, Lang::Elem(e)),
    ensures
        fragment(g, lo, hi, lo + 1, k, Lang::Elem(ElementModel::Repeat(Box::new(e)))),
{
    let l = Lang::Elem(ElementModel::Repeat(Box::new(e)));
    let s = lo + 1;
    assert forall|g2: Seq<NfaState>| #[trigger] agree(g, g2, lo, hi) implies fp_fwd(g2, s, k, l)
        && fp_bwd(g2, s, k, l) by {
        assert(agree(g, g2, lo + 3, hi));
        assert(g2[lo] == g[lo]);
        assert(g2[lo + 1] == g[lo + 1]);
        assert(g2[lo + 2] == g[lo + 2]);
        lemma_dummy_stays(g, g2, lo, seq![k]);
        lemma_dummy_stays(g, g2, lo + 1, seq![inner, lo]);
        lemma_dummy_stays(g, g2, lo + 2, seq![lo, lo + 1]);
        assert forall|w: Seq<char>, n: nat| #[trigger] leads(g2, s, w, n) implies splits(
            g2,
            k,
            l,
            w,
            n,
        ) by {
            let (u, v, m) = lemma_repeat_fwd(g2, lo, inner, k, e, w, n);
            assert(in_lang(l, u) && leads(g2, k, v, m));
        }
        lemma_fwd_intro(g2, s, k, l);
        assert forall|u: Seq<char>, v: Seq<char>, m: nat|
            #[trigger] in_lang(l, u) && #[trigger] leads(g2, k, v, m) implies reaches(
            g2,
            s,
            u + v,
        ) by {
            let n = lemma_repeat_bwd(g2, lo, inner, k, e, u, v, m);
        }
        lemma_bwd_intro(g2, s, k, l);
    }
}

/// Patterns between a fork and a join are the part that matches any one
/// of them. The state at `lo` is the join, the state at `lo + 1` the fork;
/// pattern `i` is entered at `entries[i]` and holds the states from
/// `bounds[i]` up to `bounds[i + 1]`.
#[verifier::rlimit(40)]
pub proof fn lemma_group_fragment(
    g: Seq<NfaState>,
    lo: int,
    hi: int,
    entries: Seq<int>,
    bounds: Seq<int>,
    k: int,
    ps: Seq<PatternModel>,
)
    requires
        lo + 2 <= hi <= g.len(),
        dummy_to(g, lo, seq![k]),
        dummy_to(g, lo + 1, entries),
        entries.len() == ps.len(),
        bounds.len() == ps.len() + 1,
        forall|i: int| 0 <= i < bounds.len() ==> lo + 2 <= #[trigger] bounds[i] <= hi,
        forall|i: int|
            0 <= i < ps.len() ==> #[trigger] fragment(
                g,
                bounds[i],
                bounds[i + 1],
                entries[i],
                lo,
                Lang::Sequence(ps[i].elements),
            ),
    ensures
        fragment(g, lo, hi, lo + 1, k, Lang::Elem(ElementModel::Group(ps))),
{
    let l = Lang::Elem(ElementModel::Group(ps));
    let s = lo + 1;
    assert forall|g2: Seq<NfaState>| #[trigger] agree(g, g2, lo, hi) implies fp_fwd(g2, s, k, l)
        && fp_bwd(g2, s, k, l) by {
        assert(g2[lo] == g[lo]);
        assert(g2[lo + 1] == g[lo + 1]);
        lemma_dummy_stays(g, g2, lo, seq![k]);
        lemma_dummy_stays(g, g2, s, entries);
        assert forall|i: int| 0 <= i < ps.len() implies fp_fwd(
            g2,
            #[trigger] entries[i],
            lo,
            Lang::Sequence(ps[i].elements),
        ) && fp_bwd(g2, entries[i], lo, Lang::Sequence(ps[i].elements)) by {
            assert(fragment(
                g,
                bounds[i],
                bounds[i + 1],
                entries[i],
                lo,
                Lang::Sequence(ps[i].elements),
            ));
            assert(agree(g, g2, bounds[i], bounds[i + 1]));
        }
        assert forall|w: Seq<char>, n: nat| #[trigger] leads(g2, s, w, n) implies splits(
            g2,
            k,
            l,
            w,
            n,
        ) by {
            let j = lemma_dummy_step(g2, s, entries, w, n);
            assert(fp_fwd(g2, entries[j], lo, Lang::Sequence(ps[j].elements)));
            let (u, v, m) = lemma_fwd(
                g2,
                entries[j],
                lo,
                Lang::Sequence(ps[j].elements),
                w,
                (n - 1) as nat,
            );
            let j2 = lemma_dummy_step(g2, lo, seq![k], v, m);
            lemma_any_intro(ps, u, j);
            assert(in_lang(l, u) && leads(g2, k, v, (m - 1) as nat));
        }
        lemma_fwd_intro(g2, s, k, l);
        assert forall|u: Seq<char>, v: Seq<char>, m: nat|
            #[trigger] in_lang(l, u) && #[trigger] leads(g2, k, v, m) implies reaches(
            g2,
            s,
            u + v,
        ) by {
            let i = lemma_any_elim(ps, u);
            lemma_dummy_enter(g2, lo, seq![k], 0, v, m);
            assert(fp_bwd(g2, entries[i], lo, Lang::Sequence(ps[i].elements)));
            let n1 = lemma_bwd(g2, entries[i], lo, Lang::Sequence(ps[i].elements), u, v, m + 1);
            lemma_dummy_enter(g2, s, entries, i, u + v, n1);
        }
        lemma_bwd_intro(g2, s, k, l);
    }
}

} // verus!
