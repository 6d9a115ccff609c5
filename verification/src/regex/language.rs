//! What a pattern matches.

use vstd::prelude::*;
use crate::regex::parse::{is_regex, pattern_at, ElementModel, PatternModel};

verus! {

/// `k` is a place at which `w` can be cut in two.
pub open spec fn cut(w: Seq<char>, k: int) -> bool {
    0 <= k <= w.len()
}

/// `i` is the place of one of the patterns.
pub open spec fn pick(ps: Seq<PatternModel>, i: int) -> bool {
    0 <= i < ps.len()
}

/// Whether the element matches `w`.
pub open spec fn elem_matches(e: ElementModel, w: Seq<char>) -> bool
    decreases e, w.len(), 0int,
{
    match e {
        ElementModel::Literal(c) => w == seq![c],
        ElementModel::Wildcard => w.len() == 1,
        ElementModel::AnyOf(set) => w.len() == 1 && set.contains(w[0]),
        ElementModel::Repeat(inner) => star_matches(*inner, w),
        ElementModel::Optional(inner) => w.len() == 0 || elem_matches(*inner, w),
        ElementModel::Group(patterns) => any_matches(patterns, w),
    }
}

/// Whether `w` is made of pieces, any number of them, each of which the
/// element matches.
pub open spec fn star_matches(e: ElementModel, w: Seq<char>) -> bool
    decreases e, w.len(), 1int,
{
    w.len() == 0 || exists|k: int|
        0 < k && #[trigger] cut(w, k) && elem_matches(e, w.take(k)) && star_matches(e, w.skip(k))
}

/// Whether `w` is made of pieces, one for each element, in their order, each
/// of which its element matches.
pub open spec fn seq_matches(es: Seq<ElementModel>, w: Seq<char>) -> bool
    decreases es, w.len(), 0int,
{
    if es.len() == 0 {
        w.len() == 0
    } else {
        exists|k: int|
            #[trigger] cut(w, k) && elem_matches(es[0], w.take(k)) && seq_matches(
                es.subrange(1, es.len() as int),
                w.skip(k),
            )
    }
}

/// Whether one of the patterns matches `w`.
pub open spec fn any_matches(ps: Seq<PatternModel>, w: Seq<char>) -> bool
    decreases ps, w.len(), 0int,
{
    exists|i: int| #[trigger] pick(ps, i) && seq_matches(ps[i].elements, w)
}

/// Whether the pattern matches `w`: all of it.
pub open spec fn pattern_matches(p: PatternModel, w: Seq<char>) -> bool {
    seq_matches(p.elements, w)
}

/// Whether `regex` is a regular expression that matches `w`.
pub open spec fn regex_matches(regex: Seq<char>, w: Seq<char>) -> bool {
    match pattern_at(regex, 0) {
        Some((p, end)) => end == regex.len() && pattern_matches(p, w),
        None => false,
    }
}

/// A sequence of elements matches a word that its first element and the
/// rest match piece by piece.
pub proof fn lemma_seq_cons(es: Seq<ElementModel>, w: Seq<char>, j: int)
    requires
        es.len() > 0,
        0 <= j <= w.len(),
        elem_matches(es[0], w.take(j)),
        seq_matches(es.subrange(1, es.len() as int), w.skip(j)),
    ensures
        seq_matches(es, w),
{
    assert(cut(w, j));
}

/// A word that a sequence of elements matches is matched piece by piece by
/// its first element and the rest.
pub proof fn lemma_seq_uncons(es: Seq<ElementModel>, w: Seq<char>) -> (j: int)
    requires
        es.len() > 0,
        seq_matches(es, w),
    ensures
        0 <= j <= w.len(),
        elem_matches(es[0], w.take(j)),
        seq_matches(es.subrange(1, es.len() as int), w.skip(j)),
{
    choose|j: int|
        #[trigger] cut(w, j) && elem_matches(es[0], w.take(j)) && seq_matches(
            es.subrange(1, es.len() as int),
            w.skip(j),
        )
}

/// An element matches, any number of times, a word of which it matches a
/// first piece and, any number of times, the rest.
pub proof fn lemma_star_cons(e: ElementModel, w: Seq<char>, j: int)
    requires
        0 <= j <= w.len(),
        elem_matches(e, w.take(j)),
        star_matches(e, w.skip(j)),
    ensures
        star_matches(e, w),
{
    if j == 0 {
        assert(w.skip(0) =~= w);
    } else {
        assert(cut(w, j));
    }
}

/// A word that an element matches any number of times is empty, or the
/// element matches a first piece of it, not empty, and the rest any number
/// of times.
pub proof fn lemma_star_uncons(e: ElementModel, w: Seq<char>) -> (j: int)
    requires
        star_matches(e, w),
        w.len() > 0,
    ensures
        0 < j <= w.len(),
        elem_matches(e, w.take(j)),
        star_matches(e, w.skip(j)),
{
    choose|j: int|
        0 < j && #[trigger] cut(w, j) && elem_matches(e, w.take(j)) && star_matches(e, w.skip(j))
}

/// One of the patterns matches a word that pattern `i` matches.
pub proof fn lemma_any_intro(ps: Seq<PatternModel>, w: Seq<char>, i: int)
    requires
        0 <= i < ps.len(),
        seq_matches(ps[i].elements, w),
    ensures
        any_matches(ps, w),
{
    assert(pick(ps, i));
}

/// The pattern that matches a word that one of the patterns matches.
pub proof fn lemma_any_elim(ps: Seq<PatternModel>, w: Seq<char>) -> (i: int)
    requires
        any_matches(ps, w),
    ensures
        0 <= i < ps.len(),
        seq_matches(ps[i].elements, w),
{
    choose|i: int| #[trigger] pick(ps, i) && seq_matches(ps[i].elements, w)
}

} // verus!
