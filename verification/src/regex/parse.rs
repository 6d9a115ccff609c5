//! The syntax of the regular expressions: what a pattern is, and the parser
//! that reads one from the front of a string.

use vstd::prelude::*;
use vstd::string::StrSliceExecFns;
use crate::text::chars_of;

verus! {

/// A pattern: its elements, one after the other.
#[derive(Debug, PartialEq)]
pub struct Pattern {
    /// The elements, at least one in a pattern that was parsed.
    pub elements: Vec<Element>,
}

/// One element of a pattern.
#[derive(Debug, PartialEq)]
pub enum Element {
    /// This character.
    Literal(char),
    /// Any one character.
    Wildcard,
    /// Any one of these characters.
    AnyOf(Vec<char>),
    /// The element, any number of times.
    Repeat(Box<Element>),
    /// The element, or nothing.
    Optional(Box<Element>),
    /// Any one of these patterns.
    Group(Vec<Pattern>),
}

/// A pattern as a value of specifications.
pub ghost struct PatternModel {
    pub elements: Seq<ElementModel>,
}

/// An element as a value of specifications.
pub ghost enum ElementModel {
    Literal(char),
    Wildcard,
    AnyOf(Seq<char>),
    Repeat(Box<ElementModel>),
    Optional(Box<ElementModel>),
    Group(Seq<PatternModel>),
}

/// Why a string is no regular expression: the place at which the parser
/// could not go on.
#[derive(Debug, PartialEq, Eq, Clone, Copy)]
pub struct RegexError {
    /// The number of characters that were read as a pattern.
    pub position: usize,
}

/// The model of a pattern.
pub open spec fn pattern_model(p: Pattern) -> PatternModel
    decreases p,
{
    PatternModel { elements: elements_model(p.elements@) }
}

/// The models of elements.
pub open spec fn elements_model(es: Seq<Element>) -> Seq<ElementModel>
    decreases es,
{
    if es.len() == 0 {
        Seq::empty()
    } else {
        elements_model(es.drop_last()).push(element_model(es.last()))
    }
}

/// The models of patterns.
pub open spec fn patterns_model(ps: Seq<Pattern>) -> Seq<PatternModel>
    decreases ps,
{
    if ps.len() == 0 {
        Seq::empty()
    } else {
        patterns_model(ps.drop_last()).push(pattern_model(ps.last()))
    }
}

/// The model of an element.
pub open spec fn element_model(e: Element) -> ElementModel
    decreases e,
{
    match e {
        Element::Literal(c) => ElementModel::Literal(c),
        Element::Wildcard => ElementModel::Wildcard,
        Element::AnyOf(set) => ElementModel::AnyOf(set@),
        Element::Repeat(inner) => ElementModel::Repeat(Box::new(element_model(*inner))),
        Element::Optional(inner) => ElementModel::Optional(Box::new(element_model(*inner))),
        Element::Group(patterns) => ElementModel::Group(patterns_model(patterns@)),
    }
}

/// Whether the element is one that can be written: a group in it, at any
/// depth, has a pattern.
pub open spec fn proper_element(e: ElementModel) -> bool
    decreases e,
{
    match e {
        ElementModel::Repeat(inner) => proper_element(*inner),
        ElementModel::Optional(inner) => proper_element(*inner),
        ElementModel::Group(patterns) => patterns.len() > 0 && forall|i: int|
            0 <= i < patterns.len() ==> proper_elements((#[trigger] patterns[i]).elements),
        _ => true,
    }
}

/// Whether each of the elements is one that can be written.
pub open spec fn proper_elements(es: Seq<ElementModel>) -> bool
    decreases es,
{
    forall|i: int| 0 <= i < es.len() ==> proper_element(#[trigger] es[i])
}

/// Whether `c` is an ASCII letter or digit.
pub open spec fn is_alphanumeric(c: char) -> bool {
    ('0' <= c && c <= '9') || ('A' <= c && c <= 'Z') || ('a' <= c && c <= 'z')
}

/// A literal at `pos`: a backslash and the character after it, which it
/// stands for, or an ASCII letter or digit. The result is the character and
/// the place after the literal.
pub open spec fn literal_at(s: Seq<char>, pos: int) -> Option<(char, int)> {
    if 0 <= pos && pos + 1 < s.len() && s[pos] == '\\' {
        Some((s[pos + 1], pos + 2))
    } else if 0 <= pos < s.len() && is_alphanumeric(s[pos]) {
        Some((s[pos], pos + 1))
    } else {
        None
    }
}

/// The literals from `pos` on, as many as there are, and the place after
/// them.
pub open spec fn literals_at(s: Seq<char>, pos: int) -> (Seq<char>, int)
    decreases s.len() - pos,
{
    match literal_at(s, pos) {
        Some((c, next)) => {
            let (rest, end) = literals_at(s, next);
            (seq![c] + rest, end)
        },
        None => (Seq::empty(), pos),
    }
}

/// A set at `pos`: `[`, one literal or more, `]`.
pub open spec fn set_at(s: Seq<char>, pos: int) -> Option<(Seq<char>, int)> {
    if 0 <= pos < s.len() && s[pos] == '[' {
        let (set, end) = literals_at(s, pos + 1);
        if set.len() > 0 && end < s.len() && s[end] == ']' {
            Some((set, end + 1))
        } else {
            None
        }
    } else {
        None
    }
}

/// A pattern at `pos`: one element or more. The result is the pattern and
/// the place after it.
pub open spec fn pattern_at(s: Seq<char>, pos: int) -> Option<(PatternModel, int)>
    decreases s.len() - pos, 6int,
{
    let (elements, end) = elements_at(s, pos);
    if elements.len() > 0 {
        Some((PatternModel { elements }, end))
    } else {
        None
    }
}

/// The elements from `pos` on, as many as there are, and the place after
/// them.
pub open spec fn elements_at(s: Seq<char>, pos: int) -> (Seq<ElementModel>, int)
    decreases s.len() - pos, 5int,
{
    match element_at(s, pos) {
        Some((e, next)) => if pos < next <= s.len() {
            let (rest, end) = elements_at(s, next);
            (seq![e] + rest, end)
        } else {
            (Seq::empty(), pos)
        },
        None => (Seq::empty(), pos),
    }
}

/// An element at `pos`. A literal, a group or a set with `*` after it is a
/// repetition, with `?` after it an option; else the element is a set, a
/// group, the wildcard `.`, or a literal.
pub open spec fn element_at(s: Seq<char>, pos: int) -> Option<(ElementModel, int)>
    decreases s.len() - pos, 4int,
{
    match modifier_acceptor_at(s, pos) {
        Some((e, next)) => if 0 <= next < s.len() && s[next] == '*' {
            Some((ElementModel::Repeat(Box::new(e)), next + 1))
        } else if 0 <= next < s.len() && s[next] == '?' {
            Some((ElementModel::Optional(Box::new(e)), next + 1))
        } else {
            Some((e, next))
        },
        None => if 0 <= pos < s.len() && s[pos] == '.' {
            Some((ElementModel::Wildcard, pos + 1))
        } else {
            None
        },
    }
}

/// What `*` and `?` apply to, at `pos`: a literal, a group or a set.
pub open spec fn modifier_acceptor_at(s: Seq<char>, pos: int) -> Option<(ElementModel, int)>
    decreases s.len() - pos, 3int,
{
    match literal_at(s, pos) {
        Some((c, next)) => Some((ElementModel::Literal(c), next)),
        None => match group_at(s, pos) {
            Some((patterns, next)) => Some((ElementModel::Group(patterns), next)),
            None => match set_at(s, pos) {
                Some((set, next)) => Some((ElementModel::AnyOf(set), next)),
                None => None,
            },
        },
    }
}

/// A group at `pos`: `(`, one pattern or more with `|` between them, `)`.
pub open spec fn group_at(s: Seq<char>, pos: int) -> Option<(Seq<PatternModel>, int)>
    decreases s.len() - pos, 2int,
{
    if 0 <= pos < s.len() && s[pos] == '(' {
        match pattern_at(s, pos + 1) {
            Some((first, next)) => {
                let (more, end) = alternatives_at(s, next, pos);
                if 0 <= end < s.len() && s[end] == ')' {
                    Some((seq![first] + more, end + 1))
                } else {
                    None
                }
            },
            None => None,
        }
    } else {
        None
    }
}

/// The further patterns of a group that began at `open`, from `pos` on: each
/// `|` with a pattern after it, as many as there are, and the place after
/// them.
pub open spec fn alternatives_at(s: Seq<char>, pos: int, open: int) -> (Seq<PatternModel>, int)
    decreases s.len() - open, 1int, s.len() - pos,
{
    if open < pos && pos < s.len() && s[pos] == '|' {
        match pattern_at(s, pos + 1) {
            Some((p, next)) => if pos < next <= s.len() {
                let (more, end) = alternatives_at(s, next, open);
                (seq![p] + more, end)
            } else {
                (Seq::empty(), pos)
            },
            None => (Seq::empty(), pos),
        }
    } else {
        (Seq::empty(), pos)
    }
}

/// The elements of a pattern that was read are such as can be written.
pub proof fn lemma_pattern_proper(s: Seq<char>, pos: int)
    ensures
        pattern_at(s, pos) matches Some((p, _)) ==> proper_elements(p.elements),
    decreases s.len() - pos, 6int,
{
    lemma_elements_proper(s, pos);
}

proof fn lemma_elements_proper(s: Seq<char>, pos: int)
    ensures
        proper_elements(elements_at(s, pos).0),
    decreases s.len() - pos, 5int,
{
    match element_at(s, pos) {
        Some((e, next)) => {
            if pos < next <= s.len() {
                lemma_element_proper(s, pos);
                lemma_elements_proper(s, next);
                let rest = elements_at(s, next).0;
                let all = seq![e] + rest;
                assert forall|i: int| 0 <= i < all.len() implies proper_element(
                    #[trigger] all[i],
                ) by {
                    if i > 0 {
                        assert(all[i] == rest[i - 1]);
                    }
                }
            }
        },
        None => {},
    }
}

proof fn lemma_element_proper(s: Seq<char>, pos: int)
    ensures
        element_at(s, pos) matches Some((e, _)) ==> proper_element(e),
    decreases s.len() - pos, 4int,
{
    lemma_acceptor_proper(s, pos);
}

proof fn lemma_acceptor_proper(s: Seq<char>, pos: int)
    ensures
        modifier_acceptor_at(s, pos) matches Some((e, _)) ==> proper_element(e),
    decreases s.len() - pos, 3int,
{
    if literal_at(s, pos) is None {
        lemma_group_proper(s, pos);
    }
}

proof fn lemma_group_proper(s: Seq<char>, pos: int)
    ensures
        group_at(s, pos) matches Some((ps, _)) ==> ps.len() > 0 && forall|i: int|
            0 <= i < ps.len() ==> proper_elements((#[trigger] ps[i]).elements),
    decreases s.len() - pos, 2int,
{
    if 0 <= pos < s.len() && s[pos] == '(' {
        match pattern_at(s, pos + 1) {
            Some((first, next)) => {
                lemma_pattern_proper(s, pos + 1);
                lemma_alternatives_proper(s, next, pos);
                let more = alternatives_at(s, next, pos).0;
                let all = seq![first] + more;
                assert forall|i: int| 0 <= i < all.len() implies proper_elements(
                    (#[trigger] all[i]).elements,
                ) by {
                    if i > 0 {
                        assert(all[i] == more[i - 1]);
                    }
                }
            },
            None => {},
        }
    }
}

proof fn lemma_alternatives_proper(s: Seq<char>, pos: int, open: int)
    ensures
        forall|i: int|
            0 <= i < alternatives_at(s, pos, open).0.len() ==> proper_elements(
                (#[trigger] alternatives_at(s, pos, open).0[i]).elements,
            ),
    decreases s.len() - open, 1int, s.len() - pos,
{
    if open < pos && pos < s.len() && s[pos] == '|' {
        match pattern_at(s, pos + 1) {
            Some((p, next)) => {
                if pos < next <= s.len() {
                    lemma_pattern_proper(s, pos + 1);
                    lemma_alternatives_proper(s, next, open);
                    let more = alternatives_at(s, next, open).0;
                    let all = seq![p] + more;
                    assert forall|i: int| 0 <= i < all.len() implies proper_elements(
                        (#[trigger] all[i]).elements,
                    ) by {
                        if i > 0 {
                            assert(all[i] == more[i - 1]);
                        }
                    }
                }
            },
            None => {},
        }
    }
}

/// `nom::character::is_alphanumeric` tells whether a byte is an ASCII letter
/// or digit.
pub assume_specification[ nom::character::is_alphanumeric ](chr: u8) -> (b: bool)
    ensures
        b == ((0x30 <= chr && chr <= 0x39) || (0x41 <= chr && chr <= 0x5A) || (0x61 <= chr && chr
            <= 0x7A)),
;

/// One more element is one more model.
proof fn lemma_elements_push(es: Seq<Element>, e: Element)
    ensures
        elements_model(es.push(e)) == elements_model(es).push(element_model(e)),
{
    assert(es.push(e).drop_last() =~= es);
}

/// One more pattern is one more model.
proof fn lemma_patterns_push(ps: Seq<Pattern>, p: Pattern)
    ensures
        patterns_model(ps.push(p)) == patterns_model(ps).push(pattern_model(p)),
{
    assert(ps.push(p).drop_last() =~= ps);
}

fn get_one_alphanum(c: char) -> (b: bool)
    ensures
        b == is_alphanumeric(c),
{
    (c as u32) < 128 && nom::character::is_alphanumeric(c as u8)
}

fn literal(s: &Vec<char>, pos: usize) -> (r: Option<(char, usize)>)
    ensures
        match r {
            Some((c, next)) => literal_at(s@, pos as int) == Some((c, next as int)) && pos < next
                <= s@.len(),
            None => literal_at(s@, pos as int) is None,
        },
{
    if pos < s.len() && s[pos] == '\\' && pos + 1 < s.len() {
        Some((s[pos + 1], pos + 2))
    } else if pos < s.len() && get_one_alphanum(s[pos]) {
        Some((s[pos], pos + 1))
    } else {
        None
    }
}

fn literals(s: &Vec<char>, pos: usize) -> (r: (Vec<char>, usize))
    requires
        pos <= s@.len(),
    ensures
        literals_at(s@, pos as int) == (r.0@, r.1 as int),
        pos <= r.1 <= s@.len(),
{
    let mut out: Vec<char> = Vec::new();
    let mut at: usize = pos;
    loop
        invariant_except_break
            pos <= at <= s@.len(),
            literals_at(s@, pos as int).0 == out@ + literals_at(s@, at as int).0,
            literals_at(s@, pos as int).1 == literals_at(s@, at as int).1,
        ensures
            pos <= at <= s@.len(),
            literals_at(s@, pos as int) == (out@, at as int),
        decreases s@.len() - at,
    {
        match literal(s, at) {
            Some((c, next)) => {
                proof {
                    let rest = literals_at(s@, next as int).0;
                    assert(out@.push(c) + rest =~= out@ + (seq![c] + rest));
                }
                out.push(c);
                at = next;
            },
            None => {
                proof {
                    assert(out@ + Seq::<char>::empty() =~= out@);
                }
                break;
            },
        }
    }
    (out, at)
}

fn set(s: &Vec<char>, pos: usize) -> (r: Option<(Vec<char>, usize)>)
    ensures
        match r {
            Some((set, next)) => set_at(s@, pos as int) == Some((set@, next as int)) && pos < next
                <= s@.len(),
            None => set_at(s@, pos as int) is None,
        },
{
    if pos < s.len() && s[pos] == '[' {
        let (set, end) = literals(s, pos + 1);
        if set.len() > 0 && end < s.len() && s[end] == ']' {
            Some((set, end + 1))
        } else {
            None
        }
    } else {
        None
    }
}

#[verifier::rlimit(40)]
fn pattern_from(s: &Vec<char>, pos: usize) -> (r: Option<(Pattern, usize)>)
    requires
        pos <= s@.len(),
    ensures
        match r {
            Some((p, next)) => pattern_at(s@, pos as int) == Some(
                (pattern_model(p), next as int),
            ) && pos < next <= s@.len(),
            None => pattern_at(s@, pos as int) is None,
        },
    decreases s@.len() - pos, 6int,
{
    let mut elements: Vec<Element> = Vec::new();
    let mut at: usize = pos;
    loop
        invariant_except_break
            pos <= at <= s@.len(),
            elements@.len() > 0 ==> pos < at,
            elements_at(s@, pos as int).0 == elements_model(elements@) + elements_at(
                s@,
                at as int,
            ).0,
            elements_at(s@, pos as int).1 == elements_at(s@, at as int).1,
        ensures
            pos <= at <= s@.len(),
            elements@.len() > 0 ==> pos < at,
            elements_at(s@, pos as int) == (elements_model(elements@), at as int),
        decreases s@.len() - at,
    {
        match element(s, at) {
            Some((e, next)) => {
                proof {
                    let rest = elements_at(s@, next as int).0;
                    lemma_elements_push(elements@, e);
                    assert(elements_model(elements@).push(element_model(e)) + rest
                        =~= elements_model(elements@) + (seq![element_model(e)] + rest));
                }
                elements.push(e);
                at = next;
            },
            None => {
                proof {
                    assert(elements_model(elements@) + Seq::<ElementModel>::empty()
                        =~= elements_model(elements@));
                }
                break;
            },
        }
    }
    proof {
        lemma_elements_len(elements@);
    }
    if elements.len() > 0 {
        Some((Pattern { elements }, at))
    } else {
        None
    }
}

/// There are as many models as elements.
pub proof fn lemma_elements_len(es: Seq<Element>)
    ensures
        elements_model(es).len() == es.len(),
    decreases es.len(),
{
    if es.len() > 0 {
        lemma_elements_len(es.drop_last());
    }
}

/// The models of elements are the models of each.
pub proof fn lemma_elements_index(es: Seq<Element>, i: int)
    requires
        0 <= i < es.len(),
    ensures
        elements_model(es).len() == es.len(),
        elements_model(es)[i] == element_model(es[i]),
    decreases es.len(),
{
    lemma_elements_len(es);
    lemma_elements_len(es.drop_last());
    if i < es.len() - 1 {
        lemma_elements_index(es.drop_last(), i);
    }
}

/// The models of patterns are the models of each.
pub proof fn lemma_patterns_index(ps: Seq<Pattern>, i: int)
    requires
        0 <= i < ps.len(),
    ensures
        patterns_model(ps).len() == ps.len(),
        patterns_model(ps)[i] == pattern_model(ps[i]),
    decreases ps.len(),
{
    lemma_patterns_len(ps);
    lemma_patterns_len(ps.drop_last());
    if i < ps.len() - 1 {
        lemma_patterns_index(ps.drop_last(), i);
    }
}

/// There are as many models as patterns.
pub proof fn lemma_patterns_len(ps: Seq<Pattern>)
    ensures
        patterns_model(ps).len() == ps.len(),
    decreases ps.len(),
{
    if ps.len() > 0 {
        lemma_patterns_len(ps.drop_last());
    }
}

fn element(s: &Vec<char>, pos: usize) -> (r: Option<(Element, usize)>)
    requires
        pos <= s@.len(),
    ensures
        match r {
            Some((e, next)) => element_at(s@, pos as int) == Some(
                (element_model(e), next as int),
            ) && pos < next <= s@.len(),
            None => element_at(s@, pos as int) is None,
        },
    decreases s@.len() - pos, 4int,
{
    match modifier_acceptor(s, pos) {
        Some((e, next)) => {
            if next < s.len() && s[next] == '*' {
                Some((Element::Repeat(Box::new(e)), next + 1))
            } else if next < s.len() && s[next] == '?' {
                Some((Element::Optional(Box::new(e)), next + 1))
            } else {
                Some((e, next))
            }
        },
        None => {
            if pos < s.len() && s[pos] == '.' {
                Some((Element::Wildcard, pos + 1))
            } else {
                None
            }
        },
    }
}

fn modifier_acceptor(s: &Vec<char>, pos: usize) -> (r: Option<(Element, usize)>)
    requires
        pos <= s@.len(),
    ensures
        match r {
            Some((e, next)) => modifier_acceptor_at(s@, pos as int) == Some(
                (element_model(e), next as int),
            ) && pos < next <= s@.len(),
            None => modifier_acceptor_at(s@, pos as int) is None,
        },
    decreases s@.len() - pos, 3int,
{
    match literal(s, pos) {
        Some((c, next)) => {
            let e = Element::Literal(c);
            proof {
                lemma_literal_model(c);
            }
            Some((e, next))
        },
        None => match group(s, pos) {
            Some((patterns, next)) => {
                let e = Element::Group(patterns);
                assert(element_model(e) == ElementModel::Group(patterns_model(patterns@)));
                Some((e, next))
            },
            None => match set(s, pos) {
                Some((set, next)) => {
                    let e = Element::AnyOf(set);
                    assert(element_model(e) == ElementModel::AnyOf(set@));
                    Some((e, next))
                },
                None => None,
            },
        },
    }
}

#[verifier::rlimit(40)]
fn group(s: &Vec<char>, pos: usize) -> (r: Option<(Vec<Pattern>, usize)>)
    requires
        pos <= s@.len(),
    ensures
        match r {
            Some((patterns, next)) => group_at(s@, pos as int) == Some(
                (patterns_model(patterns@), next as int),
            ) && pos < next <= s@.len(),
            None => group_at(s@, pos as int) is None,
        },
    decreases s@.len() - pos, 2int,
{
    if !(pos < s.len() && s[pos] == '(') {
        return None;
    }
    let (first, next) = match pattern_from(s, pos + 1) {
        Some(found) => found,
        None => {
            return None;
        },
    };
    let mut patterns: Vec<Pattern> = Vec::new();
    let ghost first_model = pattern_model(first);
    patterns.push(first);
    proof {
        lemma_patterns_push(Seq::<Pattern>::empty(), first);
        assert(patterns@ =~= Seq::<Pattern>::empty().push(first));
        assert(patterns_model(patterns@) =~= seq![first_model]);
    }
    let mut at: usize = next;
    loop
        invariant_except_break
            pos < at <= s@.len(),
            seq![first_model] + alternatives_at(s@, next as int, pos as int).0 == patterns_model(
                patterns@,
            ) + alternatives_at(s@, at as int, pos as int).0,
            alternatives_at(s@, next as int, pos as int).1 == alternatives_at(
                s@,
                at as int,
                pos as int,
            ).1,
        ensures
            pos < at <= s@.len(),
            seq![first_model] + alternatives_at(s@, next as int, pos as int).0 == patterns_model(
                patterns@,
            ),
            alternatives_at(s@, next as int, pos as int).1 == at,
        decreases s@.len() - at,
    {
        if !(at < s.len() && s[at] == '|') {
            proof {
                assert(patterns_model(patterns@) + Seq::<PatternModel>::empty() =~= patterns_model(
                    patterns@,
                ));
            }
            break;
        }
        match pattern_from(s, at + 1) {
            Some((p, after)) => {
                proof {
                    let rest = alternatives_at(s@, after as int, pos as int).0;
                    lemma_patterns_push(patterns@, p);
                    assert(patterns_model(patterns@).push(pattern_model(p)) + rest
                        =~= patterns_model(patterns@) + (seq![pattern_model(p)] + rest));
                }
                patterns.push(p);
                at = after;
            },
            None => {
                proof {
                    assert(patterns_model(patterns@) + Seq::<PatternModel>::empty()
                        =~= patterns_model(patterns@));
                }
                break;
            },
        }
    }
    if at < s.len() && s[at] == ')' {
        Some((patterns, at + 1))
    } else {
        None
    }
}

/// Reads a pattern from the front of `input`, as far as it goes. The result
/// is what is left of `input`, and the pattern; or, where `input` does not
/// begin with an element, the error.
pub fn pattern(input: &str) -> (r: Result<(&str, Pattern), RegexError>)
    ensures
        match r {
            Ok((rest, p)) => match pattern_at(input@, 0) {
                Some((model, end)) => {
                    &&& model == pattern_model(p)
                    &&& 0 < end <= input@.len()
                    &&& rest@ == input@.skip(end)
                },
                None => false,
            },
            Err(e) => pattern_at(input@, 0) is None && e.position == 0,
        },
{
    let chars = chars_of(input);
    match pattern_from(&chars, 0) {
        Some((p, end)) => {
            let rest = input.substring_char(end, chars.len());
            proof {
                assert(input@.subrange(end as int, chars@.len() as int) =~= input@.skip(end as int));
            }
            Ok((rest, p))
        },
        None => Err(RegexError { position: 0 }),
    }
}

/// Whether `input` is a regular expression: a pattern from its first
/// character to its last.
pub open spec fn is_regex(input: Seq<char>) -> bool {
    match pattern_at(input, 0) {
        Some((_, end)) => end == input.len(),
        None => false,
    }
}

/// Reads `input` as a pattern: all of it.
pub fn whole_pattern(input: &str) -> (r: Result<Pattern, RegexError>)
    ensures
        match r {
            Ok(p) => pattern_at(input@, 0) == Some((pattern_model(p), input@.len() as int)),
            Err(e) => match pattern_at(input@, 0) {
                Some((_, end)) => end != input@.len() && e.position == end,
                None => e.position == 0,
            },
        },
{
    let chars = chars_of(input);
    match pattern_from(&chars, 0) {
        Some((p, end)) => {
            if end == chars.len() {
                Ok(p)
            } else {
                Err(RegexError { position: end })
            }
        },
        None => Err(RegexError { position: 0 }),
    }
}

/// The model of a literal.
proof fn lemma_literal_model(c: char)
    ensures
        element_model(Element::Literal(c)) == ElementModel::Literal(c),
{
}

} // verus!
