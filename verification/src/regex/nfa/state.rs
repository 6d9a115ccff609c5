//! The states of an automaton, held in an arena and named by their place in
//! it, and the closure that skips the states without a character.

use vstd::prelude::*;
use std::hash::{Hash, Hasher};
use crate::text::{has_char, same_chars};

verus! {

/// What a state stands for.
#[derive(Debug, Clone, PartialEq, Eq, Hash)]
pub enum NfaStateKind {
    /// This character.
    Literal(char),
    /// Any one of these characters.
    AnyOf(Vec<char>),
    /// Any character.
    Wildcard,
    /// The start of the automaton.
    Start,
    /// The end of the automaton.
    Accept,
    /// No character: the state is passed through.
    Dummy,
}

/// A reference to a state: its id, which is its place in the arena, and a
/// copy of its kind. A strong reference is a forward edge of the automaton, a
/// weak one an edge back into a loop. Two references are equal where their
/// ids are.
#[derive(Debug, Clone)]
pub enum NfaStatePtr {
    /// A forward edge.
    Strong(usize, NfaStateKind),
    /// An edge back.
    Weak(usize, NfaStateKind),
}

/// A state: its kind and its edges.
#[derive(Debug)]
pub struct NfaState {
    /// What the state stands for.
    pub kind: NfaStateKind,
    /// The edges out of the state.
    pub successors: Vec<NfaStatePtr>,
}

/// Whether two kinds are the same.
pub open spec fn same_kind(a: NfaStateKind, b: NfaStateKind) -> bool {
    match (a, b) {
        (NfaStateKind::Literal(x), NfaStateKind::Literal(y)) => x == y,
        (NfaStateKind::AnyOf(x), NfaStateKind::AnyOf(y)) => x@ == y@,
        (NfaStateKind::Wildcard, NfaStateKind::Wildcard) => true,
        (NfaStateKind::Start, NfaStateKind::Start) => true,
        (NfaStateKind::Accept, NfaStateKind::Accept) => true,
        (NfaStateKind::Dummy, NfaStateKind::Dummy) => true,
        _ => false,
    }
}

/// Whether a state of this kind lets the character `c` pass. A state
/// without a character lets every character pass.
pub open spec fn kind_accepts(kind: NfaStateKind, c: char) -> bool {
    match kind {
        NfaStateKind::Literal(x) => x == c,
        NfaStateKind::AnyOf(set) => set@.contains(c),
        _ => true,
    }
}

impl NfaStateKind {
    /// A copy of the kind.
    pub fn duplicate(&self) -> (copy: NfaStateKind)
        ensures
            same_kind(copy, *self),
            copy is Dummy == self is Dummy,
            copy is Accept == self is Accept,
    {
        match self {
            NfaStateKind::Literal(c) => NfaStateKind::Literal(*c),
            NfaStateKind::AnyOf(set) => NfaStateKind::AnyOf(set.clone()),
            NfaStateKind::Wildcard => NfaStateKind::Wildcard,
            NfaStateKind::Start => NfaStateKind::Start,
            NfaStateKind::Accept => NfaStateKind::Accept,
            NfaStateKind::Dummy => NfaStateKind::Dummy,
        }
    }

    /// Whether the two kinds are the same.
    pub fn same(&self, other: &NfaStateKind) -> (same: bool)
        ensures
            same == same_kind(*self, *other),
    {
        match (self, other) {
            (NfaStateKind::Literal(x), NfaStateKind::Literal(y)) => *x == *y,
            (NfaStateKind::AnyOf(x), NfaStateKind::AnyOf(y)) => same_chars(x, y),
            (NfaStateKind::Wildcard, NfaStateKind::Wildcard) => true,
            (NfaStateKind::Start, NfaStateKind::Start) => true,
            (NfaStateKind::Accept, NfaStateKind::Accept) => true,
            (NfaStateKind::Dummy, NfaStateKind::Dummy) => true,
            _ => false,
        }
    }

    /// Whether a state of this kind lets the character `next_char` pass.
    pub fn accepts(&self, next_char: char) -> (pass: bool)
        ensures
            pass == kind_accepts(*self, next_char),
    {
        match self {
            NfaStateKind::Literal(c) => *c == next_char,
            NfaStateKind::AnyOf(set) => has_char(set, next_char),
            _ => true,
        }
    }
}

impl NfaStatePtr {
    /// The id of the state referred to.
    pub open spec fn id(&self) -> usize {
        match self {
            NfaStatePtr::Strong(id, _) => *id,
            NfaStatePtr::Weak(id, _) => *id,
        }
    }

    /// The kind of the state referred to.
    pub open spec fn kind(&self) -> NfaStateKind {
        match self {
            NfaStatePtr::Strong(_, kind) => *kind,
            NfaStatePtr::Weak(_, kind) => *kind,
        }
    }

    /// The id of the state referred to.
    pub fn get_id(&self) -> (id: u64)
        ensures
            id == self.id(),
    {
        match self {
            NfaStatePtr::Strong(id, _) => *id as u64,
            NfaStatePtr::Weak(id, _) => *id as u64,
        }
    }

    /// The place of the state referred to in its arena.
    pub fn index(&self) -> (id: usize)
        ensures
            id == self.id(),
    {
        match self {
            NfaStatePtr::Strong(id, _) => *id,
            NfaStatePtr::Weak(id, _) => *id,
        }
    }

    /// The kind of the state referred to.
    pub fn get_kind(&self) -> (kind: NfaStateKind)
        ensures
            same_kind(kind, self.kind()),
    {
        match self {
            NfaStatePtr::Strong(_, kind) => kind.duplicate(),
            NfaStatePtr::Weak(_, kind) => kind.duplicate(),
        }
    }

    /// Whether the state referred to is of kind `kind`.
    pub fn kind_is(&self, kind: &NfaStateKind) -> (same: bool)
        ensures
            same == same_kind(self.kind(), *kind),
    {
        match self {
            NfaStatePtr::Strong(_, own) => own.same(kind),
            NfaStatePtr::Weak(_, own) => own.same(kind),
        }
    }

    /// Whether the reference is a forward edge.
    pub fn is_strong(&self) -> (strong: bool)
        ensures
            strong == self is Strong,
    {
        match self {
            NfaStatePtr::Strong(..) => true,
            NfaStatePtr::Weak(..) => false,
        }
    }

    /// Whether the reference is an edge back.
    pub fn is_weak(&self) -> (weak: bool)
        ensures
            weak == self is Weak,
    {
        match self {
            NfaStatePtr::Strong(..) => false,
            NfaStatePtr::Weak(..) => true,
        }
    }

    /// A copy of the reference.
    pub fn duplicate(&self) -> (copy: NfaStatePtr)
        ensures
            copy.id() == self.id(),
            same_kind(copy.kind(), self.kind()),
            copy is Strong == self is Strong,
    {
        match self {
            NfaStatePtr::Strong(id, kind) => NfaStatePtr::Strong(*id, kind.duplicate()),
            NfaStatePtr::Weak(id, kind) => NfaStatePtr::Weak(*id, kind.duplicate()),
        }
    }

    /// The reference to the same state as an edge back.
    pub fn weak_clone(&self) -> (copy: NfaStatePtr)
        ensures
            copy.id() == self.id(),
            same_kind(copy.kind(), self.kind()),
            copy is Weak,
    {
        match self {
            NfaStatePtr::Strong(id, kind) => NfaStatePtr::Weak(*id, kind.duplicate()),
            NfaStatePtr::Weak(id, kind) => NfaStatePtr::Weak(*id, kind.duplicate()),
        }
    }

    /// The reference to the same state as a forward edge.
    pub fn to_strong(&self) -> (copy: NfaStatePtr)
        ensures
            copy.id() == self.id(),
            same_kind(copy.kind(), self.kind()),
            copy is Strong,
    {
        match self {
            NfaStatePtr::Strong(id, kind) => NfaStatePtr::Strong(*id, kind.duplicate()),
            NfaStatePtr::Weak(id, kind) => NfaStatePtr::Strong(*id, kind.duplicate()),
        }
    }

    /// The reference to the same state as an edge back.
    pub fn to_weak(&self) -> (copy: NfaStatePtr)
        ensures
            copy.id() == self.id(),
            same_kind(copy.kind(), self.kind()),
            copy is Weak,
    {
        self.weak_clone()
    }
}

impl PartialEq for NfaStatePtr {
    fn eq(&self, other: &Self) -> (same: bool) {
        self.index() == other.index()
    }
}

impl vstd::std_specs::cmp::PartialEqSpecImpl for NfaStatePtr {
    open spec fn obeys_eq_spec() -> bool {
        true
    }

    open spec fn eq_spec(&self, other: &Self) -> bool {
        self.id() == other.id()
    }
}

impl Eq for NfaStatePtr {

}

/// `Hash::hash` of std, on the id of a state.
#[verifier::external_body]
fn hash_id<H: Hasher>(id: usize, state: &mut H) {
    id.hash(state);
}

impl Hash for NfaStatePtr {
    fn hash<H: Hasher>(&self, state: &mut H) {
        hash_id(self.index(), state);
    }
}

} // verus!
