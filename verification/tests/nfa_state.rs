use std::collections::HashSet;

use puzzle_tools::regex::nfa::graph::NfaGraph;
use puzzle_tools::regex::nfa::state::NfaStateKind::{Accept, AnyOf, Dummy, Literal, Start, Wildcard};
use puzzle_tools::regex::nfa::state::NfaStatePtr;

#[test]
fn test_non_dummy_successors_without_dummy() {
    let mut nfa = NfaGraph::new();
    let state1 = nfa.strong_ptr(Start);
    let state2 = nfa.strong_ptr(Literal('a'));
    let state3 = nfa.strong_ptr(Literal('b'));
    let state4 = nfa.strong_ptr(Accept);

    nfa.add_successor(&state1, &state2);
    nfa.add_successor(&state2, &state3);
    nfa.add_successor(&state3, &state4);

    assert_eq!(nfa.non_dummy_successors(&state1.clone()), vec![state2.clone()]);
    assert_eq!(nfa.non_dummy_successors(&state2.clone()), vec![state3.clone()]);
    assert_eq!(nfa.non_dummy_successors(&state3.clone()), vec![state4.clone()]);
    assert_eq!(nfa.non_dummy_successors(&state4.clone()), vec![]);
}

#[test]
fn test_non_dummy_successors_linear_dummy() {
    let mut nfa = NfaGraph::new();
    let state1 = nfa.strong_ptr(Start);
    let state2 = nfa.strong_ptr(Literal('a'));
    let state3 = nfa.strong_ptr(Dummy);
    let state4 = nfa.strong_ptr(Accept);

    nfa.add_successor(&state1, &state2);
    nfa.add_successor(&state2, &state3);
    nfa.add_successor(&state3, &state4);

    assert_eq!(nfa.non_dummy_successors(&state1.clone()), vec![state2.clone()]);
    assert_eq!(nfa.non_dummy_successors(&state2.clone()), vec![state4.clone()]);
    assert_eq!(nfa.non_dummy_successors(&state4.clone()), vec![]);
}

#[test]
fn test_non_dummy_successors_loop_dummy() {
    let mut nfa = NfaGraph::new();
    let state0 = nfa.strong_ptr(Start);
    let state1 = nfa.strong_ptr(Literal('a'));
    let state2 = nfa.strong_ptr(Dummy);
    let state3 = nfa.strong_ptr(Dummy);
    let state4 = nfa.strong_ptr(Accept);

    nfa.add_successor(&state0, &state1);
    nfa.add_successor(&state1, &state2);
    nfa.add_successor(&state2, &state3);
    nfa.add_successor(&state3, &state4);

    nfa.add_weak_successor(&state3, &state2);

    assert_eq!(nfa.get_successors(&state0.clone()), vec![state1.clone()]);
    assert_eq!(nfa.non_dummy_successors(&state0.clone()), vec![state1.clone()]);
    assert_eq!(nfa.non_dummy_successors(&state1.clone()), vec![state4.clone()]);
    assert_eq!(nfa.non_dummy_successors(&state4.clone()), vec![]);
}

#[test]
fn test_non_dummy_successors_forking_dummy() {
    let mut nfa = NfaGraph::new();
    let state1 = nfa.strong_ptr(Start);
    let state2 = nfa.strong_ptr(Dummy);
    let state3 = nfa.strong_ptr(Literal('a'));
    let state4 = nfa.strong_ptr(Literal('b'));
    let state5 = nfa.strong_ptr(Dummy);
    let state6 = nfa.strong_ptr(Accept);

    nfa.add_successor(&state1, &state2);
    nfa.add_successor(&state2, &state3);
    nfa.add_successor(&state2, &state4);
    nfa.add_successor(&state3, &state5);
    nfa.add_successor(&state4, &state5);
    nfa.add_successor(&state5, &state6);

    assert_eq!(
        nfa.non_dummy_successors(&state1.clone()).iter().collect::<HashSet<_>>(),
        vec![state3.clone(), state4.clone()].iter().collect::<HashSet<_>>()
    );
    assert_eq!(nfa.non_dummy_successors(&state3.clone()), vec![state6.clone()]);
    assert_eq!(nfa.non_dummy_successors(&state3.clone()), vec![state6.clone()]);
}

#[test]
fn test_non_dummy_successors_backward_edge() {
    let mut nfa = NfaGraph::new();
    let state1 = nfa.strong_ptr(Start);
    let state2 = nfa.strong_ptr(Dummy);
    let state3 = nfa.strong_ptr(Literal('a'));
    let state4 = nfa.strong_ptr(Literal('b'));
    let state5 = nfa.strong_ptr(Dummy);
    let state6 = nfa.strong_ptr(Accept);

    nfa.add_successor(&state1, &state2);
    nfa.add_successor(&state2, &state3);
    nfa.add_successor(&state3, &state4);
    nfa.add_successor(&state4, &state5);
    nfa.add_successor(&state5, &state6);

    nfa.add_weak_successor(&state4, &state2);

    assert_eq!(nfa.non_dummy_successors(&state1.clone()), vec![state3.clone()]);
    assert_eq!(nfa.non_dummy_successors(&state3.clone()), vec![state4.clone()]);
    assert_eq!(
        nfa.non_dummy_successors(&state4.clone()).iter().collect::<HashSet<_>>(),
        vec![state3.clone(), state6.clone()].iter().collect::<HashSet<_>>()
    );
}

#[test]
fn closure_marks_what_only_a_back_edge_reaches_as_weak() {
    let mut nfa = NfaGraph::new();
    let start = nfa.strong_ptr(Start);
    let hub = nfa.strong_ptr(Dummy);
    let a = nfa.strong_ptr(Literal('a'));
    let b = nfa.strong_ptr(Literal('b'));
    let end = nfa.strong_ptr(Accept);
    nfa.add_successor(&start, &hub);
    nfa.add_successor(&hub, &a);
    nfa.add_successor(&a, &b);
    nfa.add_successor(&b, &end);
    nfa.add_weak_successor(&b, &hub);

    let found = nfa.non_dummy_successors(&b);
    let kinds: Vec<(u64, bool)> = found.iter().map(|p| (p.get_id(), p.is_strong())).collect();
    assert_eq!(kinds, vec![(end.get_id(), true), (a.get_id(), false)]);
    assert!(matches!(found[1], NfaStatePtr::Weak(..)));
}

#[test]
fn references_of_one_state_are_equal_whatever_their_kind() {
    let mut nfa = NfaGraph::new();
    let a = nfa.strong_ptr(Literal('a'));
    let b = nfa.strong_ptr(Literal('a'));
    assert_eq!(a, a.to_weak());
    assert_eq!(a.weak_clone(), a.to_strong());
    assert_ne!(a, b);
    assert!(a.is_strong() && !a.is_weak());
    assert!(a.to_weak().is_weak());
    assert_eq!(a.to_weak().get_id(), a.get_id());
    assert_eq!(a.index(), 0);
    assert_eq!(b.get_id(), 1);
    let mut seen = HashSet::new();
    seen.insert(a.clone());
    assert!(seen.contains(&a.to_weak()));
    assert!(!seen.contains(&b));
    assert_eq!(a.duplicate(), a);
}

#[test]
fn set_successors_replaces_the_edges() {
    let mut nfa = NfaGraph::new();
    let a = nfa.strong_ptr(Start);
    let b = nfa.strong_ptr(Literal('b'));
    let c = nfa.strong_ptr(Literal('c'));
    nfa.add_successor(&a, &b);
    nfa.set_successors(&a, vec![c.clone(), b.to_weak()]);
    let edges = nfa.get_successors(&a);
    assert_eq!(edges, vec![c.clone(), b.clone()]);
    assert!(edges[0].is_strong());
    assert!(edges[1].is_weak());
    assert_eq!(nfa.non_dummy_successors_strong(&a), vec![2]);
    assert_eq!(nfa.non_dummy_successors_all(&a), vec![2, 1]);
    assert_eq!(nfa.closure_ids(0, false), vec![2, 1]);
    assert_eq!(nfa.len(), 3);
}

#[test]
fn an_edge_to_a_state_elsewhere_is_dead() {
    let mut other = NfaGraph::new();
    let _x = other.strong_ptr(Start);
    let _y = other.strong_ptr(Dummy);
    let far = other.strong_ptr(Accept);
    let mut nfa = NfaGraph::new();
    let a = nfa.strong_ptr(Start);
    nfa.add_successor(&a, &far);
    assert!(nfa.non_dummy_successors(&a).is_empty());
}

#[test]
fn kinds_let_characters_pass() {
    assert!(Literal('a').accepts('a'));
    assert!(!Literal('a').accepts('b'));
    assert!(AnyOf(vec!['x', 'y']).accepts('y'));
    assert!(!AnyOf(vec!['x', 'y']).accepts('z'));
    assert!(!AnyOf(vec![]).accepts('z'));
    assert!(Wildcard.accepts('%'));
    assert!(Start.accepts('a') && Accept.accepts('a') && Dummy.accepts('a'));
    assert!(AnyOf(vec!['x']).same(&AnyOf(vec!['x'])));
    assert!(!AnyOf(vec!['x']).same(&AnyOf(vec!['x', 'x'])));
    assert!(!Literal('a').same(&Wildcard));
    assert!(Dummy.duplicate().same(&Dummy));
}
