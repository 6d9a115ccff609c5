use puzzle_tools::regex::nfa::graph::NfaGraph;
use puzzle_tools::regex::nfa::run::RegexCursor;
use puzzle_tools::regex::nfa::state::{NfaStateKind, NfaStatePtr};
use puzzle_tools::regex::parse::whole_pattern;
use puzzle_tools::wordlist::trie::cursor::{AnagramCursor, StateT};
use puzzle_tools::wordlist::trie::iterators::TrieCursor;
use puzzle_tools::wordlist::trie::multithreaded_search::{
    compose, expand_item, root_item, root_score, score, OrderedTrieNode, SearchState,
};
use puzzle_tools::wordlist::trie::searchconfig::SearchConfig;
use puzzle_tools::wordlist::trie::trie::{build_next_child, ImmutableTrie, Trie};

fn seeded() -> (Trie, ImmutableTrie) {
    let mut trie = Trie::new();
    trie.add_with_freq("CAT", 5);
    trie.add_with_freq("CAR", 2);
    trie.add_with_freq("CART", 9);
    trie.add_with_freq("DO", 1);
    let mut immut = ImmutableTrie::new();
    trie.build(&mut immut);
    (trie, immut)
}

#[test]
fn the_default_options() {
    let config = SearchConfig::new();
    assert_eq!(config.max_results, None);
    assert_eq!(config.max_length, None);
    assert_eq!(config.space_penalty, None);
    assert_eq!(config.spaces_allowed, 0);
    assert_eq!(config.min_word_len, 3);
    assert_eq!(config.prune_freq, 0);
}

#[test]
fn the_score_is_letters_times_weight_less_the_penalty() {
    let mut state = SearchState::new();
    assert_eq!(score(17, &state), 0);
    state.total_len = 3;
    state.prev_penalty = 10;
    assert_eq!(score(17, &state), 3 * 17 - 10);
    assert_eq!(root_score(17, &state, 50), 3 * 17 - 10 - 50);
    state.prev_penalty = -4;
    assert_eq!(score(2, &state), 10);
}

#[test]
fn the_score_stops_at_the_bounds() {
    let mut state = SearchState::new();
    state.total_len = u32::MAX;
    assert_eq!(score(u64::MAX, &state), i64::MAX);
    state.total_len = 0;
    state.prev_penalty = i64::MAX;
    assert_eq!(score(1, &state), -i64::MAX);
    assert_eq!(root_score(1, &state, i64::MAX), i64::MIN);
    state.prev_penalty = i64::MIN;
    assert_eq!(score(0, &state), i64::MAX);
}

#[test]
fn a_letter_more_and_a_word_more() {
    let mut config = SearchConfig::new();
    config.space_penalty = Some(50);
    let state = SearchState::new();
    let one = state.same_word();
    assert_eq!(one.current_word_len, 1);
    assert_eq!(one.total_len, 1);
    assert_eq!(one.num_spaces, 0);
    assert_eq!(one.prev_penalty, 0);
    let next = one.same_word().new_word(7, 20, &config);
    assert_eq!(next.num_spaces, 1);
    assert_eq!(next.current_word_len, 0);
    assert_eq!(next.total_len, 2);
    assert_eq!(next.prev_words, vec![7]);
    assert_eq!(next.prev_penalty, 50 - 20);
    let again = next.new_word(9, 100, &config);
    assert_eq!(again.prev_penalty, 30 + 50 - 100);
    assert_eq!(again.prev_words, vec![7, 9]);
    let mut long = SearchState::new();
    long.total_len = u32::MAX;
    assert_eq!(long.same_word().total_len, u32::MAX);
    let ordered = OrderedTrieNode::order(3, -8);
    assert_eq!((ordered.node, ordered.val), (3, -8));
}

#[test]
fn weights_are_the_frequencies_below() {
    let (_trie, immut) = seeded();
    let nodes = immut.arena();
    // the root, C, CA carry all of CAT, CAR and CART
    assert_eq!(nodes[0].weight, 17);
    for node in nodes.iter() {
        let below: u64 = node.children.iter().flatten().map(|c| nodes[*c].weight).sum();
        assert_eq!(node.weight, node.freq + below);
        assert_eq!(node.path.chars().count() as u32, node.depth);
        for (slot, child) in node.children.iter().enumerate() {
            if let Some(child) = child {
                assert_eq!(nodes[*child].parent, nodes.iter().position(|n| n.path == node.path).unwrap());
                assert_eq!(nodes[*child].letter as u8, b'A' + slot as u8);
            }
        }
    }
    let car = nodes.iter().find(|n| n.path == "CAR").unwrap();
    assert_eq!((car.freq, car.weight, car.is_terminal), (2, 11, true));
    let ca = nodes.iter().find(|n| n.path == "CA").unwrap();
    assert_eq!((ca.freq, ca.weight, ca.is_terminal), (0, 16, false));
}

#[test]
fn the_table_names_the_next_child() {
    let mut children = [None; 27];
    children[2] = Some(5);
    children[3] = Some(6);
    children[26] = Some(7);
    let table = build_next_child(&children);
    assert_eq!(table[0], Some(2));
    assert_eq!(table[1], Some(2));
    assert_eq!(table[2], Some(3));
    assert_eq!(table[3], Some(26));
    assert_eq!(table[25], Some(26));
    assert_eq!(table[26], None);
    assert_eq!(build_next_child(&[None; 27]), [None; 27]);
}

#[test]
fn the_cursor_yields_the_children_in_slot_order() {
    let (_trie, immut) = seeded();
    let nodes = immut.arena();
    let root = &nodes[0];
    let kids = root.present_children();
    let letters: Vec<char> = kids.iter().map(|c| nodes[*c].letter).collect();
    assert_eq!(letters, vec!['C', 'D']);
    let mut cursor = TrieCursor::new(root);
    assert_eq!(cursor.next(), Some(kids[0]));
    assert_eq!(cursor.next(), Some(kids[1]));
    assert_eq!(cursor.next(), None);
    assert_eq!(cursor.next(), None);
    let car = nodes.iter().find(|n| n.path == "CAR").unwrap();
    let below: Vec<char> = car.present_children().iter().map(|c| nodes[*c].letter).collect();
    assert_eq!(below, vec!['T']);
    let leaf = nodes.iter().find(|n| n.path == "CAT").unwrap();
    assert!(leaf.present_children().is_empty());
    let copy = leaf.duplicate();
    assert_eq!((copy.path.as_str(), copy.freq, copy.depth), ("CAT", 5, 3));
}

#[test]
fn get_node_walks_the_path() {
    let (trie, _immut) = seeded();
    let nodes = trie.arena();
    assert_eq!(trie.get_node(""), Some(0));
    let ca = trie.get_node("CA").unwrap();
    assert_eq!(nodes[ca].path, "CA");
    assert_eq!(trie.get_node("CB"), None);
    assert_eq!(trie.get_node("ca"), None);
}

#[test]
fn one_step_of_a_search() {
    let (_trie, immut) = seeded();
    let nodes = immut.arena();
    let mut config = SearchConfig::new();
    config.min_word_len = 0;
    let root = root_item(AnagramCursor::get_counts("OD"));
    assert_eq!((root.0.node, root.0.val), (0, 0));
    let (result, successors) = expand_item(nodes, &config, &root);
    assert_eq!(result, None);
    // only D goes on: the query has no C
    assert_eq!(successors.len(), 1);
    let d = &successors[0];
    assert_eq!(nodes[d.0.node].path, "D");
    assert_eq!(d.1.current_word_len, 1);
    assert_eq!(d.0.val, 0);
    let (result, successors) = expand_item(nodes, &config, d);
    assert_eq!(result, None);
    assert_eq!(successors.len(), 1);
    let done = &successors[0];
    // the score: one letter so far times the weight of the node
    assert_eq!(done.0.val, 1);
    let (result, successors) = expand_item(nodes, &config, done);
    assert_eq!(result, Some("DO".to_string()));
    assert!(successors.is_empty());
    config.space_penalty = Some(3);
    config.spaces_allowed = 1;
    let (_, successors) = expand_item(nodes, &config, done);
    assert_eq!(successors.len(), 1);
    let split = &successors[0];
    assert_eq!(split.0.node, 0);
    assert_eq!(split.1.prev_words, vec![done.0.node]);
    // two letters times the weight of the root, less the penalty of a space
    assert_eq!(split.0.val, 2 * 17 - 3);
    assert_eq!(split.1.prev_penalty, 3 - 1);
    assert_eq!(compose(nodes, &split.1, 0), "DO ");
}

#[test]
fn the_anagram_cursor_counts_letters_down() {
    let cursor = AnagramCursor::get_counts("AAB");
    assert!(!cursor.accept());
    assert!(cursor.keep_going('C').is_none());
    let a = cursor.keep_going('A').unwrap();
    let aa = a.keep_going('A').unwrap();
    assert!(aa.keep_going('A').is_none());
    let aab = aa.keep_going('B').unwrap();
    assert!(aab.accept());
    assert!(aab.duplicate().accept());
    // a character that is no symbol can never be placed
    let odd = AnagramCursor::get_counts("a");
    assert!(!odd.accept());
    assert!(AnagramCursor::get_counts("").accept());
}

#[test]
fn the_regex_cursor_runs_the_automaton() {
    let pattern = whole_pattern("AB*(C|D)?").unwrap();
    let graph = NfaGraph::from_pattern(&pattern);
    let start = RegexCursor::new(&graph);
    assert!(!start.accept());
    assert!(start.keep_going('B').is_none());
    let a = start.keep_going('A').unwrap();
    assert!(a.accept());
    let ab = a.keep_going('B').unwrap();
    assert!(ab.accept());
    let abb = ab.keep_going('B').unwrap().duplicate();
    assert!(abb.accept());
    let abbd = abb.keep_going('D').unwrap();
    assert!(abbd.accept());
    assert!(abbd.keep_going('D').is_none());
    assert!(abbd.keep_going('B').is_none());
}

#[test]
fn an_automaton_accepts_what_its_pattern_matches() {
    let accepts = |regex: &str, word: &str| {
        let graph = NfaGraph::from_regex(regex).unwrap();
        let result = graph.apply(word);
        graph.any_accept(&result.states)
    };
    assert!(accepts("H.L*(O|P)", "HELLO"));
    assert!(accepts("H.L*(O|P)", "HELP"));
    assert!(accepts("H.L*(O|P)", "HEP"));
    assert!(!accepts("H.L*(O|P)", "HELL"));
    assert!(!accepts("H.L*(O|P)", "HELLOO"));
    assert!(accepts("(AB)*", ""));
    assert!(accepts("(AB)*", "ABAB"));
    assert!(!accepts("(AB)*", "ABA"));
    assert!(accepts("[XYZ]?Q", "Q"));
    assert!(accepts("[XYZ]?Q", "YQ"));
    assert!(!accepts("[XYZ]?Q", "XYQ"));
    assert!(accepts("(A|BC)*D", "BCABCAD"));
    assert!(accepts("(A?)*B", "AAB"));
    assert!(accepts("\\.", "."));
    assert!(!accepts("\\.", "A"));
}

#[test]
fn a_compiled_automaton_starts_with_start_and_end() {
    let graph = NfaGraph::from_regex("A(B|C)*").unwrap();
    assert!(graph.len() >= 2);
    assert!(!graph.is_accept(0));
    assert!(graph.is_accept(1));
    let start = graph.starting_states();
    assert_eq!(start.len(), 1);
    assert!(start[0].kind_is(&NfaStateKind::Literal('A')));
    assert!(start[0].get_kind() == NfaStateKind::Literal('A'));
    assert!(graph.accepts(&start[0], 'A'));
    assert!(!graph.accepts(&start[0], 'B'));
    let after = graph.advance(&start, 'A');
    let through = graph.apply_with_start("BCB", &after);
    assert!(graph.any_accept(&through.states));
    assert!(graph.advance(&start, 'B').is_empty());
}

fn reached_forward(graph: &NfaGraph, from: usize) -> Vec<bool> {
    let mut seen = vec![false; graph.len()];
    let mut todo = vec![NfaStatePtr::Strong(from, NfaStateKind::Dummy)];
    seen[from] = true;
    while let Some(ptr) = todo.pop() {
        for next in graph.get_successors(&ptr) {
            if next.is_strong() && !seen[next.index()] {
                seen[next.index()] = true;
                todo.push(next);
            }
        }
    }
    seen
}

#[test]
fn each_state_is_reached_from_the_start_and_reaches_the_end() {
    for regex in ["A", "A(B|C)*", "(A?)*B", "H.L*(O|P)", "[XYZ]?Q(R(S|T)*)?"] {
        let graph = NfaGraph::from_regex(regex).unwrap();
        assert!(reached_forward(&graph, 0).iter().all(|&seen| seen), "{regex}");
        for state in 0..graph.len() {
            assert!(reached_forward(&graph, state)[1], "{regex}: {state}");
        }
    }
}
