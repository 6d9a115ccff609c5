//! How the model of a trie changes when its arena grows by a leaf, when a
//! node is marked as the end of a word, and when it is decorated.

use vstd::prelude::*;
use crate::alphabet::{is_symbol, lemma_slot_symbol, lemma_symbol_slot, slot_symbol, symbol_slot};
use crate::wordlist::trie::node::{
    child_at, children_freq, has_word, lemma_node_at_path, lemma_walk_path, lemma_walk_push,
    node_at, node_ok, slot_ok, subtree_freq, walk, wf_nodes, word_freq, TrieNode,
};

verus! {

/// The two nodes agree on everything that links a node into the trie.
pub open spec fn same_links(a: TrieNode, b: TrieNode) -> bool {
    &&& forall|slot: int| 0 <= slot < 27 ==> a.children[slot] == b.children[slot]
    &&& a.letter == b.letter
    &&& a.depth == b.depth
    &&& a.path@ == b.path@
    &&& a.parent == b.parent
}

/// The two arenas hold the same trie and the same words; weights and tables
/// of next children may differ.
pub open spec fn same_shape(old: Seq<TrieNode>, new: Seq<TrieNode>) -> bool {
    &&& new.len() == old.len()
    &&& forall|i: int|
        0 <= i < old.len() ==> {
            &&& same_links(#[trigger] new[i], old[i])
            &&& new[i].is_terminal == old[i].is_terminal
            &&& new[i].freq == old[i].freq
        }
}

/// `new` is `old` with a fresh leaf in slot `slot` of node `p`.
pub open spec fn extends_by_leaf(
    old: Seq<TrieNode>,
    new: Seq<TrieNode>,
    p: int,
    slot: int,
) -> bool {
    let n = old.len() as int;
    &&& 0 <= p < n
    &&& 0 <= slot < 27
    &&& new.len() == n + 1
    &&& old[p].children[slot] is None
    &&& forall|i: int| 0 <= i < n && i != p ==> #[trigger] new[i] == old[i]
    &&& new[p].children[slot] is Some
    &&& new[p].children[slot]->0 == n
    &&& forall|s: int| 0 <= s < 27 && s != slot ==> new[p].children[s] == old[p].children[s]
    &&& new[p].letter == old[p].letter
    &&& new[p].depth == old[p].depth
    &&& new[p].path@ == old[p].path@
    &&& new[p].parent == old[p].parent
    &&& new[p].is_terminal == old[p].is_terminal
    &&& new[p].freq == old[p].freq
    &&& new[p].weight == old[p].weight
    &&& new[p].next_child == old[p].next_child
    &&& forall|s: int| 0 <= s < 27 ==> new[n].children[s] is None
    &&& new[n].letter == slot_symbol(slot)
    &&& new[n].parent == p
    &&& new[n].depth == old[p].depth + 1
    &&& new[n].path@ == old[p].path@.push(slot_symbol(slot))
    &&& !new[n].is_terminal
    &&& new[n].freq == 0
}

/// `new` is `old` with node `t` marked as the end of a word, and `freq` added
/// to its frequency.
pub open spec fn marks_terminal(old: Seq<TrieNode>, new: Seq<TrieNode>, t: int, freq: nat) -> bool {
    &&& 0 <= t < old.len()
    &&& new.len() == old.len()
    &&& forall|i: int| 0 <= i < old.len() && i != t ==> #[trigger] new[i] == old[i]
    &&& same_links(new[t], old[t])
    &&& new[t].is_terminal
    &&& new[t].freq == old[t].freq + freq
}

/// A trie that grows by a leaf is still a trie.
pub proof fn lemma_leaf_wf(old: Seq<TrieNode>, new: Seq<TrieNode>, p: int, slot: int)
    requires
        wf_nodes(old),
        extends_by_leaf(old, new, p, slot),
    ensures
        wf_nodes(new),
{
    let n = old.len() as int;
    lemma_slot_symbol(slot);
    assert(node_ok(old, p));
    assert forall|i: int| 0 <= i < new.len() implies node_ok(new, i) by {
        if i == n {
            assert(new[n].path@.len() == new[n].depth);
            assert forall|k: int| 0 <= k < new[n].path@.len() implies is_symbol(
                #[trigger] new[n].path@[k],
            ) by {
                if k < old[p].path@.len() {
                    assert(new[n].path@[k] == old[p].path@[k]);
                }
            }
            assert forall|s: int| 0 <= s < 27 implies slot_ok(new, i, s) by {}
        } else {
            assert(node_ok(old, i));
            assert forall|s: int| 0 <= s < 27 implies slot_ok(new, i, s) by {
                assert(slot_ok(old, i, s));
                if i == p && s == slot {
                } else {
                    assert(new[i].children[s] == old[i].children[s]);
                    match old[i].children[s] {
                        Some(c) => {
                            if c as int != p {
                                assert(new[c as int] == old[c as int]);
                            }
                        },
                        None => {},
                    }
                }
            }
        }
    }
}

/// From the new leaf no walk leads on.
proof fn lemma_walk_from_leaf(new: Seq<TrieNode>, n: int, word: Seq<char>)
    requires
        0 <= n < new.len(),
        forall|s: int| 0 <= s < 27 ==> new[n].children[s] is None,
    ensures
        walk(new, n, word) is Some ==> walk(new, n, word) == Some(n),
{
    if word.len() > 0 && is_symbol(word[0]) {
        lemma_symbol_slot(word[0]);
    }
}

/// A walk in the old trie is a walk in the grown one; a walk in the grown one
/// is a walk in the old one unless it ends in the new leaf.
pub proof fn lemma_leaf_walk(
    old: Seq<TrieNode>,
    new: Seq<TrieNode>,
    p: int,
    slot: int,
    i: int,
    word: Seq<char>,
)
    requires
        wf_nodes(old),
        extends_by_leaf(old, new, p, slot),
        0 <= i < old.len(),
    ensures
        walk(old, i, word) is Some ==> walk(new, i, word) == walk(old, i, word),
        walk(new, i, word) is Some ==> walk(new, i, word) == Some(old.len() as int) || walk(
            new,
            i,
            word,
        ) == walk(old, i, word),
    decreases word.len(),
{
    if word.len() > 0 && is_symbol(word[0]) {
        let s = symbol_slot(word[0]);
        lemma_symbol_slot(word[0]);
        assert(node_ok(old, i));
        assert(slot_ok(old, i, s));
        if i == p && s == slot {
            lemma_walk_from_leaf(new, old.len() as int, word.drop_first());
        } else {
            assert(new[i].children[s] == old[i].children[s]) by {
                if i != p {
                    assert(new[i] == old[i]);
                }
            }
            assert(child_at(new, i, s) == child_at(old, i, s));
            match child_at(old, i, s) {
                Some(c) => {
                    lemma_leaf_walk(old, new, p, slot, c, word.drop_first());
                },
                None => {},
            }
        }
    }
}

/// Growing by a leaf adds no word and changes no frequency.
pub proof fn lemma_leaf_words(
    old: Seq<TrieNode>,
    new: Seq<TrieNode>,
    p: int,
    slot: int,
    word: Seq<char>,
)
    requires
        wf_nodes(old),
        extends_by_leaf(old, new, p, slot),
    ensures
        has_word(new, word) == has_word(old, word),
        word_freq(new, word) == word_freq(old, word),
{
    lemma_leaf_walk(old, new, p, slot, 0, word);
    if node_at(old, word) is Some {
        lemma_walk_path(old, 0, word);
    }
}

/// The new leaf adds nothing to the frequencies below any node.
pub proof fn lemma_leaf_subtree_freq(
    old: Seq<TrieNode>,
    new: Seq<TrieNode>,
    p: int,
    slot: int,
    i: int,
)
    requires
        wf_nodes(old),
        extends_by_leaf(old, new, p, slot),
        0 <= i <= old.len(),
    ensures
        subtree_freq(new, i) == if i < old.len() {
            subtree_freq(old, i)
        } else {
            0
        },
    decreases old.len() - i, 28int,
{
    lemma_leaf_children_freq(old, new, p, slot, i, 27);
}

proof fn lemma_leaf_children_freq(
    old: Seq<TrieNode>,
    new: Seq<TrieNode>,
    p: int,
    slot: int,
    i: int,
    upto: int,
)
    requires
        wf_nodes(old),
        extends_by_leaf(old, new, p, slot),
        0 <= i <= old.len(),
        0 <= upto <= 27,
    ensures
        children_freq(new, i, upto) == if i < old.len() {
            children_freq(old, i, upto)
        } else {
            0
        },
    decreases old.len() - i, upto,
{
    if upto > 0 {
        lemma_leaf_children_freq(old, new, p, slot, i, upto - 1);
        let s = upto - 1;
        if i < old.len() {
            assert(node_ok(old, i));
            assert(slot_ok(old, i, s));
            if i == p && s == slot {
                lemma_leaf_subtree_freq(old, new, p, slot, old.len() as int);
            } else {
                assert(new[i].children[s] == old[i].children[s]) by {
                    if i != p {
                        assert(new[i] == old[i]);
                    }
                }
                assert(child_at(new, i, s) == child_at(old, i, s));
                match child_at(old, i, s) {
                    Some(c) => {
                        lemma_leaf_subtree_freq(old, new, p, slot, c);
                    },
                    None => {},
                }
            }
        }
    }
}

/// Arenas of the same shape have the same walks.
pub proof fn lemma_shape_walk(old: Seq<TrieNode>, new: Seq<TrieNode>, i: int, word: Seq<char>)
    requires
        new.len() == old.len(),
        forall|j: int| 0 <= j < old.len() ==> same_links(#[trigger] new[j], old[j]),
        wf_nodes(old),
        0 <= i < old.len(),
    ensures
        walk(new, i, word) == walk(old, i, word),
    decreases word.len(),
{
    if word.len() > 0 && is_symbol(word[0]) {
        let s = symbol_slot(word[0]);
        lemma_symbol_slot(word[0]);
        assert(same_links(new[i], old[i]));
        assert(node_ok(old, i));
        assert(slot_ok(old, i, s));
        match child_at(old, i, s) {
            Some(c) => {
                lemma_shape_walk(old, new, c, word.drop_first());
            },
            None => {},
        }
    }
}

/// An arena with the links of a trie, in which only ends of words have a
/// frequency, is a trie.
pub proof fn lemma_shape_wf(old: Seq<TrieNode>, new: Seq<TrieNode>)
    requires
        new.len() == old.len(),
        forall|j: int| 0 <= j < old.len() ==> same_links(#[trigger] new[j], old[j]),
        forall|j: int| 0 <= j < old.len() && !(#[trigger] new[j]).is_terminal ==> new[j].freq == 0,
        wf_nodes(old),
    ensures
        wf_nodes(new),
{
    assert(same_links(new[0], old[0]));
    assert forall|i: int| 0 <= i < new.len() implies node_ok(new, i) by {
        assert(node_ok(old, i));
        assert(same_links(new[i], old[i]));
        assert forall|s: int| 0 <= s < 27 implies slot_ok(new, i, s) by {
            assert(slot_ok(old, i, s));
            match old[i].children[s] {
                Some(c) => {
                    assert(same_links(new[c as int], old[c as int]));
                },
                None => {},
            }
        }
    }
}

/// Arenas of the same shape hold the same words with the same frequencies.
pub proof fn lemma_shape_words(old: Seq<TrieNode>, new: Seq<TrieNode>, word: Seq<char>)
    requires
        same_shape(old, new),
        wf_nodes(old),
    ensures
        has_word(new, word) == has_word(old, word),
        word_freq(new, word) == word_freq(old, word),
{
    lemma_shape_walk(old, new, 0, word);
    if node_at(old, word) is Some {
        lemma_walk_path(old, 0, word);
    }
}

/// Arenas of the same shape have the same frequencies below each node.
pub proof fn lemma_shape_subtree_freq(old: Seq<TrieNode>, new: Seq<TrieNode>, i: int)
    requires
        same_shape(old, new),
        wf_nodes(old),
        0 <= i < old.len(),
    ensures
        subtree_freq(new, i) == subtree_freq(old, i),
    decreases old.len() - i, 28int,
{
    lemma_shape_children_freq(old, new, i, 27);
}

proof fn lemma_shape_children_freq(old: Seq<TrieNode>, new: Seq<TrieNode>, i: int, upto: int)
    requires
        same_shape(old, new),
        wf_nodes(old),
        0 <= i < old.len(),
        0 <= upto <= 27,
    ensures
        children_freq(new, i, upto) == children_freq(old, i, upto),
    decreases old.len() - i, upto,
{
    if upto > 0 {
        lemma_shape_children_freq(old, new, i, upto - 1);
        let s = upto - 1;
        assert(same_links(new[i], old[i]));
        assert(node_ok(old, i));
        assert(slot_ok(old, i, s));
        match child_at(old, i, s) {
            Some(c) => {
                lemma_shape_subtree_freq(old, new, c);
            },
            None => {},
        }
    }
}

/// A walk that goes one symbol further than `word` goes along `word` first.
pub proof fn lemma_walk_drop_last(nodes: Seq<TrieNode>, i: int, word: Seq<char>, c: char)
    requires
        walk(nodes, i, word.push(c)) is Some,
    ensures
        walk(nodes, i, word) is Some,
        is_symbol(c),
    decreases word.len(),
{
    if word.len() == 0 {
        assert(word.push(c)[0] == c);
    } else {
        assert(word.push(c)[0] == word[0]);
        assert(word.push(c).drop_first() =~= word.drop_first().push(c));
        let d = child_at(nodes, i, symbol_slot(word[0]))->0;
        lemma_walk_drop_last(nodes, d, word.drop_first(), c);
    }
}

/// The trie has the path of every prefix of a word whose path it has.
pub proof fn lemma_walk_prefix(nodes: Seq<TrieNode>, word: Seq<char>, j: int)
    requires
        node_at(nodes, word) is Some,
        0 <= j <= word.len(),
    ensures
        node_at(nodes, word.take(j)) is Some,
    decreases word.len() - j,
{
    if j == word.len() {
        assert(word.take(j) =~= word);
    } else {
        lemma_walk_prefix(nodes, word, j + 1);
        assert(word.take(j + 1) =~= word.take(j).push(word[j]));
        lemma_walk_drop_last(nodes, 0, word.take(j), word[j]);
    }
}

/// The node that the first `j` symbols of `word` lead to.
pub open spec fn trail_node(nodes: Seq<TrieNode>, word: Seq<char>, j: int) -> int {
    node_at(nodes, word.take(j))->0
}

/// Whether node `i` lies on the path of `word`.
pub open spec fn on_trail(nodes: Seq<TrieNode>, word: Seq<char>, i: int) -> bool {
    nodes[i].depth <= word.len() && trail_node(nodes, word, nodes[i].depth as int) == i
}

/// The nodes on the path of a word: each is at the depth of its place, and
/// the next is its child in the slot of the next symbol.
pub proof fn lemma_trail(nodes: Seq<TrieNode>, word: Seq<char>, j: int)
    requires
        wf_nodes(nodes),
        node_at(nodes, word) is Some,
        0 <= j <= word.len(),
    ensures
        0 <= trail_node(nodes, word, j) < nodes.len(),
        nodes[trail_node(nodes, word, j)].depth == j,
        nodes[trail_node(nodes, word, j)].path@ == word.take(j),
        j < word.len() ==> is_symbol(word[j]) && child_at(
            nodes,
            trail_node(nodes, word, j),
            symbol_slot(word[j]),
        ) == Some(trail_node(nodes, word, j + 1)),
{
    lemma_walk_prefix(nodes, word, j);
    lemma_node_at_path(nodes, word.take(j));
    let t = trail_node(nodes, word, j);
    assert(node_ok(nodes, t));
    if j < word.len() {
        lemma_walk_prefix(nodes, word, j + 1);
        assert(word.take(j + 1) =~= word.take(j).push(word[j]));
        lemma_walk_drop_last(nodes, 0, word.take(j), word[j]);
        lemma_walk_push(nodes, 0, word.take(j), word[j]);
    }
}

/// Marking the end of a word adds its frequency below every node on the path
/// of the word, and below no other.
pub proof fn lemma_mark_subtree_freq(
    old: Seq<TrieNode>,
    new: Seq<TrieNode>,
    word: Seq<char>,
    t: int,
    freq: nat,
    i: int,
)
    requires
        wf_nodes(old),
        marks_terminal(old, new, t, freq),
        node_at(old, word) == Some(t),
        0 <= i < old.len(),
    ensures
        subtree_freq(new, i) == subtree_freq(old, i) + if on_trail(old, word, i) {
            freq
        } else {
            0
        },
    decreases old.len() - i, 28int,
{
    lemma_mark_children_freq(old, new, word, t, freq, i, 27);
    assert(node_ok(old, i));
    let d = old[i].depth as int;
    lemma_trail(old, word, word.len() as int);
    assert(word.take(word.len() as int) =~= word);
    if on_trail(old, word, i) && d < word.len() {
        lemma_trail(old, word, d);
        lemma_symbol_slot(word[d]);
    }
}

proof fn lemma_mark_children_freq(
    old: Seq<TrieNode>,
    new: Seq<TrieNode>,
    word: Seq<char>,
    t: int,
    freq: nat,
    i: int,
    upto: int,
)
    requires
        wf_nodes(old),
        marks_terminal(old, new, t, freq),
        node_at(old, word) == Some(t),
        0 <= i < old.len(),
        0 <= upto <= 27,
    ensures
        children_freq(new, i, upto) == children_freq(old, i, upto) + if on_trail(old, word, i)
            && old[i].depth < word.len() && symbol_slot(word[old[i].depth as int]) < upto {
            freq
        } else {
            0
        },
    decreases old.len() - i, upto,
{
    if on_trail(old, word, i) && old[i].depth < word.len() {
        lemma_trail(old, word, old[i].depth as int);
        lemma_symbol_slot(word[old[i].depth as int]);
    }
    if upto > 0 {
        lemma_mark_children_freq(old, new, word, t, freq, i, upto - 1);
        let s = upto - 1;
        let d = old[i].depth as int;
        assert(node_ok(old, i));
        assert(slot_ok(old, i, s));
        assert(same_links(new[i], old[i])) by {
            if i != t {
                assert(new[i] == old[i]);
            }
        }
        assert(child_at(new, i, s) == child_at(old, i, s));
        match child_at(old, i, s) {
            Some(c) => {
                lemma_mark_subtree_freq(old, new, word, t, freq, c);
                if on_trail(old, word, c) {
                    // the child is the next node of the path, so `i` is the one before
                    lemma_trail(old, word, d);
                    let s2 = symbol_slot(word[d]);
                    lemma_symbol_slot(word[d]);
                    let td = trail_node(old, word, d);
                    assert(node_ok(old, td));
                    assert(slot_ok(old, td, s2));
                    lemma_slot_symbol(s);
                    lemma_slot_symbol(s2);
                }
            },
            None => {},
        }
    }
}

/// Marking the end of a word adds that word, and its frequency, and changes
/// nothing else.
pub proof fn lemma_mark_words(
    old: Seq<TrieNode>,
    new: Seq<TrieNode>,
    word: Seq<char>,
    t: int,
    freq: nat,
    other: Seq<char>,
)
    requires
        wf_nodes(old),
        marks_terminal(old, new, t, freq),
        node_at(old, word) == Some(t),
    ensures
        has_word(new, other) == (has_word(old, other) || other == word),
        word_freq(new, other) == word_freq(old, other) + if other == word {
            freq
        } else {
            0
        },
{
    assert forall|j: int| 0 <= j < old.len() implies same_links(#[trigger] new[j], old[j]) by {
        if j != t {
            assert(new[j] == old[j]);
        }
    }
    lemma_shape_walk(old, new, 0, other);
    lemma_node_at_path(old, word);
    assert(node_ok(old, t));
    if node_at(old, other) is Some {
        lemma_node_at_path(old, other);
        let j = node_at(old, other)->0;
        if j != t {
            assert(new[j] == old[j]);
        }
    }
}

} // verus!
