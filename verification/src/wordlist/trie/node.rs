//! Trie nodes, held in an arena and linked by index, and what it means for
//! such an arena to be a trie.

use vstd::prelude::*;
use crate::alphabet::{is_symbol, is_word, slot_symbol, symbol_slot, ALPHABET_LEN};

verus! {

/// One node of a trie. Its children are indices into the arena that holds it.
pub struct TrieNode {
    /// The child of each slot, if there is one.
    pub children: [Option<usize>; 27],
    /// For each slot, the next greater slot that has a child.
    pub next_child: [Option<usize>; 27],
    /// The symbol on the edge into this node (unused in the root).
    pub letter: char,
    /// Whether an inserted word ends here.
    pub is_terminal: bool,
    /// The frequencies of this node and of all below it, added up.
    pub weight: u64,
    /// The number of edges from the root.
    pub depth: u32,
    /// The frequencies of the insertions that ended here, added up.
    pub freq: u64,
    /// The symbols from the root to this node.
    pub path: String,
    /// The node that has this one as a child (the root: itself).
    pub parent: usize,
}

/// The child of node `i` in slot `slot`, where it is a node of the arena
/// that comes after `i`.
pub open spec fn child_at(nodes: Seq<TrieNode>, i: int, slot: int) -> Option<int> {
    match nodes[i].children[slot] {
        Some(c) => if i < c < nodes.len() {
            Some(c as int)
        } else {
            None
        },
        None => None,
    }
}

/// What holds between node `i` and the child in one of its slots.
pub open spec fn slot_ok(nodes: Seq<TrieNode>, i: int, slot: int) -> bool {
    match nodes[i].children[slot] {
        Some(c) => {
            &&& i < c < nodes.len()
            &&& nodes[c as int].parent == i
            &&& nodes[c as int].letter == slot_symbol(slot)
            &&& nodes[c as int].depth == nodes[i].depth + 1
            &&& nodes[c as int].path@ == nodes[i].path@.push(slot_symbol(slot))
        },
        None => true,
    }
}

/// What holds of each node of a trie.
pub open spec fn node_ok(nodes: Seq<TrieNode>, i: int) -> bool {
    &&& nodes[i].path@.len() == nodes[i].depth
    &&& is_word(nodes[i].path@)
    &&& !nodes[i].is_terminal ==> nodes[i].freq == 0
    &&& forall|slot: int| 0 <= slot < 27 ==> slot_ok(nodes, i, slot)
}

/// The arena is a trie with its root at index 0: every child link leads to a
/// later node whose letter, depth and path continue those of its parent.
pub open spec fn wf_nodes(nodes: Seq<TrieNode>) -> bool {
    &&& nodes.len() >= 1
    &&& nodes[0].depth == 0
    &&& forall|i: int| 0 <= i < nodes.len() ==> node_ok(nodes, i)
}

/// The node reached from node `i` along `word`, if the trie has that path.
pub open spec fn walk(nodes: Seq<TrieNode>, i: int, word: Seq<char>) -> Option<int>
    decreases word.len(),
{
    if word.len() == 0 {
        Some(i)
    } else if !is_symbol(word[0]) {
        None
    } else {
        match child_at(nodes, i, symbol_slot(word[0])) {
            Some(c) => walk(nodes, c, word.drop_first()),
            None => None,
        }
    }
}

/// The node that `word` leads to from the root.
pub open spec fn node_at(nodes: Seq<TrieNode>, word: Seq<char>) -> Option<int> {
    walk(nodes, 0, word)
}

/// Whether `word` was inserted: its path exists and ends in a terminal node.
pub open spec fn has_word(nodes: Seq<TrieNode>, word: Seq<char>) -> bool {
    match node_at(nodes, word) {
        Some(i) => nodes[i].is_terminal,
        None => false,
    }
}

/// The frequency recorded for `word`: 0 where it was not inserted.
pub open spec fn word_freq(nodes: Seq<TrieNode>, word: Seq<char>) -> nat {
    match node_at(nodes, word) {
        Some(i) => if nodes[i].is_terminal {
            nodes[i].freq as nat
        } else {
            0
        },
        None => 0,
    }
}

/// The weights of the children of node `i` in the slots below `upto`, added up.
pub open spec fn child_weights(nodes: Seq<TrieNode>, i: int, upto: int) -> nat
    decreases upto,
{
    if upto <= 0 {
        0
    } else {
        child_weights(nodes, i, upto - 1) + match child_at(nodes, i, upto - 1) {
            Some(c) => nodes[c].weight as nat,
            None => 0,
        }
    }
}

/// The weight of node `i` is its own frequency and the weights of its children.
pub open spec fn weight_ok(nodes: Seq<TrieNode>, i: int) -> bool {
    nodes[i].weight == nodes[i].freq + child_weights(nodes, i, 27)
}

/// The smallest slot above `slot` in which `children` has an entry.
pub open spec fn next_present(children: Seq<Option<usize>>, slot: int) -> Option<usize>
    decreases children.len() - slot,
{
    if slot + 1 >= children.len() {
        None
    } else if children[slot + 1] is Some {
        Some((slot + 1) as usize)
    } else {
        next_present(children, slot + 1)
    }
}

/// The table `next_child` of node `i` names, for each slot, the next greater
/// slot that has a child.
pub open spec fn next_child_ok(nodes: Seq<TrieNode>, i: int) -> bool {
    forall|slot: int|
        0 <= slot < 27 ==> #[trigger] nodes[i].next_child[slot] == next_present(
            nodes[i].children@,
            slot,
        )
}

/// Every node carries its weight and its table of next children.
pub open spec fn decorated(nodes: Seq<TrieNode>) -> bool {
    forall|i: int| 0 <= i < nodes.len() ==> weight_ok(nodes, i) && next_child_ok(nodes, i)
}

/// The frequencies of node `i` and of all below it, added up.
pub open spec fn subtree_freq(nodes: Seq<TrieNode>, i: int) -> nat
    decreases nodes.len() - i, 28int,
{
    if 0 <= i < nodes.len() {
        nodes[i].freq as nat + children_freq(nodes, i, 27)
    } else {
        0
    }
}

/// The frequencies below the children of node `i` in the slots under `upto`,
/// added up.
pub open spec fn children_freq(nodes: Seq<TrieNode>, i: int, upto: int) -> nat
    decreases nodes.len() - i, upto,
{
    if upto <= 0 || upto > 27 || !(0 <= i < nodes.len()) {
        0
    } else {
        children_freq(nodes, i, upto - 1) + match child_at(nodes, i, upto - 1) {
            Some(c) => subtree_freq(nodes, c),
            None => 0,
        }
    }
}

/// A walk ends in a node of the arena whose path is that of its start
/// followed by the word walked.
pub proof fn lemma_walk_path(nodes: Seq<TrieNode>, i: int, word: Seq<char>)
    requires
        wf_nodes(nodes),
        0 <= i < nodes.len(),
        walk(nodes, i, word) is Some,
    ensures
        0 <= walk(nodes, i, word)->0 < nodes.len(),
        i <= walk(nodes, i, word)->0,
        nodes[walk(nodes, i, word)->0].path@ == nodes[i].path@ + word,
        is_word(word),
    decreases word.len(),
{
    if word.len() == 0 {
        assert(nodes[i].path@ + word =~= nodes[i].path@);
    } else {
        let slot = symbol_slot(word[0]);
        let c = child_at(nodes, i, slot)->0;
        assert(node_ok(nodes, i));
        assert(slot_ok(nodes, i, slot));
        crate::alphabet::lemma_symbol_slot(word[0]);
        lemma_walk_path(nodes, c, word.drop_first());
        assert(nodes[i].path@.push(word[0]) + word.drop_first() =~= nodes[i].path@ + word);
        assert forall|k: int| 0 <= k < word.len() implies is_symbol(#[trigger] word[k]) by {
            if k > 0 {
                assert(word[k] == word.drop_first()[k - 1]);
            }
        }
    }
}

/// The path of the root is empty.
pub proof fn lemma_root_path(nodes: Seq<TrieNode>)
    requires
        wf_nodes(nodes),
    ensures
        nodes[0].path@ == Seq::<char>::empty(),
{
    assert(node_ok(nodes, 0));
    assert(nodes[0].path@.len() == 0);
    assert(nodes[0].path@ =~= Seq::<char>::empty());
}

/// A word leads to the node whose path it is.
pub proof fn lemma_node_at_path(nodes: Seq<TrieNode>, word: Seq<char>)
    requires
        wf_nodes(nodes),
        node_at(nodes, word) is Some,
    ensures
        0 <= node_at(nodes, word)->0 < nodes.len(),
        nodes[node_at(nodes, word)->0].path@ == word,
        is_word(word),
{
    lemma_walk_path(nodes, 0, word);
    lemma_root_path(nodes);
    assert(Seq::<char>::empty() + word =~= word);
}

/// Walking `word` and then one more symbol is walking the longer word.
pub proof fn lemma_walk_push(nodes: Seq<TrieNode>, i: int, word: Seq<char>, c: char)
    requires
        is_symbol(c),
        walk(nodes, i, word) is Some,
    ensures
        walk(nodes, i, word.push(c)) == child_at(
            nodes,
            walk(nodes, i, word)->0,
            symbol_slot(c),
        ),
    decreases word.len(),
{
    if word.len() == 0 {
        assert(word.push(c).drop_first() =~= Seq::<char>::empty());
        assert(word.push(c)[0] == c);
        let slot = symbol_slot(c);
        match child_at(nodes, i, slot) {
            Some(d) => {
                assert(walk(nodes, d, Seq::<char>::empty()) == Some(d));
            },
            None => {},
        }
    } else {
        let slot = symbol_slot(word[0]);
        let d = child_at(nodes, i, slot)->0;
        assert(word.push(c).drop_first() =~= word.drop_first().push(c));
        assert(word.push(c)[0] == word[0]);
        lemma_walk_push(nodes, d, word.drop_first(), c);
    }
}

} // verus!
