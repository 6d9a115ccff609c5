//! The trie that is built by insertion, and the frozen trie that is searched.

use vstd::prelude::*;
use crate::alphabet::{is_symbol, is_word, lemma_slot_symbol, slot_of, symbol_of, symbol_slot};
use crate::wordlist::trie::growth::{
    extends_by_leaf, lemma_leaf_subtree_freq, lemma_leaf_walk, lemma_leaf_wf, lemma_leaf_words,
    lemma_mark_subtree_freq, lemma_mark_words, lemma_shape_subtree_freq, lemma_shape_wf,
    lemma_shape_words, lemma_walk_prefix, marks_terminal, same_links, same_shape,
};
use crate::wordlist::trie::node::{
    child_at, child_weights, children_freq, decorated, has_word, lemma_node_at_path,
    lemma_walk_push, next_child_ok, next_present, node_at, node_ok, slot_ok, subtree_freq, walk,
    weight_ok, wf_nodes, word_freq, TrieNode,
};

verus! {

/// The trie under construction: words are added to it, then `build` freezes it.
pub struct Trie {
    nodes: Vec<TrieNode>,
    built: bool,
    total: u64,
}

/// The frozen trie: the form that is searched. It is empty until a `Trie` is
/// built into it.
pub struct ImmutableTrie {
    nodes: Vec<TrieNode>,
}

/// How often `word` occurs among `words`.
pub open spec fn occurrences(words: Seq<Seq<char>>, word: Seq<char>) -> nat
    decreases words.len(),
{
    if words.len() == 0 {
        0
    } else {
        occurrences(words.drop_last(), word) + if words.last() == word {
            1nat
        } else {
            0nat
        }
    }
}

/// The table of next children for one node: for each slot, the next greater
/// slot that has a child.
pub fn build_next_child(children: &[Option<usize>; 27]) -> (next_child: [Option<usize>; 27])
    ensures
        forall|slot: int| 0 <= slot < 27 ==> next_child[slot] == next_present(children@, slot),
{
    let mut next_child: [Option<usize>; 27] = [None; 27];
    let mut idx: usize = 27;
    let mut next_idx: Option<usize> = None;
    while idx > 0
        invariant
            idx <= 27,
            next_idx == next_present(children@, idx - 1),
            forall|slot: int| idx <= slot < 27 ==> next_child[slot] == next_present(children@, slot),
        decreases idx,
    {
        idx = idx - 1;
        next_child[idx] = next_idx;
        if children[idx].is_some() {
            next_idx = Some(idx);
        }
    }
    next_child
}

/// With every child carrying the frequencies below it as its weight, the
/// weights of the children add up to the frequencies below them.
proof fn lemma_child_weights(nodes: Seq<TrieNode>, orig: Seq<TrieNode>, i: int, upto: int)
    requires
        wf_nodes(orig),
        same_shape(orig, nodes),
        0 <= i < nodes.len(),
        0 <= upto <= 27,
        forall|j: int| i < j < nodes.len() ==> nodes[j].weight == subtree_freq(orig, j),
    ensures
        child_weights(nodes, i, upto) == children_freq(orig, i, upto),
    decreases upto,
{
    if upto > 0 {
        lemma_child_weights(nodes, orig, i, upto - 1);
        assert(node_ok(orig, i));
        assert(slot_ok(orig, i, upto - 1));
        assert(same_links(nodes[i], orig[i]));
        assert(child_at(nodes, i, upto - 1) == child_at(orig, i, upto - 1));
        match child_at(orig, i, upto - 1) {
            Some(c) => {
                assert(nodes[c].weight == subtree_freq(orig, c));
            },
            None => {},
        }
    }
}

/// The frequencies below the children in the first slots are no more than
/// those below all of them.
proof fn lemma_children_freq_grows(nodes: Seq<TrieNode>, i: int, upto: int)
    requires
        0 <= i < nodes.len(),
        0 <= upto <= 27,
    ensures
        children_freq(nodes, i, upto) <= children_freq(nodes, i, 27),
    decreases 27 - upto,
{
    if upto < 27 {
        lemma_children_freq_grows(nodes, i, upto + 1);
    }
}

impl TrieNode {
    /// A copy of the node.
    pub fn duplicate(&self) -> (copy: TrieNode)
        ensures
            copy == *self,
    {
        TrieNode {
            children: self.children,
            next_child: self.next_child,
            letter: self.letter,
            is_terminal: self.is_terminal,
            weight: self.weight,
            depth: self.depth,
            freq: self.freq,
            path: self.path.clone(),
            parent: self.parent,
        }
    }
}

/// The node that `word` leads to from the root, if the trie has that path.
pub fn find_node(nodes: &Vec<TrieNode>, word: &str) -> (found: Option<usize>)
    requires
        wf_nodes(nodes@),
    ensures
        match found {
            Some(i) => node_at(nodes@, word@) == Some(i as int) && i < nodes@.len(),
            None => node_at(nodes@, word@) is None,
        },
{
    let mut current: usize = 0;
    for c in it: word.chars()
        invariant
            it.seq() == word@,
            wf_nodes(nodes@),
            current < nodes@.len(),
            node_at(nodes@, word@.take(it.index() as int)) == Some(current as int),
    {
        let ghost idx = it.index() as int;
        proof {
            assert(word@.take(idx + 1) =~= word@.take(idx).push(c));
            if node_at(nodes@, word@) is Some {
                lemma_walk_prefix(nodes@, word@, idx + 1);
            }
            if is_symbol(c) {
                lemma_walk_push(nodes@, 0, word@.take(idx), c);
                crate::alphabet::lemma_symbol_slot(c);
                assert(node_ok(nodes@, current as int));
                assert(slot_ok(nodes@, current as int, symbol_slot(c)));
            } else {
                if node_at(nodes@, word@.take(idx + 1)) is Some {
                    crate::wordlist::trie::growth::lemma_walk_drop_last(
                        nodes@,
                        0,
                        word@.take(idx),
                        c,
                    );
                }
            }
        }
        match slot_of(c) {
            Some(slot) => match nodes[current].children[slot] {
                Some(child) => {
                    current = child;
                },
                None => {
                    return None;
                },
            },
            None => {
                return None;
            },
        }
    }
    proof {
        assert(word@.take(word@.len() as int) =~= word@);
    }
    Some(current)
}

impl Trie {
    /// The nodes of the trie, the root first.
    pub closed spec fn nodes(&self) -> Seq<TrieNode> {
        self.nodes@
    }

    /// Whether the trie has been built, and so is frozen.
    pub closed spec fn is_built(&self) -> bool {
        self.built
    }

    /// The frequencies of all insertions, added up.
    pub closed spec fn total_freq(&self) -> nat {
        self.total as nat
    }

    /// The trie is well formed: its nodes form a trie, the frequencies below
    /// the root add up to the total, and once built every node is decorated.
    pub open spec fn wf(&self) -> bool {
        &&& wf_nodes(self.nodes())
        &&& self.total_freq() == subtree_freq(self.nodes(), 0)
        &&& forall|i: int|
            0 <= i < self.nodes().len() ==> subtree_freq(self.nodes(), i) <= self.total_freq()
        &&& self.is_built() ==> decorated(self.nodes())
    }

    /// Whether `word` has been added.
    pub open spec fn has(&self, word: Seq<char>) -> bool {
        has_word(self.nodes(), word)
    }

    /// The frequencies with which `word` has been added, added up.
    pub open spec fn freq_of(&self, word: Seq<char>) -> nat {
        word_freq(self.nodes(), word)
    }

    /// A trie with no word in it.
    pub fn new() -> (trie: Trie)
        ensures
            trie.wf(),
            !trie.is_built(),
            trie.total_freq() == 0,
            forall|word: Seq<char>| !trie.has(word),
            forall|word: Seq<char>| trie.freq_of(word) == 0,
    {
        let root = TrieNode {
            children: [None; 27],
            next_child: [None; 27],
            letter: ' ',
            is_terminal: false,
            weight: 0,
            depth: 0,
            freq: 0,
            path: String::new(),
            parent: 0,
        };
        let mut nodes: Vec<TrieNode> = Vec::new();
        nodes.push(root);
        let trie = Trie { nodes, built: false, total: 0 };
        proof {
            let ns = trie.nodes();
            assert(children_freq(ns, 0, 27) == 0) by {
                reveal_with_fuel(children_freq, 28);
            }
            assert(node_ok(ns, 0));
        }
        trie
    }

    /// Whether `build` has run.
    pub fn built(&self) -> (b: bool)
        ensures
            b == self.is_built(),
    {
        self.built
    }

    /// The frequencies of all insertions, added up.
    pub fn total(&self) -> (t: u64)
        ensures
            t == self.total_freq(),
    {
        self.total
    }

    fn create_child(&mut self, i: usize, slot: usize) -> (n: usize)
        requires
            old(self).wf(),
            !old(self).is_built(),
            i < old(self).nodes().len(),
            slot < 27,
            old(self).nodes()[i as int].children[slot as int] is None,
            old(self).nodes()[i as int].depth < u32::MAX,
        ensures
            extends_by_leaf(old(self).nodes(), final(self).nodes(), i as int, slot as int),
            n == old(self).nodes().len(),
            final(self).wf(),
            !final(self).is_built(),
            final(self).total_freq() == old(self).total_freq(),
    {
        let n = self.nodes.len();
        let letter = symbol_of(slot);
        let mut path = self.nodes[i].path.clone();
        path.push(letter);
        let leaf = TrieNode {
            children: [None; 27],
            next_child: [None; 27],
            letter,
            is_terminal: false,
            weight: 0,
            depth: self.nodes[i].depth + 1,
            freq: 0,
            path,
            parent: i,
        };
        self.nodes.push(leaf);
        self.nodes[i].children[slot] = Some(n);
        proof {
            let old_nodes = old(self).nodes();
            let new_nodes = self.nodes();
            assert(extends_by_leaf(old_nodes, new_nodes, i as int, slot as int));
            lemma_leaf_wf(old_nodes, new_nodes, i as int, slot as int);
            assert forall|j: int| 0 <= j < new_nodes.len() implies subtree_freq(new_nodes, j)
                <= self.total_freq() by {
                lemma_leaf_subtree_freq(old_nodes, new_nodes, i as int, slot as int, j);
            }
            lemma_leaf_subtree_freq(old_nodes, new_nodes, i as int, slot as int, 0);
        }
        n
    }

    fn get_or_create_child(&mut self, i: usize, c: char) -> (child: usize)
        requires
            old(self).wf(),
            !old(self).is_built(),
            i < old(self).nodes().len(),
            is_symbol(c),
            old(self).nodes()[i as int].depth < u32::MAX,
        ensures
            final(self).wf(),
            !final(self).is_built(),
            final(self).total_freq() == old(self).total_freq(),
            final(self).nodes().len() >= old(self).nodes().len(),
            child_at(final(self).nodes(), i as int, symbol_slot(c)) == Some(child as int),
            forall|word: Seq<char>|
                node_at(old(self).nodes(), word) is Some ==> node_at(final(self).nodes(), word)
                    == node_at(old(self).nodes(), word),
            forall|word: Seq<char>| final(self).has(word) == old(self).has(word),
            forall|word: Seq<char>| final(self).freq_of(word) == old(self).freq_of(word),
    {
        proof {
            crate::alphabet::lemma_symbol_slot(c);
            assert(node_ok(self.nodes(), i as int));
            assert(slot_ok(self.nodes(), i as int, symbol_slot(c)));
        }
        let slot = slot_of(c).unwrap();
        match self.nodes[i].children[slot] {
            Some(child) => child,
            None => {
                let child = self.create_child(i, slot);
                proof {
                    let old_nodes = old(self).nodes();
                    let new_nodes = self.nodes();
                    assert forall|word: Seq<char>| node_at(old_nodes, word) is Some implies node_at(
                        new_nodes,
                        word,
                    ) == node_at(old_nodes, word) by {
                        lemma_leaf_walk(old_nodes, new_nodes, i as int, slot as int, 0, word);
                    }
                    assert forall|word: Seq<char>| self.has(word) == old(self).has(word) by {
                        lemma_leaf_words(old_nodes, new_nodes, i as int, slot as int, word);
                    }
                    assert forall|word: Seq<char>| self.freq_of(word) == old(self).freq_of(
                        word,
                    ) by {
                        lemma_leaf_words(old_nodes, new_nodes, i as int, slot as int, word);
                    }
                }
                child
            },
        }
    }

    /// Adds `word` with frequency 1.
    pub fn add(&mut self, word: &str)
        requires
            old(self).wf(),
            !old(self).is_built(),
            is_word(word@),
            word@.len() <= u32::MAX,
            old(self).total_freq() + 1 <= u64::MAX,
        ensures
            adds(*old(self), *final(self), word@, 1),
    {
        self.add_with_freq(word, 1)
    }

    /// Adds `word`: walks its path from the root, creating the nodes that are
    /// missing, marks the last node as the end of a word and adds `freq` to
    /// its frequency.
#[verifier::rlimit(40)]
    pub fn add_with_freq(&mut self, word: &str, freq: u64)
        requires
            old(self).wf(),
            !old(self).is_built(),
            is_word(word@),
            word@.len() <= u32::MAX,
            old(self).total_freq() + freq <= u64::MAX,
        ensures
            adds(*old(self), *final(self), word@, freq as nat),
    {
        let mut current: usize = 0;
        for c in it: word.chars()
            invariant
                it.seq() == word@,
                is_word(word@),
                word@.len() <= u32::MAX,
                self.wf(),
                !self.is_built(),
                self.total_freq() == old(self).total_freq(),
                current < self.nodes().len(),
                node_at(self.nodes(), word@.take(it.index() as int)) == Some(current as int),
                forall|other: Seq<char>| self.has(other) == old(self).has(other),
                forall|other: Seq<char>| self.freq_of(other) == old(self).freq_of(other),
        {
            let ghost idx = it.index() as int;
            let ghost before = self.nodes();
            proof {
                lemma_node_at_path(before, word@.take(idx));
                assert(node_ok(before, current as int));
                assert(is_symbol(word@[idx]));
            }
            current = self.get_or_create_child(current, c);
            proof {
                assert(word@.take(idx + 1) =~= word@.take(idx).push(c));
                lemma_walk_push(self.nodes(), 0, word@.take(idx), c);
            }
        }
        let ghost before = self.nodes();
        proof {
            assert(word@.take(word@.len() as int) =~= word@);
            assert(subtree_freq(before, current as int) <= self.total_freq());
        }
        self.nodes[current].is_terminal = true;
        self.nodes[current].freq = self.nodes[current].freq + freq;
        self.total = self.total + freq;
        proof {
            let after = self.nodes();
            let t = current as int;
            assert(marks_terminal(before, after, t, freq as nat));
            assert forall|j: int| 0 <= j < before.len() implies same_links(
                #[trigger] after[j],
                before[j],
            ) by {
                if j != t {
                    assert(after[j] == before[j]);
                }
            }
            assert forall|j: int| 0 <= j < before.len() && !(#[trigger] after[j]).is_terminal
                implies after[j].freq == 0 by {
                assert(node_ok(before, j));
                if j != t {
                    assert(after[j] == before[j]);
                }
            }
            lemma_shape_wf(before, after);
            assert forall|j: int| 0 <= j < after.len() implies subtree_freq(after, j)
                <= self.total_freq() by {
                lemma_mark_subtree_freq(before, after, word@, t, freq as nat, j);
            }
            lemma_mark_subtree_freq(before, after, word@, t, freq as nat, 0);
            assert(word@.take(0) =~= Seq::<char>::empty());
            assert forall|other: Seq<char>| self.has(other) == (old(self).has(other) || other
                == word@) by {
                lemma_mark_words(before, after, word@, t, freq as nat, other);
            }
            assert forall|other: Seq<char>|
                self.freq_of(other) == old(self).freq_of(other) + if other == word@ {
                    freq as nat
                } else {
                    0nat
                } by {
                lemma_mark_words(before, after, word@, t, freq as nat, other);
            }
        }
    }

    /// Adds each of `items` with frequency 1.
#[verifier::rlimit(40)]
    pub fn add_all(&mut self, items: &[&str])
        requires
            old(self).wf(),
            !old(self).is_built(),
            forall|k: int|
                0 <= k < items@.len() ==> is_word((#[trigger] items@[k])@) && items@[k]@.len()
                    <= u32::MAX,
            old(self).total_freq() + items@.len() <= u64::MAX,
        ensures
            final(self).wf(),
            !final(self).is_built(),
            final(self).total_freq() == old(self).total_freq() + items@.len(),
            forall|word: Seq<char>|
                final(self).has(word) == (old(self).has(word) || views(items@).contains(word)),
            forall|word: Seq<char>|
                final(self).freq_of(word) == old(self).freq_of(word) + occurrences(
                    views(items@),
                    word,
                ),
    {
        let n = items.len();
        let mut i: usize = 0;
        while i < n
            invariant
                n == items@.len(),
                i <= n,
                self.wf(),
                !self.is_built(),
                forall|k: int|
                    0 <= k < items@.len() ==> is_word((#[trigger] items@[k])@) && items@[k]@.len()
                        <= u32::MAX,
                old(self).total_freq() + items@.len() <= u64::MAX,
                self.total_freq() == old(self).total_freq() + i,
                forall|word: Seq<char>|
                    self.has(word) == (old(self).has(word) || views(items@).take(i as int).contains(
                        word,
                    )),
                forall|word: Seq<char>|
                    self.freq_of(word) == old(self).freq_of(word) + occurrences(
                        views(items@).take(i as int),
                        word,
                    ),
            decreases n - i,
        {
            let ghost before = *self;
            self.add(items[i]);
            proof {
                let all = views(items@);
                let done = all.take(i as int);
                let more = all.take(i + 1);
                assert(more.drop_last() =~= done);
                assert(more.last() == items@[i as int]@);
                assert forall|word: Seq<char>|
                    self.has(word) == (old(self).has(word) || more.contains(word)) by {
                    if done.contains(word) {
                        let k = choose|k: int| 0 <= k < done.len() && done[k] == word;
                        assert(more[k] == word);
                    }
                    if more.contains(word) {
                        let k = choose|k: int| 0 <= k < more.len() && more[k] == word;
                        if k < i {
                            assert(done[k] == word);
                        }
                    }
                    if word == items@[i as int]@ {
                        assert(more[i as int] == word);
                    }
                }
            }
            i = i + 1;
        }
        proof {
            assert(views(items@).take(n as int) =~= views(items@));
        }
    }

    /// Gives every node its weight, the frequencies of the node and of all
    /// below it, and its table of next children. It goes through the arena
    /// from the back, so that children come before their parents.
#[verifier::rlimit(40)]
    fn decorate(&mut self)
        requires
            old(self).wf(),
        ensures
            final(self).wf(),
            final(self).is_built() == old(self).is_built(),
            final(self).total_freq() == old(self).total_freq(),
            same_shape(old(self).nodes(), final(self).nodes()),
            decorated(final(self).nodes()),
    {
        let ghost orig = self.nodes();
        let n = self.nodes.len();
        let mut i: usize = n;
        while i > 0
            invariant
                i <= n,
                n == orig.len(),
                wf_nodes(orig),
                same_shape(orig, self.nodes()),
                self.built == old(self).built,
                self.total == old(self).total,
                forall|j: int| 0 <= j < n ==> subtree_freq(orig, j) <= u64::MAX,
                forall|j: int|
                    i <= j < n ==> (#[trigger] self.nodes()[j]).weight == subtree_freq(orig, j),
                forall|j: int| i <= j < n ==> next_child_ok(self.nodes(), j),
            decreases i,
        {
            i = i - 1;
            let next_child = build_next_child(&self.nodes[i].children);
            let mut weight: u64 = self.nodes[i].freq;
            let mut slot: usize = 0;
            proof {
                assert(same_links(self.nodes()[i as int], orig[i as int]));
                assert(node_ok(orig, i as int));
            }
            while slot < 27
                invariant
                    slot <= 27,
                    i < n,
                    n == orig.len(),
                    n == self.nodes().len(),
                    wf_nodes(orig),
                    same_shape(orig, self.nodes()),
                    subtree_freq(orig, i as int) <= u64::MAX,
                    forall|j: int|
                        i < j < n ==> (#[trigger] self.nodes()[j]).weight == subtree_freq(orig, j),
                    weight == orig[i as int].freq + children_freq(orig, i as int, slot as int),
                decreases 27 - slot,
            {
                proof {
                    assert(same_links(self.nodes()[i as int], orig[i as int]));
                    assert(node_ok(orig, i as int));
                    assert(slot_ok(orig, i as int, slot as int));
                    lemma_children_freq_grows(orig, i as int, slot + 1);
                }
                match self.nodes[i].children[slot] {
                    Some(child) => {
                        assert(self.nodes()[child as int].weight == subtree_freq(
                            orig,
                            child as int,
                        ));
                        weight = weight + self.nodes[child].weight;
                    },
                    None => {},
                }
                slot = slot + 1;
            }
            let ghost before = self.nodes();
            self.nodes[i].weight = weight;
            self.nodes[i].next_child = next_child;
            proof {
                let after = self.nodes();
                assert forall|j: int| 0 <= j < n implies {
                    &&& same_links(#[trigger] after[j], orig[j])
                    &&& after[j].is_terminal == orig[j].is_terminal
                    &&& after[j].freq == orig[j].freq
                } by {
                    assert(same_links(before[j], orig[j]));
                    if j != i {
                        assert(after[j] == before[j]);
                    }
                }
                assert forall|j: int| i <= j < n implies (#[trigger] after[j]).weight
                    == subtree_freq(orig, j) by {
                    if j != i {
                        assert(after[j] == before[j]);
                        assert(before[j].weight == subtree_freq(orig, j));
                    }
                }
                assert forall|j: int| i <= j < n implies next_child_ok(after, j) by {
                    if j != i {
                        assert(after[j] == before[j]);
                        assert(next_child_ok(before, j));
                    }
                }
            }
        }
        proof {
            let after = self.nodes();
            assert forall|j: int| 0 <= j < n && !(#[trigger] after[j]).is_terminal implies after[j].freq
                == 0 by {
                assert(node_ok(orig, j));
                assert(same_links(after[j], orig[j]));
            }
            assert forall|j: int| 0 <= j < n implies same_links(#[trigger] after[j], orig[j]) by {}
            lemma_shape_wf(orig, after);
            assert forall|j: int| 0 <= j < n implies subtree_freq(after, j) == subtree_freq(
                orig,
                j,
            ) by {
                lemma_shape_subtree_freq(orig, after, j);
            }
            assert forall|j: int| 0 <= j < n implies weight_ok(after, j) by {
                lemma_child_weights(after, orig, j, 27);
                assert(after[j].weight == subtree_freq(orig, j));
                assert(same_links(after[j], orig[j]));
            }
        }
    }

    /// Copies the nodes into the frozen trie.
    fn make_immutable(&self, immutable: &mut ImmutableTrie)
        ensures
            final(immutable).nodes() == self.nodes(),
    {
        let n = self.nodes.len();
        let mut copy: Vec<TrieNode> = Vec::with_capacity(n);
        let mut i: usize = 0;
        while i < n
            invariant
                n == self.nodes@.len(),
                i <= n,
                copy@ == self.nodes@.take(i as int),
            decreases n - i,
        {
            copy.push(self.nodes[i].duplicate());
            proof {
                assert(self.nodes@.take(i + 1) =~= self.nodes@.take(i as int).push(
                    self.nodes@[i as int],
                ));
            }
            i = i + 1;
        }
        proof {
            assert(self.nodes@.take(n as int) =~= self.nodes@);
        }
        immutable.nodes = copy;
    }

    /// Freezes the trie: decorates every node with its weight and its table
    /// of next children, and copies the result into `immutable`. The words
    /// and their frequencies stay as they are. It may be called again;
    /// nothing may be added afterwards.
    pub fn build(&mut self, immutable: &mut ImmutableTrie)
        requires
            old(self).wf(),
        ensures
            freezes(*old(self), *final(self)),
            same_shape(old(self).nodes(), final(self).nodes()),
            final(immutable).nodes() == final(self).nodes(),
            final(immutable).wf(),
            final(immutable).is_built(),
            forall|word: Seq<char>| final(immutable).has(word) == old(self).has(word),
            forall|word: Seq<char>| final(immutable).freq_of(word) == old(self).freq_of(word),
    {
        self.decorate();
        self.built = true;
        self.make_immutable(immutable);
        proof {
            assert forall|word: Seq<char>| self.has(word) == old(self).has(word) by {
                lemma_shape_words(old(self).nodes(), self.nodes(), word);
            }
            assert forall|word: Seq<char>| self.freq_of(word) == old(self).freq_of(word) by {
                lemma_shape_words(old(self).nodes(), self.nodes(), word);
            }
        }
    }

    /// The node that `word` leads to, if the trie has that path.
    pub fn get_node(&self, word: &str) -> (found: Option<usize>)
        requires
            self.wf(),
            self.is_built(),
        ensures
            match found {
                Some(i) => node_at(self.nodes(), word@) == Some(i as int) && i < self.nodes().len(),
                None => node_at(self.nodes(), word@) is None,
            },
    {
        find_node(&self.nodes, word)
    }

    /// Whether `word` has been added.
    pub fn contains(&self, word: &str) -> (found: bool)
        requires
            self.wf(),
            self.is_built(),
        ensures
            found == self.has(word@),
    {
        match find_node(&self.nodes, word) {
            Some(i) => self.nodes[i].is_terminal,
            None => false,
        }
    }

    /// The arena of nodes, for the searches.
    pub fn arena(&self) -> (nodes: &Vec<TrieNode>)
        ensures
            nodes@ == self.nodes(),
    {
        &self.nodes
    }
}

/// The words of the string slices, in their order.
pub open spec fn views(items: Seq<&str>) -> Seq<Seq<char>> {
    Seq::new(items.len(), |k: int| items[k]@)
}

impl ImmutableTrie {
    /// The nodes of the trie, the root first; none before a trie was built
    /// into it.
    pub closed spec fn nodes(&self) -> Seq<TrieNode> {
        self.nodes@
    }

    /// Whether a trie has been built into this one.
    pub open spec fn is_built(&self) -> bool {
        self.nodes().len() > 0
    }

    /// Once built, the nodes form a trie and each is decorated.
    pub open spec fn wf(&self) -> bool {
        self.is_built() ==> wf_nodes(self.nodes()) && decorated(self.nodes())
    }

    /// Whether `word` is in the trie.
    pub open spec fn has(&self, word: Seq<char>) -> bool {
        self.is_built() && has_word(self.nodes(), word)
    }

    /// The frequency of `word`: 0 where it is not in the trie.
    pub open spec fn freq_of(&self, word: Seq<char>) -> nat {
        if self.is_built() {
            word_freq(self.nodes(), word)
        } else {
            0
        }
    }

    /// A frozen trie into which nothing has been built yet.
    pub fn new() -> (trie: ImmutableTrie)
        ensures
            !trie.is_built(),
            trie.wf(),
    {
        ImmutableTrie { nodes: Vec::new() }
    }

    /// Whether a trie has been built into this one.
    pub fn built(&self) -> (b: bool)
        ensures
            b == self.is_built(),
    {
        self.nodes.len() > 0
    }

    /// Whether `word` is in the trie.
    pub fn contains(&self, word: &str) -> (found: bool)
        requires
            self.wf(),
            self.is_built(),
        ensures
            found == self.has(word@),
    {
        match find_node(&self.nodes, word) {
            Some(i) => self.nodes[i].is_terminal,
            None => false,
        }
    }

    /// The arena of nodes, for the searches.
    pub fn arena(&self) -> (nodes: &Vec<TrieNode>)
        ensures
            nodes@ == self.nodes(),
    {
        &self.nodes
    }
}

/// `after` is `before` with `word` added with frequency `freq`.
pub open spec fn adds(before: Trie, after: Trie, word: Seq<char>, freq: nat) -> bool {
    &&& after.wf()
    &&& !after.is_built()
    &&& after.total_freq() == before.total_freq() + freq
    &&& forall|other: Seq<char>| after.has(other) == (before.has(other) || other == word)
    &&& forall|other: Seq<char>|
        after.freq_of(other) == before.freq_of(other) + if other == word {
            freq
        } else {
            0
        }
}

/// `after` is `before` built: frozen, with the words and frequencies it had.
pub open spec fn freezes(before: Trie, after: Trie) -> bool {
    &&& after.wf()
    &&& after.is_built()
    &&& after.total_freq() == before.total_freq()
    &&& forall|word: Seq<char>| after.has(word) == before.has(word)
    &&& forall|word: Seq<char>| after.freq_of(word) == before.freq_of(word)
}

/// The frequencies with which `word` occurs among `words`, added up.
pub open spec fn added_freq(words: Seq<Seq<char>>, freqs: Seq<nat>, word: Seq<char>) -> nat
    decreases words.len(),
{
    if words.len() == 0 || freqs.len() != words.len() {
        0
    } else {
        added_freq(words.drop_last(), freqs.drop_last(), word) + if words.last() == word {
            freqs.last()
        } else {
            0
        }
    }
}

/// After any sequence of insertions into an empty trie, and its build, the
/// trie has a word if and only if the word was inserted, and with the
/// frequencies of its insertions added up. `tries` are the tries between
/// the insertions, the empty one first.
pub proof fn lemma_contains_iff_inserted(
    tries: Seq<Trie>,
    built: Trie,
    words: Seq<Seq<char>>,
    freqs: Seq<nat>,
    word: Seq<char>,
)
    requires
        tries.len() == words.len() + 1,
        freqs.len() == words.len(),
        forall|other: Seq<char>| !tries[0].has(other) && tries[0].freq_of(other) == 0,
        forall|i: int|
            0 <= i < words.len() ==> adds(#[trigger] tries[i], tries[i + 1], words[i], freqs[i]),
        freezes(tries.last(), built),
    ensures
        built.has(word) == words.contains(word),
        built.freq_of(word) == added_freq(words, freqs, word),
{
    lemma_inserted(tries, words, freqs, word);
}

proof fn lemma_inserted(
    tries: Seq<Trie>,
    words: Seq<Seq<char>>,
    freqs: Seq<nat>,
    word: Seq<char>,
)
    requires
        tries.len() == words.len() + 1,
        freqs.len() == words.len(),
        forall|other: Seq<char>| !tries[0].has(other) && tries[0].freq_of(other) == 0,
        forall|i: int|
            0 <= i < words.len() ==> adds(#[trigger] tries[i], tries[i + 1], words[i], freqs[i]),
    ensures
        tries.last().has(word) == words.contains(word),
        tries.last().freq_of(word) == added_freq(words, freqs, word),
    decreases words.len(),
{
    if words.len() > 0 {
        let n = words.len() as int;
        let fewer = words.drop_last();
        assert forall|i: int| 0 <= i < fewer.len() implies adds(
            #[trigger] tries.drop_last()[i],
            tries.drop_last()[i + 1],
            fewer[i],
            freqs.drop_last()[i],
        ) by {
            assert(adds(tries[i], tries[i + 1], words[i], freqs[i]));
        }
        lemma_inserted(tries.drop_last(), fewer, freqs.drop_last(), word);
        assert(adds(tries[n - 1], tries[n], words[n - 1], freqs[n - 1]));
        assert(tries.drop_last().last() == tries[n - 1]);
        if fewer.contains(word) {
            let k = choose|k: int| 0 <= k < fewer.len() && fewer[k] == word;
            assert(words[k] == word);
        }
        if words.contains(word) {
            let k = choose|k: int| 0 <= k < words.len() && words[k] == word;
            if k < n - 1 {
                assert(fewer[k] == word);
            }
        }
    }
}

impl ImmutableTrie {
    /// The weight of every node is its own frequency and the weights of its
    /// children, and so the frequencies of the node and of all below it.
    pub proof fn lemma_weight(&self, i: int)
        requires
            self.wf(),
            self.is_built(),
            0 <= i < self.nodes().len(),
        ensures
            self.nodes()[i].weight == self.nodes()[i].freq + child_weights(self.nodes(), i, 27),
            self.nodes()[i].weight == subtree_freq(self.nodes(), i),
    {
        lemma_weight_is_subtree_freq(self.nodes(), i);
        assert(weight_ok(self.nodes(), i));
    }

    /// The table of next children of every node names, for each slot, the
    /// smallest greater slot that has a child, or none where no greater
    /// slot has one.
    pub proof fn lemma_next_child(&self, i: int, slot: int)
        requires
            self.wf(),
            self.is_built(),
            0 <= i < self.nodes().len(),
            0 <= slot < 27,
        ensures
            match self.nodes()[i].next_child[slot] {
                Some(next) => {
                    &&& slot < next < 27
                    &&& self.nodes()[i].children[next as int] is Some
                    &&& forall|between: int|
                        slot < between < next ==> self.nodes()[i].children[between] is None
                },
                None => forall|above: int|
                    slot < above < 27 ==> self.nodes()[i].children[above] is None,
            },
    {
        assert(next_child_ok(self.nodes(), i));
        crate::wordlist::trie::iterators::lemma_next_present(self.nodes()[i].children@, slot);
    }
}

/// In a decorated trie the weight of a node is the frequencies below it,
/// added up.
pub proof fn lemma_weight_is_subtree_freq(nodes: Seq<TrieNode>, i: int)
    requires
        wf_nodes(nodes),
        decorated(nodes),
        0 <= i < nodes.len(),
    ensures
        nodes[i].weight == subtree_freq(nodes, i),
    decreases nodes.len() - i,
{
    assert forall|j: int| i < j < nodes.len() implies nodes[j].weight == subtree_freq(
        nodes,
        j,
    ) by {
        lemma_weight_is_subtree_freq(nodes, j);
    }
    lemma_child_weights(nodes, nodes, i, 27);
    assert(weight_ok(nodes, i));
}

} // verus!
