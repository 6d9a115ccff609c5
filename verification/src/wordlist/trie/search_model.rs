//! What a search is to find: the results of a trie under given options and a
//! starting cursor, and what the items of its queue stand for.

use vstd::prelude::*;
use crate::wordlist::trie::cursor::{lemma_run_prefix, lemma_run_push, run, StateT};
use crate::wordlist::trie::growth::{lemma_trail, lemma_walk_prefix, trail_node};
use crate::wordlist::trie::iterators::present_from;
use crate::wordlist::trie::node::{
    child_at, lemma_node_at_path, lemma_walk_push, node_at, node_ok, slot_ok, wf_nodes, TrieNode,
};
use crate::wordlist::trie::searchconfig::SearchConfig;
use crate::alphabet::{is_symbol, lemma_slot_symbol, slot_symbol, symbol_slot};

verus! {

/// The paths of the nodes `idxs`, in their order.
pub open spec fn paths(nodes: Seq<TrieNode>, idxs: Seq<usize>) -> Seq<Seq<char>> {
    Seq::new(idxs.len(), |k: int| nodes[idxs[k] as int].path@)
}

/// The letters of the words, one word after the other.
pub open spec fn letters(words: Seq<Seq<char>>) -> Seq<char>
    decreases words.len(),
{
    if words.len() == 0 {
        Seq::empty()
    } else {
        letters(words.drop_last()) + words.last()
    }
}

/// The words with one space between each two.
pub open spec fn join(words: Seq<Seq<char>>) -> Seq<char>
    decreases words.len(),
{
    if words.len() == 0 {
        Seq::empty()
    } else if words.len() == 1 {
        words[0]
    } else {
        join(words.drop_last()) + seq![' '] + words.last()
    }
}

/// The trie has the path of `word`, and no node on it below the root weighs
/// less than `prune_freq`: a search under `config` can walk it.
pub open spec fn path_ok(nodes: Seq<TrieNode>, config: SearchConfig, word: Seq<char>) -> bool {
    &&& node_at(nodes, word) is Some
    &&& forall|j: int|
        1 <= j <= word.len() ==> nodes[#[trigger] trail_node(nodes, word, j)].weight
            >= config.prune_freq
}

/// A search under `config` can end a word of a result with `word`: it can
/// walk its path, the word is in the trie, and it is long enough.
pub open spec fn split_ok(nodes: Seq<TrieNode>, config: SearchConfig, word: Seq<char>) -> bool {
    &&& path_ok(nodes, config, word)
    &&& nodes[node_at(nodes, word)->0].is_terminal
    &&& word.len() >= config.min_word_len
}

/// A search under `config` can end a result with `word`: it can end a word
/// with it, and its frequency is above `prune_freq`.
pub open spec fn final_ok(nodes: Seq<TrieNode>, config: SearchConfig, word: Seq<char>) -> bool {
    &&& split_ok(nodes, config, word)
    &&& nodes[node_at(nodes, word)->0].freq > config.prune_freq
}

/// `words` is a result of the search of the trie under `config` from the
/// cursor `start`: at least one word and no more spaces than allowed, each
/// word one that the search can end a word with, the last one that it can
/// end a result with, and the cursor, taken through the letters of all the
/// words, accepts.
pub open spec fn is_result<C: StateT>(
    nodes: Seq<TrieNode>,
    config: SearchConfig,
    start: C::V,
    words: Seq<Seq<char>>,
) -> bool {
    &&& words.len() >= 1
    &&& words.len() - 1 <= config.space_limit()
    &&& forall|k: int| 0 <= k < words.len() - 1 ==> split_ok(nodes, config, #[trigger] words[k])
    &&& final_ok(nodes, config, words.last())
    &&& match run::<C>(start, letters(words)) {
        Some(v) => C::accepting(v),
        None => false,
    }
}

/// `words` has the shape of a result of a search of the trie under
/// `config`: at least one word and no more spaces than allowed, each word
/// one that the search can end a word with, the last one that it can end a
/// result with.
pub open spec fn shape_ok(nodes: Seq<TrieNode>, config: SearchConfig, words: Seq<Seq<char>>) -> bool {
    &&& words.len() >= 1
    &&& words.len() - 1 <= config.space_limit()
    &&& forall|k: int| 0 <= k < words.len() - 1 ==> split_ok(nodes, config, #[trigger] words[k])
    &&& final_ok(nodes, config, words.last())
}

/// `words` is a result of the search of the trie under `config` for what
/// `ok` holds of: it has the shape of a result, and `ok` holds of its
/// letters.
pub open spec fn is_match(
    nodes: Seq<TrieNode>,
    config: SearchConfig,
    ok: spec_fn(Seq<char>) -> bool,
    words: Seq<Seq<char>>,
) -> bool {
    shape_ok(nodes, config, words) && ok(letters(words))
}

/// A result of a search from a cursor is a result of the search for what
/// the cursor accepts.
pub proof fn lemma_result_is_match<C: StateT>(
    nodes: Seq<TrieNode>,
    config: SearchConfig,
    start: C::V,
    ok: spec_fn(Seq<char>) -> bool,
    words: Seq<Seq<char>>,
)
    requires
        ok(letters(words)) <==> crate::wordlist::trie::cursor::cursor_accepts::<C>(
            start,
            letters(words),
        ),
    ensures
        is_result::<C>(nodes, config, start, words) <==> is_match(nodes, config, ok, words),
{
}

/// The letters of two lists of words, one after the other.
pub proof fn lemma_letters_add(a: Seq<Seq<char>>, b: Seq<Seq<char>>)
    ensures
        letters(a + b) == letters(a) + letters(b),
    decreases b.len(),
{
    if b.len() == 0 {
        assert(a + b =~= a);
        assert(letters(a) + letters(b) =~= letters(a));
    } else {
        lemma_letters_add(a, b.drop_last());
        assert((a + b).drop_last() =~= a + b.drop_last());
        assert((a + b).last() == b.last());
        assert(letters(a) + (letters(b.drop_last()) + b.last()) =~= (letters(a) + letters(
            b.drop_last(),
        )) + b.last());
    }
}

/// The letters of a list of words: those of the first `k`, those of the next
/// word, and those of the rest.
pub proof fn lemma_letters_split(words: Seq<Seq<char>>, k: int)
    requires
        0 <= k < words.len(),
    ensures
        letters(words) == letters(words.take(k)) + words[k] + letters(words.skip(k + 1)),
        letters(words.take(k + 1)) == letters(words.take(k)) + words[k],
{
    assert(words.take(k + 1).drop_last() =~= words.take(k));
    assert(words.take(k + 1).last() == words[k]);
    assert(words =~= words.take(k + 1) + words.skip(k + 1));
    lemma_letters_add(words.take(k + 1), words.skip(k + 1));
}

/// The path of a child is walkable where that of its parent is and the
/// child weighs enough.
pub proof fn lemma_path_ok_child(
    nodes: Seq<TrieNode>,
    config: SearchConfig,
    node: int,
    slot: int,
    child: usize,
)
    requires
        wf_nodes(nodes),
        0 <= node < nodes.len(),
        0 <= slot < 27,
        node_at(nodes, nodes[node].path@) == Some(node),
        path_ok(nodes, config, nodes[node].path@),
        nodes[node].children[slot] == Some(child),
        nodes[child as int].weight >= config.prune_freq,
    ensures
        node < child < nodes.len(),
        nodes[child as int].path@ == nodes[node].path@.push(slot_symbol(slot)),
        node_at(nodes, nodes[child as int].path@) == Some(child as int),
        path_ok(nodes, config, nodes[child as int].path@),
{
    let cur = nodes[node].path@;
    let x = slot_symbol(slot);
    let next = cur.push(x);
    assert(node_ok(nodes, node));
    assert(slot_ok(nodes, node, slot));
    lemma_slot_symbol(slot);
    lemma_walk_push(nodes, 0, cur, x);
    assert(child_at(nodes, node, slot) == Some(child as int));
    assert forall|j: int| 1 <= j <= next.len() implies nodes[#[trigger] trail_node(
        nodes,
        next,
        j,
    )].weight >= config.prune_freq by {
        if j <= cur.len() {
            assert(next.take(j) =~= cur.take(j));
            assert(trail_node(nodes, next, j) == trail_node(nodes, cur, j));
        } else {
            assert(next.take(j) =~= next);
        }
    }
}

/// Where a search can walk the path of `word`, it can walk from the node of
/// each proper prefix to a child: the child in the slot of the next letter
/// is there, and weighs enough.
pub proof fn lemma_path_ok_step(
    nodes: Seq<TrieNode>,
    config: SearchConfig,
    word: Seq<char>,
    node: int,
)
    requires
        wf_nodes(nodes),
        path_ok(nodes, config, word),
        0 <= node < nodes.len(),
        nodes[node].path@.len() < word.len(),
        word.take(nodes[node].path@.len() as int) == nodes[node].path@,
        node_at(nodes, nodes[node].path@) == Some(node),
    ensures
        is_symbol(word[nodes[node].path@.len() as int]),
        0 <= symbol_slot(word[nodes[node].path@.len() as int]) < 27,
        nodes[node].children[symbol_slot(word[nodes[node].path@.len() as int])] is Some,
        ({
            let child = nodes[node].children[symbol_slot(
                word[nodes[node].path@.len() as int],
            )]->0 as int;
            &&& node < child < nodes.len()
            &&& nodes[child].weight >= config.prune_freq
            &&& nodes[child].path@ == nodes[node].path@.push(word[nodes[node].path@.len() as int])
            &&& nodes[child].path@ == word.take(nodes[node].path@.len() as int + 1)
        }),
{
    let n = nodes[node].path@.len() as int;
    lemma_trail(nodes, word, n);
    lemma_trail(nodes, word, n + 1);
    crate::alphabet::lemma_symbol_slot(word[n]);
    assert(trail_node(nodes, word, n) == node);
    let child = trail_node(nodes, word, n + 1);
    assert(nodes[child].weight >= config.prune_freq);
    assert(node_ok(nodes, node));
    assert(slot_ok(nodes, node, symbol_slot(word[n])));
    assert(word.take(n + 1) =~= word.take(n).push(word[n]));
}

/// The options `config` with `prune_freq` set to `prune_freq`.
pub open spec fn with_prune(config: SearchConfig, prune_freq: u64) -> SearchConfig {
    SearchConfig {
        max_results: config.max_results,
        max_length: config.max_length,
        space_penalty: config.space_penalty,
        spaces_allowed: config.spaces_allowed,
        min_word_len: config.min_word_len,
        prune_freq,
    }
}

/// Pruning only takes results away: what has the shape of a result under a
/// `prune_freq` has it under every lower one.
pub proof fn lemma_prune_shape(
    nodes: Seq<TrieNode>,
    config: SearchConfig,
    words: Seq<Seq<char>>,
    lower: u64,
)
    requires
        shape_ok(nodes, config, words),
        lower <= config.prune_freq,
    ensures
        shape_ok(nodes, with_prune(config, lower), words),
{
    let eased = with_prune(config, lower);
    assert(eased.space_limit() == config.space_limit());
    assert forall|word: Seq<char>| path_ok(nodes, config, word) implies path_ok(
        nodes,
        eased,
        word,
    ) by {
        assert forall|j: int| 1 <= j <= word.len() implies nodes[#[trigger] trail_node(
            nodes,
            word,
            j,
        )].weight >= eased.prune_freq by {
            assert(nodes[trail_node(nodes, word, j)].weight >= config.prune_freq);
        }
    }
    assert forall|k: int| 0 <= k < words.len() - 1 implies split_ok(
        nodes,
        eased,
        #[trigger] words[k],
    ) by {
        assert(split_ok(nodes, config, words[k]));
    }
}

} // verus!
