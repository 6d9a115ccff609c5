//! The best-first search of the frozen trie: what its queue holds, and the
//! step that takes one item from the queue and puts its successors there.

use vstd::prelude::*;
use vstd::string::StringExecFns;
use crate::alphabet::{is_symbol, lemma_slot_symbol, lemma_symbol_slot, symbol_slot};
use crate::wordlist::trie::cursor::{lemma_run_prefix, lemma_run_push, run, StateT};
use crate::wordlist::trie::iterators::{lemma_present_has, lemma_present_slot, present_from, table_ok};
use crate::wordlist::trie::node::{
    decorated, lemma_root_path, next_child_ok, node_at, node_ok, slot_ok, wf_nodes, TrieNode,
};
use crate::wordlist::trie::search_model::{
    final_ok, is_result, join, lemma_letters_split, lemma_path_ok_child, lemma_path_ok_step,
    letters, path_ok, paths, split_ok,
};
use crate::wordlist::trie::searchconfig::SearchConfig;

verus! {

/// A node of the trie with the score that orders it in the queue.
pub struct OrderedTrieNode {
    /// The score.
    pub val: i64,
    /// The index of the node.
    pub node: usize,
}

/// Where a search stands in a result of several words.
pub struct SearchState {
    /// The number of words that are complete.
    pub num_spaces: u32,
    /// The number of letters of the word in progress.
    pub current_word_len: u32,
    /// The nodes at which the complete words end, in their order.
    pub prev_words: Vec<usize>,
    /// The number of letters of all words so far; it stops at the greatest
    /// `u32`.
    pub total_len: u32,
    /// What the complete words have cost the score; it stops at the bounds
    /// of `i64`.
    pub prev_penalty: i64,
}

/// An item of the queue of a search: a node with its score, the state of the
/// result in progress, and the cursor.
pub struct QItem<C: StateT>(pub OrderedTrieNode, pub SearchState, pub C);

impl<C: StateT> crate::wordlist::trie::concurrent_pq::QItem for QItem<C> {
    open spec fn score_spec(&self) -> i64 {
        self.0.val
    }

    fn score(&self) -> (s: i64) {
        self.0.val
    }
}

/// `x`, or the bound of `i64` that it lies beyond.
pub open spec fn clamp(x: int) -> i64 {
    if x > i64::MAX {
        i64::MAX
    } else if x < i64::MIN {
        i64::MIN
    } else {
        x as i64
    }
}

/// The score of a node of weight `weight` for a search in state `state`: the
/// letters so far times the weight, less what the complete words have cost.
pub open spec fn score_of(weight: u64, state: SearchState) -> i64 {
    clamp(state.total_len * weight - state.prev_penalty)
}

/// The score with which a search re-enters the root for a further word.
pub open spec fn root_score_of(weight: u64, state: SearchState, penalty: i64) -> i64 {
    clamp(score_of(weight, state) - penalty)
}

fn clamp_to_i64(x: i128) -> (r: i64)
    ensures
        r == clamp(x as int),
{
    if x > i64::MAX as i128 {
        i64::MAX
    } else if x < i64::MIN as i128 {
        i64::MIN
    } else {
        x as i64
    }
}

/// The score of a node of weight `weight` for a search in state `state`.
pub fn score(weight: u64, state: &SearchState) -> (s: i64)
    ensures
        s == score_of(weight, *state),
{
    let total: i128 = state.total_len as i128;
    let w: i128 = weight as i128;
    assert(0 <= total * w <= 0xffff_ffff * 0xffff_ffff_ffff_ffff) by (nonlinear_arith)
        requires
            0 <= total <= 0xffff_ffff,
            0 <= w <= 0xffff_ffff_ffff_ffff,
    ;
    clamp_to_i64(total * w - state.prev_penalty as i128)
}

/// The score with which a search re-enters the root for a further word.
pub fn root_score(weight: u64, state: &SearchState, penalty: i64) -> (s: i64)
    ensures
        s == root_score_of(weight, *state, penalty),
{
    clamp_to_i64(score(weight, state) as i128 - penalty as i128)
}

impl OrderedTrieNode {
    /// The node `node` with the score `val`.
    pub fn order(node: usize, val: i64) -> (ordered: OrderedTrieNode)
        ensures
            ordered.node == node,
            ordered.val == val,
    {
        OrderedTrieNode { val, node }
    }
}

impl SearchState {
    /// The state at the start of a search: no word, no letter.
    pub fn new() -> (state: SearchState)
        ensures
            state.num_spaces == 0,
            state.current_word_len == 0,
            state.prev_words@ == Seq::<usize>::empty(),
            state.total_len == 0,
            state.prev_penalty == 0,
    {
        SearchState {
            num_spaces: 0,
            current_word_len: 0,
            prev_words: Vec::new(),
            total_len: 0,
            prev_penalty: 0,
        }
    }

    /// The state after the word in progress has ended at `node`, a node of
    /// frequency `freq`: one more complete word, no letter of the next, and
    /// the penalty raised by that of a space less the frequency.
    pub fn new_word(&self, node: usize, freq: u64, config: &SearchConfig) -> (next: SearchState)
        requires
            config.space_penalty is Some,
            self.num_spaces < u32::MAX,
        ensures
            next.num_spaces == self.num_spaces + 1,
            next.current_word_len == 0,
            next.prev_words@ == self.prev_words@.push(node),
            next.total_len == self.total_len,
            next.prev_penalty == clamp(self.prev_penalty + config.space_penalty->0 - freq),
    {
        let mut prev_words = self.prev_words.clone();
        prev_words.push(node);
        let penalty = config.space_penalty.unwrap();
        SearchState {
            num_spaces: self.num_spaces + 1,
            current_word_len: 0,
            prev_words,
            total_len: self.total_len,
            prev_penalty: clamp_to_i64(self.prev_penalty as i128 + penalty as i128 - freq as i128),
        }
    }

    /// The state after one more letter of the word in progress.
    pub fn same_word(&self) -> (next: SearchState)
        requires
            self.current_word_len < u32::MAX,
        ensures
            next.num_spaces == self.num_spaces,
            next.current_word_len == self.current_word_len + 1,
            next.prev_words@ == self.prev_words@,
            next.total_len == if self.total_len < u32::MAX {
                (self.total_len + 1) as u32
            } else {
                u32::MAX
            },
            next.prev_penalty == self.prev_penalty,
    {
        SearchState {
            num_spaces: self.num_spaces,
            current_word_len: self.current_word_len + 1,
            prev_words: self.prev_words.clone(),
            total_len: if self.total_len < u32::MAX {
                self.total_len + 1
            } else {
                u32::MAX
            },
            prev_penalty: self.prev_penalty,
        }
    }
}

/// What holds of every item in the queue of a search of `nodes` under
/// `config` from the cursor `start`: its node is one that the search can
/// walk to, its complete words are ones that the search can end a word
/// with, and its cursor is the starting one taken through all its letters.
pub open spec fn item_ok<C: StateT>(
    nodes: Seq<TrieNode>,
    config: SearchConfig,
    start: C::V,
    item: QItem<C>,
) -> bool {
    let node = item.0.node as int;
    let state = item.1;
    &&& 0 <= node < nodes.len()
    &&& node_at(nodes, nodes[node].path@) == Some(node)
    &&& path_ok(nodes, config, nodes[node].path@)
    &&& state.current_word_len == nodes[node].depth
    &&& state.num_spaces == state.prev_words@.len()
    &&& state.prev_words@.len() <= config.space_limit()
    &&& forall|k: int|
        0 <= k < state.prev_words@.len() ==> (#[trigger] state.prev_words@[k]) < nodes.len()
            && split_ok(nodes, config, nodes[state.prev_words@[k] as int].path@)
    &&& item.2.wf()
    &&& run::<C>(start, letters(paths(nodes, state.prev_words@)) + nodes[node].path@) == Some(
        item.2@,
    )
}

/// The words that an item stands for: its complete words and the path of
/// its node.
pub open spec fn composed<C: StateT>(nodes: Seq<TrieNode>, item: QItem<C>) -> Seq<Seq<char>> {
    paths(nodes, item.1.prev_words@).push(nodes[item.0.node as int].path@)
}

/// Whether the item is a result as it stands.
pub open spec fn emits<C: StateT>(nodes: Seq<TrieNode>, config: SearchConfig, item: QItem<C>) -> bool {
    let node = nodes[item.0.node as int];
    &&& node.is_terminal
    &&& node.freq > config.prune_freq
    &&& item.1.current_word_len >= config.min_word_len
    &&& C::accepting(item.2@)
}

/// Whether `words` goes on from the item: its first words are the complete
/// words of the item, and the next begins with the path of its node.
pub open spec fn covers<C: StateT>(
    nodes: Seq<TrieNode>,
    item: QItem<C>,
    words: Seq<Seq<char>>,
) -> bool {
    let k = item.1.prev_words@.len() as int;
    let cur = nodes[item.0.node as int].path@;
    &&& k < words.len()
    &&& paths(nodes, item.1.prev_words@) == words.take(k)
    &&& cur.len() <= words[k].len()
    &&& words[k].take(cur.len() as int) == cur
}

/// A bound on the number of items that a search puts into its queue for
/// node `i` and all that comes of it, with `spaces` further words allowed.
pub open spec fn rank(nodes: Seq<TrieNode>, i: int, spaces: nat) -> nat
    decreases spaces, nodes.len() - i, present_from(nodes[i].children@, 0).len() + 1,
{
    if 0 <= i < nodes.len() {
        1 + kids_rank(nodes, i, spaces, present_from(nodes[i].children@, 0).len() as int) + if spaces
            > 0 {
            rank(nodes, 0, (spaces - 1) as nat)
        } else {
            0
        }
    } else {
        0
    }
}

/// The ranks of the first `upto` children of node `i`, added up.
pub open spec fn kids_rank(nodes: Seq<TrieNode>, i: int, spaces: nat, upto: int) -> nat
    decreases spaces, nodes.len() - i, upto,
{
    if upto <= 0 || !(0 <= i < nodes.len()) || upto > present_from(nodes[i].children@, 0).len() {
        0
    } else {
        let c = present_from(nodes[i].children@, 0)[upto - 1] as int;
        kids_rank(nodes, i, spaces, upto - 1) + if i < c < nodes.len() {
            rank(nodes, c, spaces)
        } else {
            0
        }
    }
}

/// The rank of an item: that of its node, with the words that it may still
/// begin.
pub open spec fn item_rank<C: StateT>(nodes: Seq<TrieNode>, config: SearchConfig, item: QItem<C>) -> nat {
    rank(
        nodes,
        item.0.node as int,
        (config.space_limit() - item.1.prev_words@.len()) as nat,
    )
}

/// The ranks of the items, added up.
pub open spec fn rank_sum<C: StateT>(
    nodes: Seq<TrieNode>,
    config: SearchConfig,
    items: Seq<QItem<C>>,
) -> nat
    decreases items.len(),
{
    if items.len() == 0 {
        0
    } else {
        rank_sum(nodes, config, items.drop_last()) + item_rank(nodes, config, items.last())
    }
}

/// The result string of an item: its complete words and the path of its
/// node, with one space between each two.
pub fn compose(nodes: &Vec<TrieNode>, state: &SearchState, node: usize) -> (s: String)
    requires
        node < nodes@.len(),
        forall|k: int|
            0 <= k < state.prev_words@.len() ==> (#[trigger] state.prev_words@[k]) < nodes@.len(),
    ensures
        s@ == join(paths(nodes@, state.prev_words@).push(nodes@[node as int].path@)),
{
    let ghost words = paths(nodes@, state.prev_words@);
    let mut s = String::new();
    let n = state.prev_words.len();
    let mut k: usize = 0;
    while k < n
        invariant
            k <= n,
            n == state.prev_words@.len(),
            words == paths(nodes@, state.prev_words@),
            forall|j: int|
                0 <= j < state.prev_words@.len() ==> (#[trigger] state.prev_words@[j])
                    < nodes@.len(),
            s@ == if k == 0 {
                Seq::<char>::empty()
            } else {
                join(words.take(k as int)) + seq![' ']
            },
        decreases n - k,
    {
        let i = state.prev_words[k];
        s.append(nodes[i].path.as_str());
        s.push(' ');
        proof {
            let next = words.take(k + 1);
            assert(next.drop_last() =~= words.take(k as int));
            assert(next.last() == nodes@[i as int].path@);
            if k == 0 {
                assert(Seq::<char>::empty() + nodes@[i as int].path@ =~= nodes@[i as int].path@);
            }
            assert(s@ =~= join(next) + seq![' ']);
        }
        k = k + 1;
    }
    s.append(nodes[node].path.as_str());
    proof {
        let all = words.push(nodes@[node as int].path@);
        assert(all.drop_last() =~= words);
        assert(words.take(n as int) =~= words);
        if n == 0 {
            assert(Seq::<char>::empty() + nodes@[node as int].path@ =~= nodes@[node as int].path@);
        }
        assert(s@ =~= join(all));
    }
    s
}

/// The successor `next` of the item is the one for the child `child`.
pub open spec fn child_succ<C: StateT>(item: QItem<C>, child: usize, next: QItem<C>) -> bool {
    next.0.node == child && next.1.prev_words@ == item.1.prev_words@
}

/// The successor `next` of the item is the one that begins a further word.
pub open spec fn split_succ<C: StateT>(item: QItem<C>, next: QItem<C>) -> bool {
    next.0.node == 0 && next.1.prev_words@ == item.1.prev_words@.push(item.0.node)
}

/// Whether the search goes on from the item to the child `child` of its
/// node: the child weighs enough, and its letter does not end the branch.
pub open spec fn wants_child<C: StateT>(
    nodes: Seq<TrieNode>,
    config: SearchConfig,
    item: QItem<C>,
    child: usize,
) -> bool {
    nodes[child as int].weight >= config.prune_freq && C::step(
        item.2@,
        nodes[child as int].letter,
    ) is Some
}

/// Whether the search begins a further word after the item: its node ends a
/// word that is long enough, and a further space is allowed.
pub open spec fn wants_split<C: StateT>(
    nodes: Seq<TrieNode>,
    config: SearchConfig,
    item: QItem<C>,
) -> bool {
    &&& nodes[item.0.node as int].is_terminal
    &&& item.1.prev_words@.len() < config.space_limit()
    &&& item.1.current_word_len >= config.min_word_len
}

/// `next` is like the successor of the item for a child of its node.
pub open spec fn child_like<C: StateT>(nodes: Seq<TrieNode>, item: QItem<C>, next: QItem<C>) -> bool {
    &&& next.1.prev_words@ == item.1.prev_words@
    &&& exists|slot: int|
        0 <= slot < 27 && #[trigger] nodes[item.0.node as int].children[slot] == Some(next.0.node)
}

/// `next` is like a successor of the item: the one for a child of its
/// node, or the one that begins a further word.
pub open spec fn succ_of<C: StateT>(nodes: Seq<TrieNode>, item: QItem<C>, next: QItem<C>) -> bool {
    child_like(nodes, item, next) || split_succ(item, next)
}

/// The successor `next` of the item for a child of its node carries what
/// it is to carry: the score of the child for the state of the item, the
/// state after one more letter, and the cursor after the letter of the
/// child.
pub open spec fn child_scored<C: StateT>(nodes: Seq<TrieNode>, item: QItem<C>, next: QItem<C>) -> bool {
    let child = nodes[next.0.node as int];
    &&& next.0.val == score_of(child.weight, item.1)
    &&& next.1.num_spaces == item.1.num_spaces
    &&& next.1.current_word_len == item.1.current_word_len + 1
    &&& next.1.total_len == if item.1.total_len < u32::MAX {
        (item.1.total_len + 1) as u32
    } else {
        u32::MAX
    }
    &&& next.1.prev_penalty == item.1.prev_penalty
    &&& C::step(item.2@, child.letter) == Some(next.2@)
}

/// The successor `next` of the item that begins a further word carries
/// what it is to carry: the score of the root for the state of the item
/// less the penalty of a space, the state after the word, and the cursor
/// of the item.
pub open spec fn split_scored<C: StateT>(
    nodes: Seq<TrieNode>,
    config: SearchConfig,
    item: QItem<C>,
    next: QItem<C>,
) -> bool {
    &&& config.space_penalty is Some
    &&& next.0.val == root_score_of(nodes[0].weight, item.1, config.space_penalty->0)
    &&& next.1.num_spaces == item.1.num_spaces + 1
    &&& next.1.current_word_len == 0
    &&& next.1.total_len == item.1.total_len
    &&& next.1.prev_penalty == clamp(
        item.1.prev_penalty + config.space_penalty->0 - nodes[item.0.node as int].freq,
    )
    &&& next.2@ == item.2@
}

/// What goes on from a successor of an item goes on from the item, and is
/// not the item as it stands.
pub proof fn lemma_succ_narrows<C: StateT>(
    nodes: Seq<TrieNode>,
    item: QItem<C>,
    next: QItem<C>,
    words: Seq<Seq<char>>,
)
    requires
        wf_nodes(nodes),
        item.0.node < nodes.len(),
        succ_of(nodes, item, next),
        covers(nodes, next, words),
    ensures
        covers(nodes, item, words),
        words != composed(nodes, item),
{
    let k = item.1.prev_words@.len() as int;
    let node = item.0.node as int;
    let cur = nodes[node].path@;
    assert(node_ok(nodes, node));
    if child_like(nodes, item, next) {
        let slot = choose|slot: int|
            0 <= slot < 27 && #[trigger] nodes[node].children[slot] == Some(next.0.node);
        assert(slot_ok(nodes, node, slot));
        let longer = nodes[next.0.node as int].path@;
        assert(words[k].take(cur.len() as int) =~= longer.take(cur.len() as int));
        assert(longer.take(cur.len() as int) =~= cur);
        if words == composed(nodes, item) {
            assert(words[k] == cur);
        }
    } else {
        lemma_paths_push(nodes, item.1.prev_words@, item.0.node);
        let more = paths(nodes, item.1.prev_words@).push(cur);
        assert(words.take(k + 1) == more);
        assert(words.take(k) =~= more.take(k));
        assert(more.take(k) =~= paths(nodes, item.1.prev_words@));
        assert(words[k] == words.take(k + 1)[k]);
        assert(words[k] == cur);
        assert(words[k].take(cur.len() as int) =~= cur);
        if words == composed(nodes, item) {
            assert(words.len() == k + 1);
        }
    }
}

/// Nothing goes on from two successors of an item at different nodes.
pub proof fn lemma_succ_apart<C: StateT>(
    nodes: Seq<TrieNode>,
    item: QItem<C>,
    one: QItem<C>,
    other: QItem<C>,
    words: Seq<Seq<char>>,
)
    requires
        wf_nodes(nodes),
        item.0.node < nodes.len(),
        succ_of(nodes, item, one),
        succ_of(nodes, item, other),
        one.0.node != other.0.node,
    ensures
        !(covers(nodes, one, words) && covers(nodes, other, words)),
{
    let k = item.1.prev_words@.len() as int;
    let node = item.0.node as int;
    let cur = nodes[node].path@;
    assert(node_ok(nodes, node));
    if covers(nodes, one, words) && covers(nodes, other, words) {
        if child_like(nodes, item, one) && child_like(nodes, item, other) {
            let s1 = choose|slot: int|
                0 <= slot < 27 && #[trigger] nodes[node].children[slot] == Some(one.0.node);
            let s2 = choose|slot: int|
                0 <= slot < 27 && #[trigger] nodes[node].children[slot] == Some(other.0.node);
            assert(slot_ok(nodes, node, s1));
            assert(slot_ok(nodes, node, s2));
            let left = nodes[one.0.node as int].path@;
            let right = nodes[other.0.node as int].path@;
            assert(words[k].take(left.len() as int)[cur.len() as int] == left[cur.len() as int]);
            assert(words[k].take(right.len() as int)[cur.len() as int] == right[cur.len() as int]);
            lemma_slot_symbol(s1);
            lemma_slot_symbol(s2);
        } else if child_like(nodes, item, one) {
            lemma_succ_narrows(nodes, item, other, words);
            let s1 = choose|slot: int|
                0 <= slot < 27 && #[trigger] nodes[node].children[slot] == Some(one.0.node);
            assert(slot_ok(nodes, node, s1));
            lemma_split_word(nodes, item, other, words);
        } else if child_like(nodes, item, other) {
            let s2 = choose|slot: int|
                0 <= slot < 27 && #[trigger] nodes[node].children[slot] == Some(other.0.node);
            assert(slot_ok(nodes, node, s2));
            lemma_split_word(nodes, item, one, words);
        }
    }
}

/// What goes on from the successor of an item that begins a further word
/// has the path of the item as its word at the place of the item.
proof fn lemma_split_word<C: StateT>(
    nodes: Seq<TrieNode>,
    item: QItem<C>,
    next: QItem<C>,
    words: Seq<Seq<char>>,
)
    requires
        split_succ(item, next),
        covers(nodes, next, words),
    ensures
        item.1.prev_words@.len() + 1 < words.len(),
        words[item.1.prev_words@.len() as int] == nodes[item.0.node as int].path@,
{
    let k = item.1.prev_words@.len() as int;
    lemma_paths_push(nodes, item.1.prev_words@, item.0.node);
    let more = paths(nodes, item.1.prev_words@).push(nodes[item.0.node as int].path@);
    assert(words.take(k + 1) == more);
    assert(words[k] == words.take(k + 1)[k]);
}

/// An item goes on to what it stands for.
pub proof fn lemma_covers_own<C: StateT>(nodes: Seq<TrieNode>, item: QItem<C>)
    ensures
        covers(nodes, item, composed(nodes, item)),
{
    let words = composed(nodes, item);
    let k = item.1.prev_words@.len() as int;
    let cur = nodes[item.0.node as int].path@;
    assert(words.take(k) =~= paths(nodes, item.1.prev_words@));
    assert(words[k].take(cur.len() as int) =~= cur);
}

/// The paths of one more node are one more path.
proof fn lemma_paths_push(nodes: Seq<TrieNode>, idxs: Seq<usize>, i: usize)
    ensures
        paths(nodes, idxs.push(i)) == paths(nodes, idxs).push(nodes[i as int].path@),
{
    assert(paths(nodes, idxs.push(i)) =~= paths(nodes, idxs).push(nodes[i as int].path@));
}

/// An item that is a result as it stands stands for a result.
pub proof fn lemma_emits_result<C: StateT>(
    nodes: Seq<TrieNode>,
    config: SearchConfig,
    start: C::V,
    item: QItem<C>,
)
    requires
        wf_nodes(nodes),
        item_ok(nodes, config, start, item),
        emits(nodes, config, item),
    ensures
        is_result::<C>(nodes, config, start, composed(nodes, item)),
{
    let words = composed(nodes, item);
    let prev = paths(nodes, item.1.prev_words@);
    let node = item.0.node as int;
    assert(words.drop_last() =~= prev);
    assert(node_ok(nodes, node));
    assert forall|k: int| 0 <= k < words.len() - 1 implies split_ok(
        nodes,
        config,
        #[trigger] words[k],
    ) by {
        assert(item.1.prev_words@[k] < nodes.len());
    }
}

/// Every result that goes on from an item is the item as it stands or goes
/// on from one of its successors, where those are all that the search wants.
#[verifier::rlimit(40)]
pub proof fn lemma_cover<C: StateT>(
    nodes: Seq<TrieNode>,
    config: SearchConfig,
    start: C::V,
    item: QItem<C>,
    kids: Seq<usize>,
    out: Seq<QItem<C>>,
    words: Seq<Seq<char>>,
)
    requires
        wf_nodes(nodes),
        item_ok(nodes, config, start, item),
        is_result::<C>(nodes, config, start, words),
        covers(nodes, item, words),
        kids == present_from(nodes[item.0.node as int].children@, 0),
        forall|j: int|
            0 <= j < kids.len() && wants_child(nodes, config, item, #[trigger] kids[j])
                ==> exists|m: int| 0 <= m < out.len() && child_succ(item, kids[j], #[trigger] out[m]),
        wants_split(nodes, config, item) ==> exists|m: int|
            0 <= m < out.len() && split_succ(item, #[trigger] out[m]),
    ensures
        (emits(nodes, config, item) && words == composed(nodes, item)) || exists|m: int|
            0 <= m < out.len() && covers(nodes, #[trigger] out[m], words),
{
    let k = item.1.prev_words@.len() as int;
    let node = item.0.node as int;
    let cur = nodes[node].path@;
    let word = words[k];
    let prev = paths(nodes, item.1.prev_words@);
    lemma_letters_split(words, k);
    assert(node_ok(nodes, node));
    if k == words.len() - 1 {
        assert(final_ok(nodes, config, word));
    } else {
        assert(split_ok(nodes, config, word));
    }
    if cur.len() == word.len() {
        assert(word.take(cur.len() as int) =~= word);
        if k == words.len() - 1 {
            assert(words.skip(k + 1) =~= Seq::<Seq<char>>::empty());
            assert(letters(words) =~= letters(prev) + cur);
            assert(words =~= composed(nodes, item));
        } else {
            assert(wants_split(nodes, config, item));
            let m = choose|m: int| 0 <= m < out.len() && split_succ(item, #[trigger] out[m]);
            lemma_paths_push(nodes, item.1.prev_words@, item.0.node);
            assert(words.take(k + 1) =~= words.take(k).push(word));
            lemma_root_path(nodes);
            assert(words[k + 1].take(0) =~= Seq::<char>::empty());
            assert(covers(nodes, out[m], words));
        }
    } else {
        let x = word[cur.len() as int];
        lemma_path_ok_step(nodes, config, word, node);
        let slot = symbol_slot(x);
        let child = nodes[node].children[slot]->0;
        lemma_present_has(nodes[node].children@, 0, slot);
        let j = choose|j: int| 0 <= j < kids.len() && kids[j] == child;
        assert(slot_ok(nodes, node, slot));
        lemma_symbol_slot(x);
        assert(nodes[child as int].letter == x);
        // the cursor survives the letter, for it survives the whole result
        let sofar = letters(prev) + cur;
        let all = letters(words);
        assert(all.take(sofar.len() as int + 1) =~= sofar.push(x)) by {
            assert(all =~= letters(prev) + word + letters(words.skip(k + 1)));
        }
        lemma_run_prefix::<C>(start, all, sofar.len() as int + 1);
        lemma_run_push::<C>(start, sofar, x);
        assert(wants_child(nodes, config, item, kids[j]));
        let m = choose|m: int| 0 <= m < out.len() && child_succ(item, kids[j], #[trigger] out[m]);
        assert(covers(nodes, out[m], words)) by {
            assert(word.take(cur.len() as int + 1).len() <= word.len());
            assert(word.take(nodes[child as int].path@.len() as int) =~= nodes[child as int].path@);
        }
    }
}

/// The ranks of the first children are no more than those of all.
proof fn lemma_kids_rank_grows(nodes: Seq<TrieNode>, i: int, spaces: nat, upto: int)
    requires
        0 <= i < nodes.len(),
        0 <= upto <= present_from(nodes[i].children@, 0).len(),
    ensures
        kids_rank(nodes, i, spaces, upto) <= kids_rank(
            nodes,
            i,
            spaces,
            present_from(nodes[i].children@, 0).len() as int,
        ),
    decreases present_from(nodes[i].children@, 0).len() - upto,
{
    if upto < present_from(nodes[i].children@, 0).len() {
        lemma_kids_rank_grows(nodes, i, spaces, upto + 1);
    }
}

/// What holds of each successor of an item for a child of its node.
#[verifier::opaque]
pub open spec fn child_ok<C: StateT>(
    nodes: Seq<TrieNode>,
    config: SearchConfig,
    start: C::V,
    item: QItem<C>,
    next: QItem<C>,
) -> bool {
    &&& item_ok(nodes, config, start, next)
    &&& next.0.node > 0
    &&& child_like(nodes, item, next)
    &&& wants_child(nodes, config, item, next.0.node)
    &&& child_scored(nodes, item, next)
}

/// The item is one of a search of `nodes`, a trie.
#[verifier::opaque]
pub open spec fn expandable<C: StateT>(
    nodes: Seq<TrieNode>,
    config: SearchConfig,
    start: C::V,
    item: QItem<C>,
) -> bool {
    wf_nodes(nodes) && item_ok(nodes, config, start, item)
}

/// The successor of an item for the child `c` of its node, where the child
/// weighs no less than `prune_freq` and the cursor survives its letter.
#[verifier::rlimit(40)]
fn child_successor<C: StateT>(
    nodes: &Vec<TrieNode>,
    config: &SearchConfig,
    item: &QItem<C>,
    c: usize,
    Ghost(slot): Ghost<int>,
    Ghost(start): Ghost<C::V>,
) -> (next: Option<QItem<C>>)
    requires
        expandable(nodes@, *config, start, *item),
        0 <= slot < 27,
        nodes@[item.0.node as int].children[slot] == Some(c),
    ensures
        item.0.node < c < nodes@.len(),
        next is Some <==> wants_child(nodes@, *config, *item, c),
        next matches Some(z) ==> {
            &&& child_succ(*item, c, z)
            &&& child_ok(nodes@, *config, start, *item, z)
            &&& item_rank(nodes@, *config, z) == rank(
                nodes@,
                c as int,
                (config.space_limit() - item.1.prev_words@.len()) as nat,
            )
        },
{
    reveal(expandable);
    reveal(child_ok);
    let node_idx = item.0.node;
    let node = &nodes[node_idx];
    let state = &item.1;
    let cursor = &item.2;
    proof {
        assert(node_ok(nodes@, node_idx as int));
        assert(slot_ok(nodes@, node_idx as int, slot));
        lemma_slot_symbol(slot);
    }
    let child = &nodes[c];
    if config.prune_freq <= child.weight {
        match cursor.keep_going(child.letter) {
            Some(new_cursor) => {
                let next = QItem(
                    OrderedTrieNode::order(c, score(child.weight, state)),
                    state.same_word(),
                    new_cursor,
                );
                proof {
                    lemma_path_ok_child(nodes@, *config, node_idx as int, slot, c);
                    lemma_run_push::<C>(
                        start,
                        letters(paths(nodes@, state.prev_words@)) + node.path@,
                        child.letter,
                    );
                    assert((letters(paths(nodes@, state.prev_words@)) + node.path@).push(
                        child.letter,
                    ) =~= letters(paths(nodes@, state.prev_words@)) + child.path@);
                    assert(item_ok(nodes@, *config, start, next));
                    assert(child_like(nodes@, *item, next));
                }
                Some(next)
            },
            None => None,
        }
    } else {
        None
    }
}

/// No child of a node of a trie sits in two of its slots.
proof fn lemma_children_distinct(nodes: Seq<TrieNode>, node: int)
    requires
        wf_nodes(nodes),
        0 <= node < nodes.len(),
    ensures
        forall|s: int, t: int|
            0 <= s < t < nodes[node].children@.len() && nodes[node].children@[s] is Some
                ==> nodes[node].children@[s] != nodes[node].children@[t],
{
    assert forall|s: int, t: int|
        0 <= s < t < nodes[node].children@.len() && nodes[node].children@[s] is Some
        implies nodes[node].children@[s] != nodes[node].children@[t] by {
        assert(node_ok(nodes, node));
        assert(slot_ok(nodes, node, s));
        assert(slot_ok(nodes, node, t));
        if nodes[node].children@[s] == nodes[node].children@[t] {
            lemma_slot_symbol(s);
            lemma_slot_symbol(t);
        }
    }
}

/// The successors of an item for the children of its node: one for each
/// child, in the order of the slots, that weighs no less than `prune_freq`
/// and whose letter the cursor survives.
#[verifier::rlimit(40)]
fn child_successors<C: StateT>(
    nodes: &Vec<TrieNode>,
    config: &SearchConfig,
    item: &QItem<C>,
    Ghost(start): Ghost<C::V>,
) -> (out: Vec<QItem<C>>)
    requires
        wf_nodes(nodes@),
        decorated(nodes@),
        item_ok(nodes@, *config, start, *item),
    ensures
        forall|m: int|
            0 <= m < out@.len() ==> child_ok(nodes@, *config, start, *item, #[trigger] out@[m]),
        forall|a: int, b: int|
            0 <= a < b < out@.len() ==> (#[trigger] out@[a]).0.node != (#[trigger] out@[b]).0.node,
        forall|i: int|
            0 <= i < present_from(nodes@[item.0.node as int].children@, 0).len() && wants_child(
                nodes@,
                *config,
                *item,
                #[trigger] present_from(nodes@[item.0.node as int].children@, 0)[i],
            ) ==> exists|m: int|
                0 <= m < out@.len() && child_succ(
                    *item,
                    present_from(nodes@[item.0.node as int].children@, 0)[i],
                    #[trigger] out@[m],
                ),
        rank_sum(nodes@, *config, out@) <= kids_rank(
            nodes@,
            item.0.node as int,
            (config.space_limit() - item.1.prev_words@.len()) as nat,
            present_from(nodes@[item.0.node as int].children@, 0).len() as int,
        ),
{
    let node_idx = item.0.node;
    let node = &nodes[node_idx];
    let ghost spaces = (config.space_limit() - item.1.prev_words@.len()) as nat;
    let ghost children = nodes@[node_idx as int].children@;
    proof {
        assert(node_ok(nodes@, node_idx as int));
        assert(next_child_ok(nodes@, node_idx as int));
        assert(expandable(nodes@, *config, start, *item)) by {
            reveal(expandable);
        }
    }
    let kids = node.present_children();
    let mut out: Vec<QItem<C>> = Vec::new();
    let mut j: usize = 0;
    let ghost mut origin: Seq<int> = Seq::empty();
    while j < kids.len()
        invariant
            j <= kids@.len(),
            origin.len() == out@.len(),
            forall|m: int| 0 <= m < origin.len() ==> 0 <= #[trigger] origin[m] < j,
            forall|a: int, b: int| 0 <= a < b < origin.len() ==> #[trigger] origin[a] < #[trigger] origin[b],
            forall|m: int| 0 <= m < out@.len() ==> (#[trigger] out@[m]).0.node == kids@[origin[m]],
            expandable(nodes@, *config, start, *item),
            node_idx == item.0.node,
            node_idx < nodes@.len(),
            children == nodes@[node_idx as int].children@,
            children.len() == 27,
            kids@ == present_from(children, 0),
            spaces == (config.space_limit() - item.1.prev_words@.len()) as nat,
            forall|m: int|
                0 <= m < out@.len() ==> child_ok(nodes@, *config, start, *item, #[trigger] out@[m]),
            forall|i: int|
                0 <= i < j && wants_child(nodes@, *config, *item, #[trigger] kids@[i])
                    ==> exists|m: int| 0 <= m < out@.len() && child_succ(*item, kids@[i], #[trigger] out@[m]),
            rank_sum(nodes@, *config, out@) <= kids_rank(nodes@, node_idx as int, spaces, j as int),
        decreases kids@.len() - j,
    {
        let c = kids[j];
        let ghost slot = lemma_present_slot(children, 0, j as int);
        let ghost before = out@;
        match child_successor(nodes, config, item, c, Ghost(slot), Ghost(start)) {
            Some(next) => {
                proof {
                    assert(out@.push(next).drop_last() =~= out@);
                    origin = origin.push(j as int);
                }
                out.push(next);
            },
            None => {},
        }
        proof {
            assert forall|i: int|
                0 <= i < j + 1 && wants_child(nodes@, *config, *item, #[trigger] kids@[i]) implies exists|
                m: int,
            | 0 <= m < out@.len() && child_succ(*item, kids@[i], #[trigger] out@[m]) by {
                if i < j {
                    let m = choose|m: int|
                        0 <= m < before.len() && child_succ(*item, kids@[i], #[trigger] before[m]);
                    assert(out@[m] == before[m]);
                } else {
                    assert(child_succ(*item, kids@[i], out@[out@.len() - 1]));
                }
            }
        }
        j = j + 1;
    }
    proof {
        lemma_children_distinct(nodes@, node_idx as int);
        assert forall|a: int, b: int| 0 <= a < b < out@.len() implies (#[trigger] out@[a]).0.node
            != (#[trigger] out@[b]).0.node by {
            assert(origin[a] < origin[b]);
            crate::wordlist::trie::iterators::lemma_present_distinct(
                children,
                0,
                origin[a],
                origin[b],
            );
        }
    }
    out
}

/// The successor of an item that begins a further word at the root, where
/// the node of the item ends a word that is long enough and a further space
/// is allowed.
#[verifier::rlimit(40)]
fn split_successor<C: StateT>(
    nodes: &Vec<TrieNode>,
    config: &SearchConfig,
    item: &QItem<C>,
    Ghost(start): Ghost<C::V>,
) -> (next: Option<QItem<C>>)
    requires
        wf_nodes(nodes@),
        decorated(nodes@),
        item_ok(nodes@, *config, start, *item),
    ensures
        next is Some <==> wants_split(nodes@, *config, *item),
        next matches Some(z) ==> item_ok(nodes@, *config, start, z) && split_succ(*item, z)
            && split_scored(nodes@, *config, *item, z),
{
    let node_idx = item.0.node;
    let node = &nodes[node_idx];
    let state = &item.1;
    let cursor = &item.2;
    proof {
        assert(node_ok(nodes@, node_idx as int));
    }
    let long_enough = state.current_word_len as usize >= config.min_word_len;
    if node.is_terminal && long_enough && state.num_spaces < u32::MAX && (state.num_spaces as usize)
        < config.spaces_allowed {
        match config.space_penalty {
            Some(penalty) => {
                let next = QItem(
                    OrderedTrieNode::order(0, root_score(nodes[0].weight, state, penalty)),
                    state.new_word(node_idx, node.freq, config),
                    cursor.duplicate(),
                );
                proof {
                    lemma_root_path(nodes@);
                    lemma_paths_push(nodes@, state.prev_words@, node_idx);
                    let prev = paths(nodes@, state.prev_words@);
                    assert(prev.push(node.path@).drop_last() =~= prev);
                    assert(letters(prev.push(node.path@)) + Seq::<char>::empty() =~= letters(prev)
                        + node.path@);
                    assert(node_at(nodes@, Seq::<char>::empty()) == Some(0int));
                    assert(item_ok(nodes@, *config, start, next));
                }
                Some(next)
            },
            None => None,
        }
    } else {
        None
    }
}

/// What comes of one item of the queue: the result string, where the item
/// is a result as it stands, and the items that the search puts into the
/// queue in its place. Those are one for each child of the node, in the
/// order of the slots, that weighs no less than `prune_freq` and whose
/// letter the cursor survives; and, where the node ends a word that is long
/// enough and a further space is allowed, one that begins a further word at
/// the root.
#[verifier::rlimit(40)]
pub fn expand<C: StateT>(
    nodes: &Vec<TrieNode>,
    config: &SearchConfig,
    item: &QItem<C>,
    Ghost(start): Ghost<C::V>,
) -> (out: (Option<String>, Vec<QItem<C>>))
    requires
        wf_nodes(nodes@),
        decorated(nodes@),
        item_ok(nodes@, *config, start, *item),
    ensures
        out.0 is Some <==> emits(nodes@, *config, *item),
        out.0 matches Some(s) ==> s@ == join(composed(nodes@, *item)),
        emits(nodes@, *config, *item) ==> is_result::<C>(
            nodes@,
            *config,
            start,
            composed(nodes@, *item),
        ),
        forall|m: int| 0 <= m < out.1@.len() ==> item_ok(nodes@, *config, start, #[trigger] out.1@[m]),
        forall|words: Seq<Seq<char>>|
            is_result::<C>(nodes@, *config, start, words) && #[trigger] covers(nodes@, *item, words)
                ==> (emits(nodes@, *config, *item) && words == composed(nodes@, *item))
                || exists|m: int| 0 <= m < out.1@.len() && covers(nodes@, #[trigger] out.1@[m], words),
        rank_sum(nodes@, *config, out.1@) < item_rank(nodes@, *config, *item),
        forall|m: int| 0 <= m < out.1@.len() ==> succ_of(nodes@, *item, #[trigger] out.1@[m]),
        forall|a: int, b: int|
            0 <= a < b < out.1@.len() ==> (#[trigger] out.1@[a]).0.node != (#[trigger] out.1@[b]).0.node,
        forall|m: int|
            0 <= m < out.1@.len() ==> if (#[trigger] out.1@[m]).0.node == 0 {
                wants_split(nodes@, *config, *item) && split_scored(
                    nodes@,
                    *config,
                    *item,
                    out.1@[m],
                )
            } else {
                wants_child(nodes@, *config, *item, out.1@[m].0.node) && child_scored(
                    nodes@,
                    *item,
                    out.1@[m],
                )
            },
        forall|slot: int|
            0 <= slot < 27 && (#[trigger] nodes@[item.0.node as int].children[slot]) is Some
                && wants_child(
                nodes@,
                *config,
                *item,
                nodes@[item.0.node as int].children[slot]->0,
            ) ==> exists|m: int|
                0 <= m < out.1@.len() && child_succ(
                    *item,
                    nodes@[item.0.node as int].children[slot]->0,
                    #[trigger] out.1@[m],
                ),
        wants_split(nodes@, *config, *item) ==> exists|m: int|
            0 <= m < out.1@.len() && split_succ(*item, #[trigger] out.1@[m]),
{
    let node_idx = item.0.node;
    let node = &nodes[node_idx];
    let state = &item.1;
    let cursor = &item.2;
    let ghost spaces = (config.space_limit() - state.prev_words@.len()) as nat;
    let ghost kids = present_from(nodes@[node_idx as int].children@, 0);
    proof {
        assert(node_ok(nodes@, node_idx as int));
    }
    let long_enough = state.current_word_len as usize >= config.min_word_len;
    let mut result: Option<String> = None;
    if node.is_terminal && node.freq > config.prune_freq && long_enough && cursor.accept() {
        result = Some(compose(nodes, state, node_idx));
        proof {
            lemma_emits_result::<C>(nodes@, *config, start, *item);
        }
    }
    let mut out = child_successors(nodes, config, item, Ghost(start));
    let ghost after_kids = out@;
    proof {
        lemma_kids_rank_grows(nodes@, node_idx as int, spaces, kids.len() as int);
    }
    match split_successor(nodes, config, item, Ghost(start)) {
        Some(next) => {
            proof {
                assert(out@.push(next).drop_last() =~= out@);
            }
            out.push(next);
        },
        None => {},
    }
    proof {
        reveal(child_ok);
        assert forall|m: int| 0 <= m < out@.len() implies item_ok(
            nodes@,
            *config,
            start,
            #[trigger] out@[m],
        ) && succ_of(nodes@, *item, out@[m]) && if out@[m].0.node == 0 {
            wants_split(nodes@, *config, *item) && split_scored(nodes@, *config, *item, out@[m])
        } else {
            wants_child(nodes@, *config, *item, out@[m].0.node) && child_scored(
                nodes@,
                *item,
                out@[m],
            )
        } by {
            if m < after_kids.len() {
                assert(out@[m] == after_kids[m]);
                assert(child_ok(nodes@, *config, start, *item, after_kids[m]));
            }
        }
        assert forall|a: int, b: int| 0 <= a < b < out@.len() implies (#[trigger] out@[a]).0.node
            != (#[trigger] out@[b]).0.node by {
            assert(out@[a] == after_kids[a]);
            assert(child_ok(nodes@, *config, start, *item, after_kids[a]));
            if b < after_kids.len() {
                assert(out@[b] == after_kids[b]);
            }
        }
        assert forall|i: int|
            0 <= i < kids.len() && wants_child(nodes@, *config, *item, #[trigger] kids[i]) implies exists|
            m: int,
        | 0 <= m < out@.len() && child_succ(*item, kids[i], #[trigger] out@[m]) by {
            let m = choose|m: int|
                0 <= m < after_kids.len() && child_succ(*item, kids[i], #[trigger] after_kids[m]);
            assert(out@[m] == after_kids[m]);
        }
        if wants_split(nodes@, *config, *item) {
            assert(split_succ(*item, out@[out@.len() - 1]));
        }
        assert forall|words: Seq<Seq<char>>|
            is_result::<C>(nodes@, *config, start, words) && #[trigger] covers(
                nodes@,
                *item,
                words,
            ) implies (emits(nodes@, *config, *item) && words == composed(nodes@, *item))
            || exists|m: int| 0 <= m < out@.len() && covers(nodes@, #[trigger] out@[m], words) by {
            lemma_cover::<C>(nodes@, *config, start, *item, kids, out@, words);
        }
        assert forall|slot: int|
            0 <= slot < 27 && (#[trigger] nodes@[item.0.node as int].children[slot]) is Some
                && wants_child(
                nodes@,
                *config,
                *item,
                nodes@[item.0.node as int].children[slot]->0,
            ) implies exists|m: int|
            0 <= m < out@.len() && child_succ(
                *item,
                nodes@[item.0.node as int].children[slot]->0,
                #[trigger] out@[m],
            ) by {
            let c = nodes@[item.0.node as int].children[slot]->0;
            lemma_present_has(node.children@, 0, slot);
            let i = choose|i: int| 0 <= i < kids.len() && kids[i] == c;
            assert(wants_child(nodes@, *config, *item, kids[i]));
        }
    }
    let ghost successors = out@;
    let ret = (result, out);
    assert(ret.1@ == successors);
    assert(forall|words: Seq<Seq<char>>|
        is_result::<C>(nodes@, *config, start, words) && #[trigger] covers(nodes@, *item, words)
            ==> (emits(nodes@, *config, *item) && words == composed(nodes@, *item))
            || exists|m: int| 0 <= m < ret.1@.len() && covers(nodes@, #[trigger] ret.1@[m], words));
    ret
}

/// What a search hands its results to: a function of the result and the
/// options that returns `true` to stop the search.
pub trait ResultCallback: FnMut(String, &SearchConfig) -> bool {

}

impl<F: FnMut(String, &SearchConfig) -> bool> ResultCallback for F {

}

/// The item with which a search from the cursor `starting_state` starts: the
/// root, no word, no letter, score 0.
pub fn root_item<C: StateT>(starting_state: C) -> (item: QItem<C>)
    ensures
        item.0.node == 0,
        item.0.val == 0,
        item.1.prev_words@ == Seq::<usize>::empty(),
        item.1.num_spaces == 0,
        item.1.current_word_len == 0,
        item.1.total_len == 0,
        item.1.prev_penalty == 0,
        item.2 == starting_state,
{
    QItem(OrderedTrieNode::order(0, 0), SearchState::new(), starting_state)
}

/// What comes of one item of the queue of a search, as `expand` returns it,
/// for an item of a search from any cursor.
pub fn expand_item<C: StateT>(nodes: &Vec<TrieNode>, config: &SearchConfig, item: &QItem<C>) -> (out:
    (Option<String>, Vec<QItem<C>>))
    requires
        wf_nodes(nodes@),
        decorated(nodes@),
        exists|start: C::V| item_ok(nodes@, *config, start, *item),
    ensures
        out.0 is Some <==> emits(nodes@, *config, *item),
        out.0 matches Some(s) ==> s@ == join(composed(nodes@, *item)),
        exists|start: C::V|
            item_ok(nodes@, *config, start, *item) && forall|m: int|
                0 <= m < out.1@.len() ==> item_ok(nodes@, *config, start, #[trigger] out.1@[m]),
        rank_sum(nodes@, *config, out.1@) < item_rank(nodes@, *config, *item),
{
    let ghost start = choose|start: C::V| item_ok(nodes@, *config, start, *item);
    let out = expand(nodes, config, item, Ghost(start));
    proof {
        assert(item_ok(nodes@, *config, start, *item) && forall|m: int|
            0 <= m < out.1@.len() ==> item_ok(nodes@, *config, start, #[trigger] out.1@[m]));
    }
    out
}

} // verus!
