//! The driver of the best-first search: it keeps the queue, takes one item
//! after the other from it, and hands out the results as it finds them.

use vstd::prelude::*;
use vstd::multiset::Multiset;
use crate::wordlist::trie::concurrent_pq::ConcurrentPQ;
use crate::wordlist::trie::cursor::{run, StateT};
use crate::wordlist::trie::multiset_sum::{lemma_msum_insert, lemma_msum_remove, msum};
use crate::wordlist::trie::multithreaded_search::{
    composed, covers, emits, expand, item_ok, item_rank, lemma_covers_own, lemma_succ_apart,
    lemma_succ_narrows, rank_sum, succ_of, OrderedTrieNode, QItem, SearchState,
};
use crate::wordlist::trie::node::{decorated, lemma_root_path, node_at, wf_nodes, TrieNode};
use crate::wordlist::trie::search_model::{is_result, join, letters, paths};
use crate::wordlist::trie::searchconfig::SearchConfig;

verus! {

/// The rank of the items of a search of `nodes` under `config`.
pub open spec fn rank_fn<C: StateT>(nodes: Seq<TrieNode>, config: SearchConfig) -> spec_fn(
    QItem<C>,
) -> nat {
    |item: QItem<C>| item_rank(nodes, config, item)
}

/// What one step of a search came to.
pub enum Step {
    /// The queue was empty, or the search had been stopped.
    Idle,
    /// An item was taken and was no result.
    Quiet,
    /// An item was taken and was this result.
    Found(String),
}

/// A search in progress: the queue, the trie and the options it goes by,
/// whether it has been stopped, and, for the proofs, the cursor it started
/// from and the results it has found.
pub struct Search<'a, C: StateT> {
    pq: ConcurrentPQ<QItem<C>>,
    nodes: &'a Vec<TrieNode>,
    config: &'a SearchConfig,
    done: bool,
    start: Ghost<C::V>,
    found: Ghost<Seq<Seq<Seq<char>>>>,
}

/// Puts the items of `items` into the queue.
#[verifier::rlimit(40)]
fn refill<C: StateT>(
    pq: &mut ConcurrentPQ<QItem<C>>,
    items: Vec<QItem<C>>,
    Ghost(nodes): Ghost<Seq<TrieNode>>,
    Ghost(config): Ghost<SearchConfig>,
)
    requires
        old(pq).wf(),
    ensures
        final(pq).wf(),
        final(pq).queues() == old(pq).queues(),
        final(pq)@ == old(pq)@.add(items@.to_multiset()),
        msum(final(pq)@, rank_fn::<C>(nodes, config)) == msum(
            old(pq)@,
            rank_fn::<C>(nodes, config),
        ) + rank_sum(nodes, config, items@),
{
    let mut items = items;
    let ghost all = items@;
    let ghost f = rank_fn::<C>(nodes, config);
    while items.len() > 0
        invariant
            pq.wf(),
            pq.queues() == old(pq).queues(),
            f == rank_fn::<C>(nodes, config),
            pq@.add(items@.to_multiset()) == old(pq)@.add(all.to_multiset()),
            msum(pq@, f) + rank_sum(nodes, config, items@) == msum(old(pq)@, f) + rank_sum(
                nodes,
                config,
                all,
            ),
        decreases items@.len(),
    {
        let ghost before = items@;
        let ghost queue = pq@;
        let item = items.pop().unwrap();
        pq.push(item);
        proof {
            broadcast use vstd::multiset::group_multiset_axioms;

            assert(before =~= items@.push(item));
            vstd::seq_lib::to_multiset_build(items@, item);
            lemma_msum_insert(queue, f, item);
            assert(before.drop_last() =~= items@);
            assert(pq@.add(items@.to_multiset()) =~= queue.add(before.to_multiset()));
        }
    }
    proof {
        broadcast use vstd::multiset::group_multiset_axioms;

        items@.to_multiset_ensures();
        assert(items@.to_multiset() =~= Multiset::<QItem<C>>::empty());
        assert(pq@.add(items@.to_multiset()) =~= pq@);
    }
}

impl<'a, C: StateT> Search<'a, C> {
    /// The nodes of the trie that is searched.
    pub closed spec fn nodes(&self) -> Seq<TrieNode> {
        self.nodes@
    }

    /// The options of the search.
    pub closed spec fn config(&self) -> SearchConfig {
        *self.config
    }

    /// The view of the cursor that the search started from.
    pub closed spec fn start(&self) -> C::V {
        self.start@
    }

    /// The results found so far, each as its words, in the order in which
    /// they were found.
    pub closed spec fn found(&self) -> Seq<Seq<Seq<char>>> {
        self.found@
    }

    /// Whether the search has been stopped.
    pub closed spec fn stopped(&self) -> bool {
        self.done
    }

    /// Whether the queue is empty.
    pub closed spec fn exhausted(&self) -> bool {
        self.pq@.len() == 0
    }

    /// A bound on the number of steps that the search has yet to take.
    pub closed spec fn potential(&self) -> nat {
        msum(self.pq@, rank_fn::<C>(self.nodes@, *self.config))
    }

    /// What holds of a search between its steps: every item of the queue is
    /// one of this search, every result found is a result, and, unless the
    /// search has been stopped, every result is found or goes on from an
    /// item of the queue.
    pub closed spec fn inv(&self) -> bool {
        &&& wf_nodes(self.nodes@)
        &&& decorated(self.nodes@)
        &&& self.pq.wf()
        &&& forall|item: QItem<C>| #[trigger]
            self.pq@.contains(item) ==> item_ok(self.nodes@, *self.config, self.start@, item)
        &&& forall|i: int|
            0 <= i < self.found@.len() ==> is_result::<C>(
                self.nodes@,
                *self.config,
                self.start@,
                #[trigger] self.found@[i],
            )
        &&& self.done ==> self.pq@.len() == 0
        &&& self.found@.no_duplicates()
        &&& forall|i: int, item: QItem<C>|
            0 <= i < self.found@.len() && #[trigger] self.pq@.contains(item) ==> !covers(
                self.nodes@,
                item,
                #[trigger] self.found@[i],
            )
        &&& forall|one: QItem<C>, other: QItem<C>, words: Seq<Seq<char>>|
            self.pq@.contains(one) && self.pq@.contains(other) && #[trigger] covers(
                self.nodes@,
                one,
                words,
            ) && #[trigger] covers(self.nodes@, other, words) ==> one == other
        &&& forall|item: QItem<C>| #[trigger] self.pq@.count(item) <= 1
        &&& !self.done ==> forall|words: Seq<Seq<char>>| #[trigger]
            is_result::<C>(self.nodes@, *self.config, self.start@, words) ==> self.found@.contains(
                words,
            ) || exists|item: QItem<C>| #[trigger]
                self.pq@.contains(item) && covers(self.nodes@, item, words)
    }

    /// Every result found is a result.
    pub proof fn lemma_found_sound(&self, i: int)
        requires
            self.inv(),
            0 <= i < self.found().len(),
        ensures
            is_result::<C>(self.nodes(), self.config(), self.start(), self.found()[i]),
    {
    }

    /// No result is found twice.
    pub proof fn lemma_found_once(&self)
        requires
            self.inv(),
        ensures
            self.found().no_duplicates(),
    {
    }

    /// When the queue is empty and the search was not stopped, every result
    /// has been found.
    pub proof fn lemma_found_complete(&self, words: Seq<Seq<char>>)
        requires
            self.inv(),
            self.exhausted(),
            !self.stopped(),
            is_result::<C>(self.nodes(), self.config(), self.start(), words),
        ensures
            self.found().contains(words),
    {
        if !self.found@.contains(words) {
            let item = choose|item: QItem<C>| #[trigger]
                self.pq@.contains(item) && covers(self.nodes@, item, words);
            vstd::multiset::axiom_count_le_len(self.pq@, item);
        }
    }

    /// A search of `nodes` under `config` that starts at the root with the
    /// cursor `starting_state`.
    pub fn new(nodes: &'a Vec<TrieNode>, config: &'a SearchConfig, starting_state: C) -> (search:
        Self)
        requires
            wf_nodes(nodes@),
            decorated(nodes@),
            starting_state.wf(),
        ensures
            search.inv(),
            search.nodes() == nodes@,
            search.config() == *config,
            search.start() == starting_state@,
            search.found() == Seq::<Seq<Seq<char>>>::empty(),
            !search.stopped(),
    {
        let ghost start = starting_state@;
        let item = QItem(OrderedTrieNode::order(0, 0), SearchState::new(), starting_state);
        let mut pq = ConcurrentPQ::new();
        pq.push(item);
        let search = Search {
            pq,
            nodes,
            config,
            done: false,
            start: Ghost(start),
            found: Ghost(Seq::empty()),
        };
        proof {
            broadcast use vstd::multiset::group_multiset_axioms;

            lemma_root_path(nodes@);
            let prev = paths(nodes@, item.1.prev_words@);
            assert(prev =~= Seq::<Seq<char>>::empty());
            assert(letters(prev) + nodes@[0].path@ =~= Seq::<char>::empty());
            assert(node_at(nodes@, Seq::<char>::empty()) == Some(0int));
            assert(crate::wordlist::trie::node::node_ok(nodes@, 0));
            assert(item_ok(nodes@, *config, start, item));
            assert forall|words: Seq<Seq<char>>| #[trigger]
                is_result::<C>(nodes@, *config, start, words) implies exists|other: QItem<C>| #[trigger]
                search.pq@.contains(other) && covers(nodes@, other, words) by {
                assert(words.take(0) =~= prev);
                assert(words[0].take(0) =~= nodes@[0].path@);
                assert(search.pq@.contains(item) && covers(nodes@, item, words));
            }
        }
        search
    }

    /// Stops the search: empties the queue, so that no step finds anything
    /// more.
    pub fn stop(&mut self)
        requires
            old(self).inv(),
        ensures
            final(self).inv(),
            final(self).stopped(),
            final(self).exhausted(),
            final(self).nodes() == old(self).nodes(),
            final(self).config() == old(self).config(),
            final(self).start() == old(self).start(),
            final(self).found() == old(self).found(),
    {
        self.done = true;
        self.pq.clear();
        proof {
            broadcast use vstd::multiset::group_multiset_axioms;

        }
    }

    /// One step of the search. It takes an item from the queue, unless the
    /// search has been stopped or the queue is empty; it puts the successors
    /// of the item into the queue; and it reports the item as a result where
    /// it is one.
#[verifier::rlimit(40)]
    pub fn worker(&mut self) -> (step: Step)
        requires
            old(self).inv(),
        ensures
            final(self).inv(),
            final(self).nodes() == old(self).nodes(),
            final(self).config() == old(self).config(),
            final(self).start() == old(self).start(),
            final(self).stopped() == old(self).stopped(),
            match step {
                Step::Idle => final(self).found() == old(self).found() && final(self).exhausted(),
                Step::Quiet => final(self).found() == old(self).found() && final(self).potential()
                    < old(self).potential(),
                Step::Found(s) => {
                    &&& final(self).found().len() == old(self).found().len() + 1
                    &&& final(self).found().drop_last() == old(self).found()
                    &&& s@ == join(final(self).found().last())
                    &&& final(self).potential() < old(self).potential()
                },
            },
    {
        if self.config.max_results.is_some() && self.done {
            return Step::Idle;
        }
        let ghost queue0 = self.pq@;
        let ghost f = rank_fn::<C>(self.nodes@, *self.config);
        let item = match self.pq.try_pop() {
            Some(item) => item,
            None => {
                return Step::Idle;
            },
        };
        let ghost queue1 = self.pq@;
        let (result, successors) = expand(self.nodes, self.config, &item, Ghost(self.start@));
        let ghost out = successors@;
        refill(&mut self.pq, successors, Ghost(self.nodes@), Ghost(*self.config));
        let ghost found0 = self.found@;
        proof {
            broadcast use vstd::multiset::group_multiset_axioms;

            lemma_msum_remove(queue0, f, item);
            if result is Some {
                self.found@ = found0.push(composed(self.nodes@, item));
                assert(self.found@.drop_last() =~= found0);
            }
            let found1 = self.found@;
            assert forall|other: QItem<C>| #[trigger] self.pq@.contains(other) implies item_ok(
                self.nodes@,
                *self.config,
                self.start@,
                other,
            ) by {
                if queue1.contains(other) {
                    assert(queue0.contains(other));
                } else {
                    vstd::seq_lib::to_multiset_contains(out, other);
                    let m = choose|m: int| 0 <= m < out.len() && out[m] == other;
                    assert(item_ok(self.nodes@, *self.config, self.start@, out[m]));
                }
            }
            assert forall|i: int| 0 <= i < found1.len() implies is_result::<C>(
                self.nodes@,
                *self.config,
                self.start@,
                #[trigger] found1[i],
            ) by {
                if i < found0.len() {
                    assert(found1[i] == found0[i]);
                }
            }
            let nodes = self.nodes@;
            let own = composed(nodes, item);
            lemma_covers_own(nodes, item);
            assert(queue0.contains(item));
            // a successor is no item of the old queue
            assert forall|m: int| 0 <= m < out.len() implies !queue0.contains(#[trigger] out[m]) by {
                if queue0.contains(out[m]) {
                    let goes = composed(nodes, out[m]);
                    lemma_covers_own(nodes, out[m]);
                    lemma_succ_narrows(nodes, item, out[m], goes);
                    assert(out[m] == item);
                    lemma_succ_narrows(nodes, item, out[m], composed(nodes, item));
                }
            }
            assert(out.no_duplicates()) by {
                assert forall|a: int, b: int| 0 <= a < b < out.len() implies out[a] != out[b] by {
                    assert(out[a].0.node != out[b].0.node);
                }
            }
            out.lemma_multiset_has_no_duplicates();
            assert forall|other: QItem<C>| #[trigger] self.pq@.count(other) <= 1 by {
                assert(queue0.count(other) <= 1);
                if out.to_multiset().count(other) > 0 {
                    vstd::seq_lib::to_multiset_contains(out, other);
                    let m = choose|m: int| 0 <= m < out.len() && out[m] == other;
                    assert(!queue0.contains(out[m]));
                }
            }
            assert forall|one: QItem<C>, other: QItem<C>, words: Seq<Seq<char>>|
                self.pq@.contains(one) && self.pq@.contains(other) && #[trigger] covers(
                    nodes,
                    one,
                    words,
                ) && #[trigger] covers(nodes, other, words) implies one == other by {
                let one_new = !queue1.contains(one);
                let other_new = !queue1.contains(other);
                if one_new {
                    vstd::seq_lib::to_multiset_contains(out, one);
                    let a = choose|a: int| 0 <= a < out.len() && out[a] == one;
                    lemma_succ_narrows(nodes, item, out[a], words);
                    if other_new {
                        vstd::seq_lib::to_multiset_contains(out, other);
                        let b = choose|b: int| 0 <= b < out.len() && out[b] == other;
                        if a != b {
                            if a < b {
                                assert(out[a].0.node != out[b].0.node);
                            } else {
                                assert(out[b].0.node != out[a].0.node);
                            }
                            lemma_succ_apart(nodes, item, out[a], out[b], words);
                        }
                    } else {
                        assert(queue0.contains(other));
                        assert(other == item);
                        assert(queue1.count(item) == 0);
                    }
                } else if other_new {
                    vstd::seq_lib::to_multiset_contains(out, other);
                    let b = choose|b: int| 0 <= b < out.len() && out[b] == other;
                    lemma_succ_narrows(nodes, item, out[b], words);
                    assert(queue0.contains(one));
                    assert(one == item);
                    assert(queue1.count(item) == 0);
                } else {
                    assert(queue0.contains(one) && queue0.contains(other));
                }
            }
            assert forall|i: int, other: QItem<C>|
                0 <= i < found1.len() && #[trigger] self.pq@.contains(other) implies !covers(
                nodes,
                other,
                #[trigger] found1[i],
            ) by {
                if covers(nodes, other, found1[i]) {
                    if queue1.contains(other) {
                        assert(queue0.contains(other));
                        if i < found0.len() {
                            assert(found1[i] == found0[i]);
                        } else {
                            assert(found1[i] == own);
                            assert(other == item);
                            assert(queue1.count(item) == 0);
                        }
                    } else {
                        vstd::seq_lib::to_multiset_contains(out, other);
                        let b = choose|b: int| 0 <= b < out.len() && out[b] == other;
                        lemma_succ_narrows(nodes, item, out[b], found1[i]);
                        if i < found0.len() {
                            assert(found1[i] == found0[i]);
                        }
                    }
                }
            }
            assert(found1.no_duplicates()) by {
                assert forall|a: int, b: int| 0 <= a < b < found1.len() implies found1[a]
                    != found1[b] by {
                    if b < found0.len() {
                        assert(found1[a] == found0[a] && found1[b] == found0[b]);
                    } else {
                        assert(found1[a] == found0[a]);
                        assert(!covers(nodes, item, found0[a]));
                    }
                }
            }
            if !self.done {
                assert forall|words: Seq<Seq<char>>| #[trigger]
                    is_result::<C>(
                        self.nodes@,
                        *self.config,
                        self.start@,
                        words,
                    ) implies found1.contains(words) || exists|other: QItem<C>| #[trigger]
                    self.pq@.contains(other) && covers(self.nodes@, other, words) by {
                    if found0.contains(words) {
                        let i = choose|i: int| 0 <= i < found0.len() && found0[i] == words;
                        assert(found1[i] == words);
                    } else {
                        let x = choose|x: QItem<C>| #[trigger]
                            queue0.contains(x) && covers(self.nodes@, x, words);
                        if x == item {
                            if emits(self.nodes@, *self.config, item) && words == composed(
                                self.nodes@,
                                item,
                            ) {
                                assert(found1[found1.len() - 1] == words);
                            } else {
                                let m = choose|m: int|
                                    0 <= m < out.len() && covers(self.nodes@, #[trigger] out[m], words);
                                vstd::seq_lib::to_multiset_contains(out, out[m]);
                                assert(out.contains(out[m]));
                                assert(self.pq@.contains(out[m]));
                            }
                        } else {
                            assert(queue1.contains(x));
                            assert(self.pq@.contains(x));
                        }
                    }
                }
            }
        }
        match result {
            Some(s) => Step::Found(s),
            None => Step::Quiet,
        }
    }

    /// The next result of the search, or `None` when the queue is empty:
    /// then, unless the search was stopped, every result has been found.
    pub fn next(&mut self) -> (result: Option<String>)
        requires
            old(self).inv(),
        ensures
            final(self).inv(),
            final(self).nodes() == old(self).nodes(),
            final(self).config() == old(self).config(),
            final(self).start() == old(self).start(),
            final(self).stopped() == old(self).stopped(),
            match result {
                Some(s) => {
                    &&& final(self).found().len() == old(self).found().len() + 1
                    &&& final(self).found().drop_last() == old(self).found()
                    &&& s@ == join(final(self).found().last())
                    &&& final(self).potential() < old(self).potential()
                },
                None => final(self).found() == old(self).found() && final(self).exhausted(),
            },
    {
        loop
            invariant
                self.inv(),
                self.nodes() == old(self).nodes(),
                self.config() == old(self).config(),
                self.start() == old(self).start(),
                self.stopped() == old(self).stopped(),
                self.found() == old(self).found(),
                self.potential() <= old(self).potential(),
            decreases self.potential(),
        {
            match self.worker() {
                Step::Idle => {
                    return None;
                },
                Step::Found(s) => {
                    return Some(s);
                },
                Step::Quiet => {},
            }
        }
    }
}

} // verus!
