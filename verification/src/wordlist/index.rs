//! What every index of words offers: words are added to it, and it tells
//! which words it holds.

use vstd::prelude::*;
use crate::alphabet::is_word;
use crate::wordlist::trie::node::TrieNode;
use crate::wordlist::trie::trie::{find_node, views, Trie};

verus! {

/// An index of words.
pub trait Index {
    /// The words that the index holds.
    spec fn words(&self) -> Set<Seq<char>>;

    /// Whether the index is in order.
    spec fn sound(&self) -> bool;

    /// Whether the index is in order and can take each of `words`, one
    /// after the other.
    spec fn takes(&self, words: Seq<Seq<char>>) -> bool;

    /// Adds `word`.
    fn add(&mut self, word: &str)
        requires
            old(self).takes(seq![word@]),
        ensures
            final(self).sound(),
            final(self).words() == old(self).words().insert(word@),
    ;

    /// Whether the index holds `word`.
    fn contains(&self, word: &str) -> (found: bool)
        requires
            self.sound(),
        ensures
            found == self.words().contains(word@),
    ;

    /// Adds each of `items`.
    fn add_all(&mut self, items: &[&str])
        requires
            old(self).takes(views(items@)),
        ensures
            final(self).sound(),
            final(self).words() == old(self).words().union(views(items@).to_set()),
    ;
}

impl Index for Trie {
    /// The words that were added.
    open spec fn words(&self) -> Set<Seq<char>> {
        Set::new(|word: Seq<char>| self.has(word))
    }

    open spec fn sound(&self) -> bool {
        self.wf()
    }

    /// The trie is not frozen, the words are words of the alphabet, and
    /// there is room for them in the total of the frequencies.
    open spec fn takes(&self, words: Seq<Seq<char>>) -> bool {
        &&& self.wf()
        &&& !self.is_built()
        &&& self.total_freq() + words.len() <= u64::MAX
        &&& forall|k: int|
            0 <= k < words.len() ==> is_word(#[trigger] words[k]) && words[k].len() <= u32::MAX
    }

    fn add(&mut self, word: &str) {
        proof {
            assert(seq![word@][0] == word@);
        }
        self.add_with_freq(word, 1);
        proof {
            assert(self.words() =~= old(self).words().insert(word@));
        }
    }

    fn contains(&self, word: &str) -> (found: bool) {
        let nodes: &Vec<TrieNode> = self.arena();
        match find_node(nodes, word) {
            Some(i) => nodes[i].is_terminal,
            None => false,
        }
    }

    fn add_all(&mut self, items: &[&str]) {
        proof {
            assert forall|k: int| 0 <= k < items@.len() implies is_word(
                (#[trigger] items@[k])@,
            ) && items@[k]@.len() <= u32::MAX by {
                assert(views(items@)[k] == items@[k]@);
            }
        }
        Trie::add_all(self, items);
        proof {
            assert(self.words() =~= old(self).words().union(views(items@).to_set()));
        }
    }
}

} // verus!
