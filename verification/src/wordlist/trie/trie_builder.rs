//! Building a trie in one expression: words are added to the builder one
//! after the other, and `build` gives the trie and its frozen form.

use vstd::prelude::*;
use crate::alphabet::is_word;
use crate::wordlist::trie::trie::{added_freq, views, ImmutableTrie, Trie};

verus! {

/// A trie in the making, and, for the proofs, the words that were added to
/// it with their frequencies, in the order in which they were added.
pub struct TrieBuilder {
    trie: Trie,
    words: Ghost<Seq<Seq<char>>>,
    freqs: Ghost<Seq<nat>>,
}

impl TrieBuilder {
    /// The words that were added, in the order in which they were added.
    pub closed spec fn inserted(&self) -> Seq<Seq<char>> {
        self.words@
    }

    /// The frequencies with which the words were added, in the same order.
    pub closed spec fn frequencies(&self) -> Seq<nat> {
        self.freqs@
    }

    /// The frequencies of all insertions, added up.
    pub closed spec fn total_freq(&self) -> nat {
        self.trie.total_freq()
    }

    /// The trie holds exactly the words that were added, each with the
    /// frequencies of its insertions added up.
    pub closed spec fn wf(&self) -> bool {
        &&& self.trie.wf()
        &&& !self.trie.is_built()
        &&& self.words@.len() == self.freqs@.len()
        &&& forall|word: Seq<char>| self.trie.has(word) == self.words@.contains(word)
        &&& forall|word: Seq<char>|
            self.trie.freq_of(word) == added_freq(self.words@, self.freqs@, word)
    }

    /// A builder to which no word has been added.
    pub fn new() -> (builder: TrieBuilder)
        ensures
            builder.wf(),
            builder.inserted() == Seq::<Seq<char>>::empty(),
            builder.frequencies() == Seq::<nat>::empty(),
            builder.total_freq() == 0,
    {
        let builder = TrieBuilder {
            trie: Trie::new(),
            words: Ghost(Seq::empty()),
            freqs: Ghost(Seq::empty()),
        };
        proof {
            assert forall|word: Seq<char>| !builder.words@.contains(word) by {}
        }
        builder
    }

    /// The frequencies of all insertions, added up.
    pub fn total(&self) -> (t: u64)
        ensures
            t == self.total_freq(),
    {
        self.trie.total()
    }

    /// The builder with `word` added with frequency 1.
    pub fn add(self, word: &str) -> (next: TrieBuilder)
        requires
            self.wf(),
            is_word(word@),
            word@.len() <= u32::MAX,
            self.total_freq() + 1 <= u64::MAX,
        ensures
            next.wf(),
            next.inserted() == self.inserted().push(word@),
            next.frequencies() == self.frequencies().push(1),
            next.total_freq() == self.total_freq() + 1,
    {
        self.add_with_freq(word, 1)
    }

    /// The builder with `word` added with frequency `freq`.
    pub fn add_with_freq(self, word: &str, freq: u64) -> (next: TrieBuilder)
        requires
            self.wf(),
            is_word(word@),
            word@.len() <= u32::MAX,
            self.total_freq() + freq <= u64::MAX,
        ensures
            next.wf(),
            next.inserted() == self.inserted().push(word@),
            next.frequencies() == self.frequencies().push(freq as nat),
            next.total_freq() == self.total_freq() + freq,
    {
        let ghost words = self.words@.push(word@);
        let ghost freqs = self.freqs@.push(freq as nat);
        let ghost before = self.trie;
        let mut trie = self.trie;
        trie.add_with_freq(word, freq);
        let next = TrieBuilder { trie, words: Ghost(words), freqs: Ghost(freqs) };
        proof {
            assert(words.drop_last() =~= self.words@);
            assert(freqs.drop_last() =~= self.freqs@);
            assert forall|other: Seq<char>| next.trie.has(other) == words.contains(other) by {
                assert(next.trie.has(other) == (before.has(other) || other == word@));
                if self.words@.contains(other) {
                    let k = choose|k: int| 0 <= k < self.words@.len() && self.words@[k] == other;
                    assert(words[k] == other);
                }
                if words.contains(other) {
                    let k = choose|k: int| 0 <= k < words.len() && words[k] == other;
                    if k < self.words@.len() {
                        assert(self.words@[k] == other);
                    }
                }
                if other == word@ {
                    assert(words[words.len() - 1] == other);
                }
            }
            assert forall|other: Seq<char>|
                next.trie.freq_of(other) == added_freq(words, freqs, other) by {
                assert(before.freq_of(other) == added_freq(self.words@, self.freqs@, other));
            }
        }
        next
    }

    /// The builder with each of `items` added with frequency 1.
    pub fn add_all(self, items: &[&str]) -> (next: TrieBuilder)
        requires
            self.wf(),
            forall|k: int|
                0 <= k < items@.len() ==> is_word((#[trigger] items@[k])@) && items@[k]@.len()
                    <= u32::MAX,
            self.total_freq() + items@.len() <= u64::MAX,
        ensures
            next.wf(),
            next.inserted() == self.inserted() + views(items@),
            next.total_freq() == self.total_freq() + items@.len(),
    {
        let mut builder = self;
        let n = items.len();
        let mut i: usize = 0;
        proof {
            assert(self.inserted() + views(items@).take(0) =~= self.inserted());
        }
        while i < n
            invariant
                n == items@.len(),
                i <= n,
                builder.wf(),
                forall|k: int|
                    0 <= k < items@.len() ==> is_word((#[trigger] items@[k])@) && items@[k]@.len()
                        <= u32::MAX,
                self.total_freq() + items@.len() <= u64::MAX,
                builder.total_freq() == self.total_freq() + i,
                builder.inserted() == self.inserted() + views(items@).take(i as int),
            decreases n - i,
        {
            builder = builder.add(items[i]);
            proof {
                let all = views(items@);
                assert(all.take(i + 1) =~= all.take(i as int).push(items@[i as int]@));
                assert(builder.inserted() =~= self.inserted() + all.take(i + 1));
            }
            i = i + 1;
        }
        proof {
            assert(views(items@).take(n as int) =~= views(items@));
        }
        builder
    }

    /// Builds the trie and its frozen form. Both hold a word exactly where
    /// it was added, with the frequencies of its insertions added up.
    pub fn build(self) -> (built: (Trie, ImmutableTrie))
        requires
            self.wf(),
        ensures
            built.0.wf(),
            built.0.is_built(),
            built.1.wf(),
            built.1.is_built(),
            built.1.nodes() == built.0.nodes(),
            built.0.total_freq() == self.total_freq(),
            forall|word: Seq<char>| built.0.has(word) == self.inserted().contains(word),
            forall|word: Seq<char>| built.1.has(word) == self.inserted().contains(word),
            forall|word: Seq<char>|
                built.0.freq_of(word) == added_freq(self.inserted(), self.frequencies(), word),
            forall|word: Seq<char>|
                built.1.freq_of(word) == added_freq(self.inserted(), self.frequencies(), word),
    {
        let ghost before = self.trie;
        let mut trie = self.trie;
        let mut immutable = ImmutableTrie::new();
        trie.build(&mut immutable);
        proof {
            assert forall|word: Seq<char>| trie.has(word) == self.inserted().contains(word) by {
                assert(trie.has(word) == before.has(word));
            }
            assert forall|word: Seq<char>| immutable.has(word) == self.inserted().contains(
                word,
            ) by {
                assert(immutable.has(word) == before.has(word));
            }
            assert forall|word: Seq<char>|
                trie.freq_of(word) == added_freq(self.inserted(), self.frequencies(), word) by {
                assert(trie.freq_of(word) == before.freq_of(word));
            }
            assert forall|word: Seq<char>|
                immutable.freq_of(word) == added_freq(
                    self.inserted(),
                    self.frequencies(),
                    word,
                ) by {
                assert(immutable.freq_of(word) == before.freq_of(word));
            }
        }
        (trie, immutable)
    }
}

} // verus!
