//! What a search carries along a path of the trie besides the path itself:
//! a cursor that each letter advances or kills, and that accepts or not.

use vstd::prelude::*;
use crate::alphabet::{is_symbol, lemma_symbol_slot, slot_of, symbol_slot};

verus! {

/// A cursor of a search. Its view is what decides how it goes on; a letter
/// takes one view to the next, or ends the branch.
pub trait StateT: Sized {
    /// The view of a cursor.
    type V;

    /// The view of this cursor.
    spec fn view(&self) -> Self::V;

    /// What holds of every cursor that a search carries.
    spec fn wf(&self) -> bool;

    /// The view after the letter `c`, or `None` where the branch is dead.
    spec fn step(v: Self::V, c: char) -> Option<Self::V>;

    /// Whether a cursor of this view accepts.
    spec fn accepting(v: Self::V) -> bool;

    /// The cursor after the letter `c`, or `None` where the branch is dead.
    fn keep_going(&self, c: char) -> (next: Option<Self>)
        requires
            self.wf(),
            is_symbol(c),
        ensures
            match next {
                Some(n) => n.wf() && Self::step(self@, c) == Some(n@),
                None => Self::step(self@, c) is None,
            },
    ;

    /// Whether the cursor accepts.
    fn accept(&self) -> (b: bool)
        requires
            self.wf(),
        ensures
            b == Self::accepting(self@),
    ;

    /// A copy of the cursor.
    fn duplicate(&self) -> (copy: Self)
        requires
            self.wf(),
        ensures
            copy.wf(),
            copy@ == self@,
    ;
}

/// The view that `letters` take `v` to, one after the other, or `None` where
/// one of them ends the branch.
pub open spec fn run<C: StateT>(v: C::V, letters: Seq<char>) -> Option<C::V>
    decreases letters.len(),
{
    if letters.len() == 0 {
        Some(v)
    } else {
        match run::<C>(v, letters.drop_last()) {
            Some(w) => C::step(w, letters.last()),
            None => None,
        }
    }
}

/// Whether the cursor of view `start`, taken through `letters`, accepts.
pub open spec fn cursor_accepts<C: StateT>(start: C::V, letters: Seq<char>) -> bool {
    match run::<C>(start, letters) {
        Some(v) => C::accepting(v),
        None => false,
    }
}

/// Where letters lead somewhere, so does every prefix of them.
pub proof fn lemma_run_prefix<C: StateT>(v: C::V, letters: Seq<char>, n: int)
    requires
        run::<C>(v, letters) is Some,
        0 <= n <= letters.len(),
    ensures
        run::<C>(v, letters.take(n)) is Some,
    decreases letters.len() - n,
{
    if n == letters.len() {
        assert(letters.take(n) =~= letters);
    } else {
        lemma_run_prefix::<C>(v, letters, n + 1);
        assert(letters.take(n + 1).drop_last() =~= letters.take(n));
    }
}

/// One more letter is one more step.
pub proof fn lemma_run_push<C: StateT>(v: C::V, letters: Seq<char>, c: char)
    ensures
        run::<C>(v, letters.push(c)) == match run::<C>(v, letters) {
            Some(w) => C::step(w, c),
            None => None,
        },
{
    assert(letters.push(c).drop_last() =~= letters);
}

/// The view of an anagram cursor: how often each symbol is still to come, by
/// slot, and how many other characters.
pub ghost struct LettersLeft {
    pub counts: Seq<nat>,
    pub other: nat,
}

/// The cursor of an anagram search: the letters that are still to be placed.
pub struct AnagramCursor {
    counts: Vec<usize>,
    other: usize,
}

/// How often `c` occurs in `s`.
pub open spec fn count_in(s: Seq<char>, c: char) -> nat
    decreases s.len(),
{
    if s.len() == 0 {
        0
    } else {
        count_in(s.drop_last(), c) + if s.last() == c {
            1nat
        } else {
            0nat
        }
    }
}

/// How many characters of `s` are no symbols.
pub open spec fn count_other(s: Seq<char>) -> nat
    decreases s.len(),
{
    if s.len() == 0 {
        0
    } else {
        count_other(s.drop_last()) + if is_symbol(s.last()) {
            0nat
        } else {
            1nat
        }
    }
}

/// The letters of `word`, all still to be placed.
pub open spec fn letters_of(word: Seq<char>) -> LettersLeft {
    LettersLeft {
        counts: Seq::new(27, |slot: int| count_in(word, crate::alphabet::slot_symbol(slot))),
        other: count_other(word),
    }
}

impl StateT for AnagramCursor {
    type V = LettersLeft;

    closed spec fn view(&self) -> LettersLeft {
        LettersLeft {
            counts: Seq::new(self.counts@.len(), |slot: int| self.counts@[slot] as nat),
            other: self.other as nat,
        }
    }

    closed spec fn wf(&self) -> bool {
        self.counts@.len() == 27
    }

    open spec fn step(v: LettersLeft, c: char) -> Option<LettersLeft> {
        if is_symbol(c) && v.counts.len() == 27 && v.counts[symbol_slot(c)] > 0 {
            Some(
                LettersLeft {
                    counts: v.counts.update(
                        symbol_slot(c),
                        (v.counts[symbol_slot(c)] - 1) as nat,
                    ),
                    other: v.other,
                },
            )
        } else {
            None
        }
    }

    open spec fn accepting(v: LettersLeft) -> bool {
        v.other == 0 && forall|slot: int| 0 <= slot < v.counts.len() ==> v.counts[slot] == 0
    }

    fn keep_going(&self, c: char) -> (next: Option<Self>) {
        proof {
            lemma_symbol_slot(c);
        }
        let slot = slot_of(c).unwrap();
        if self.counts[slot] > 0 {
            let mut counts = self.counts.clone();
            counts.set(slot, self.counts[slot] - 1);
            let n = AnagramCursor { counts, other: self.other };
            proof {
                assert(n@.counts =~= self@.counts.update(
                    symbol_slot(c),
                    (self@.counts[symbol_slot(c)] - 1) as nat,
                ));
            }
            Some(n)
        } else {
            None
        }
    }

    fn accept(&self) -> (b: bool) {
        if self.other != 0 {
            return false;
        }
        let mut slot: usize = 0;
        while slot < 27
            invariant
                slot <= 27,
                self.counts@.len() == 27,
                forall|k: int| 0 <= k < slot ==> self.counts@[k] == 0,
            decreases 27 - slot,
        {
            if self.counts[slot] != 0 {
                proof {
                    assert(self@.counts[slot as int] != 0);
                }
                return false;
            }
            slot = slot + 1;
        }
        true
    }

    fn duplicate(&self) -> (copy: Self) {
        let copy = AnagramCursor { counts: self.counts.clone(), other: self.other };
        proof {
            assert(copy@.counts =~= self@.counts);
        }
        copy
    }
}

impl AnagramCursor {
    /// The cursor with which an anagram search for the letters of `word`
    /// starts: each symbol counted by its slot, and the other characters
    /// counted together.
    pub fn get_counts(word: &str) -> (cursor: AnagramCursor)
        ensures
            cursor.wf(),
            cursor@ == letters_of(word@),
    {
        let mut counts: Vec<usize> = Vec::new();
        let mut slot: usize = 0;
        while slot < 27
            invariant
                slot <= 27,
                counts@.len() == slot,
                forall|k: int| 0 <= k < slot ==> counts@[k] == 0,
            decreases 27 - slot,
        {
            counts.push(0);
            slot = slot + 1;
        }
        let mut other: usize = 0;
        let _ = word.unicode_len();
        for c in it: word.chars()
            invariant
                it.seq() == word@,
                word@.len() <= usize::MAX,
                counts@.len() == 27,
                forall|k: int|
                    0 <= k < 27 ==> counts@[k] == count_in(
                        word@.take(it.index() as int),
                        crate::alphabet::slot_symbol(k),
                    ),
                other == count_other(word@.take(it.index() as int)),
                forall|k: int| 0 <= k < 27 ==> counts@[k] <= it.index(),
                other <= it.index(),
        {
            let ghost i = it.index() as int;
            proof {
                assert(word@.take(i + 1).drop_last() =~= word@.take(i));
                assert(word@.take(i + 1).last() == c);
                if is_symbol(c) {
                    lemma_symbol_slot(c);
                }
                assert forall|k: int| 0 <= k < 27 && crate::alphabet::slot_symbol(k)
                    == c implies is_symbol(c) && k == symbol_slot(c) by {
                    crate::alphabet::lemma_slot_symbol(k);
                }
            }
            match slot_of(c) {
                Some(slot) => {
                    let n = counts[slot];
                    counts.set(slot, n + 1);
                },
                None => {
                    other = other + 1;
                },
            }
        }
        let cursor = AnagramCursor { counts, other };
        proof {
            assert(word@.take(word@.len() as int) =~= word@);
            assert(cursor@.counts =~= letters_of(word@).counts);
        }
        cursor
    }
}

/// A character that is no symbol occurs nowhere among symbols.
proof fn lemma_count_in_word(s: Seq<char>, c: char)
    requires
        crate::alphabet::is_word(s),
        !is_symbol(c),
    ensures
        count_in(s, c) == 0,
    decreases s.len(),
{
    if s.len() > 0 {
        assert(is_symbol(s.last()));
        assert forall|i: int| 0 <= i < s.drop_last().len() implies is_symbol(
            #[trigger] s.drop_last()[i],
        ) by {
            assert(s.drop_last()[i] == s[i]);
        }
        lemma_count_in_word(s.drop_last(), c);
    }
}

/// Where no character but symbols is counted, all characters are symbols,
/// and the other way round.
proof fn lemma_count_other(s: Seq<char>)
    ensures
        count_other(s) == 0 <==> crate::alphabet::is_word(s),
    decreases s.len(),
{
    if s.len() > 0 {
        lemma_count_other(s.drop_last());
        if crate::alphabet::is_word(s) {
            assert(is_symbol(s.last()));
            assert forall|i: int| 0 <= i < s.drop_last().len() implies is_symbol(
                #[trigger] s.drop_last()[i],
            ) by {
                assert(s.drop_last()[i] == s[i]);
            }
        }
        if count_other(s) == 0 {
            assert forall|i: int| 0 <= i < s.len() implies is_symbol(#[trigger] s[i]) by {
                if i < s.len() - 1 {
                    assert(s.drop_last()[i] == s[i]);
                }
            }
        }
    }
}

/// Where an anagram cursor stands after the letters `word`: each symbol is
/// still to come as often as the query has it more often than `word`; and
/// the cursor is dead only where `word` holds a character that is no
/// symbol, or one more often than the query.
pub proof fn lemma_anagram_run(query: Seq<char>, word: Seq<char>)
    ensures
        match run::<AnagramCursor>(letters_of(query), word) {
            Some(v) => {
                &&& crate::alphabet::is_word(word)
                &&& v.counts.len() == 27
                &&& v.other == count_other(query)
                &&& forall|slot: int|
                    0 <= slot < 27 ==> #[trigger] v.counts[slot] + count_in(
                        word,
                        crate::alphabet::slot_symbol(slot),
                    ) == count_in(query, crate::alphabet::slot_symbol(slot))
            },
            None => !crate::alphabet::is_word(word) || exists|c: char|
                count_in(word, c) > count_in(query, c),
        },
    decreases word.len(),
{
    if word.len() > 0 {
        let init = word.drop_last();
        let x = word.last();
        lemma_anagram_run(query, init);
        match run::<AnagramCursor>(letters_of(query), init) {
            Some(v) => {
                if is_symbol(x) {
                    lemma_symbol_slot(x);
                    let sx = symbol_slot(x);
                    assert(v.counts[sx] + count_in(init, x) == count_in(query, x));
                    if v.counts[sx] > 0 {
                        let next = AnagramCursor::step(v, x)->0;
                        assert forall|i: int| 0 <= i < word.len() implies is_symbol(
                            #[trigger] word[i],
                        ) by {
                            if i < word.len() - 1 {
                                assert(init[i] == word[i]);
                            }
                        }
                        assert forall|slot: int| 0 <= slot < 27 implies #[trigger] next.counts[slot]
                            + count_in(word, crate::alphabet::slot_symbol(slot)) == count_in(
                            query,
                            crate::alphabet::slot_symbol(slot),
                        ) by {
                            crate::alphabet::lemma_slot_symbol(slot);
                            assert(v.counts[slot] + count_in(
                                init,
                                crate::alphabet::slot_symbol(slot),
                            ) == count_in(query, crate::alphabet::slot_symbol(slot)));
                        }
                    } else {
                        assert(count_in(word, x) > count_in(query, x));
                    }
                } else {
                    assert(!is_symbol(word[word.len() - 1]));
                }
            },
            None => {
                if crate::alphabet::is_word(word) {
                    assert forall|i: int| 0 <= i < init.len() implies is_symbol(
                        #[trigger] init[i],
                    ) by {
                        assert(init[i] == word[i]);
                    }
                    let c = choose|c: char| count_in(init, c) > count_in(query, c);
                    assert(count_in(word, c) > count_in(query, c));
                }
            },
        }
    } else {
        assert(letters_of(query).counts.len() == 27);
    }
}

/// An anagram cursor accepts after the letters `word` exactly where `word`
/// is made of symbols and holds every character as often as the query.
pub proof fn lemma_anagram_accepts(query: Seq<char>, word: Seq<char>)
    ensures
        (match run::<AnagramCursor>(letters_of(query), word) {
            Some(v) => AnagramCursor::accepting(v),
            None => false,
        }) <==> (crate::alphabet::is_word(word) && forall|c: char|
            count_in(word, c) == count_in(query, c)),
{
    lemma_anagram_run(query, word);
    lemma_count_other(query);
    match run::<AnagramCursor>(letters_of(query), word) {
        Some(v) => {
            if AnagramCursor::accepting(v) {
                assert forall|c: char| count_in(word, c) == count_in(query, c) by {
                    if is_symbol(c) {
                        lemma_symbol_slot(c);
                        assert(v.counts[symbol_slot(c)] == 0);
                    } else {
                        lemma_count_in_word(word, c);
                        lemma_count_in_word(query, c);
                    }
                }
            }
            if crate::alphabet::is_word(word) && forall|c: char|
                count_in(word, c) == count_in(query, c) {
                assert forall|slot: int| 0 <= slot < v.counts.len() implies v.counts[slot]
                    == 0 by {
                    assert(v.counts[slot] + count_in(word, crate::alphabet::slot_symbol(slot))
                        == count_in(query, crate::alphabet::slot_symbol(slot)));
                }
                if !crate::alphabet::is_word(query) {
                    let i = choose|i: int| 0 <= i < query.len() && !is_symbol(#[trigger] query[i]);
                    lemma_count_has(query, i);
                    lemma_count_in_word(word, query[i]);
                }
            }
        },
        None => {},
    }
}

/// A character that occurs in a sequence is counted in it.
proof fn lemma_count_has(s: Seq<char>, i: int)
    requires
        0 <= i < s.len(),
    ensures
        count_in(s, s[i]) > 0,
    decreases s.len(),
{
    if i < s.len() - 1 {
        lemma_count_has(s.drop_last(), i);
    }
}

/// Whether `letters` are an anagram of `query`: made of symbols, and each
/// character as often as in `query`.
pub open spec fn is_anagram(query: Seq<char>, letters: Seq<char>) -> bool {
    crate::alphabet::is_word(letters) && forall|c: char| count_in(letters, c) == count_in(query, c)
}

/// The cursor with which an anagram search for `query` starts accepts
/// after `letters` exactly where they are an anagram of `query`.
pub proof fn lemma_anagram_start(query: Seq<char>, letters: Seq<char>)
    ensures
        cursor_accepts::<AnagramCursor>(letters_of(query), letters) <==> is_anagram(query, letters),
{
    lemma_anagram_accepts(query, letters);
}

} // verus!
