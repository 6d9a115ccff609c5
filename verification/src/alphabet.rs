//! The fixed alphabet of 27 symbols: the letters `A` to `Z` and the space.

use vstd::prelude::*;

verus! {

/// The number of symbols of the alphabet, and so of child slots of a trie node.
pub const ALPHABET_LEN: usize = 27;

/// Whether `c` is one of the 27 symbols.
pub open spec fn is_symbol(c: char) -> bool {
    c == ' ' || ('A' <= c && c <= 'Z')
}

/// Whether `c` folds to a symbol: a symbol, or a lower-case ASCII letter.
pub open spec fn folds_to_symbol(c: char) -> bool {
    is_symbol(c) || ('a' <= c && c <= 'z')
}

/// `c` with a lower-case ASCII letter replaced by its upper-case form.
pub open spec fn fold(c: char) -> char {
    if 'a' <= c && c <= 'z' {
        ((c as u32 - 32) as u8) as char
    } else {
        c
    }
}

/// The slot of a symbol: 0 to 25 for `A` to `Z`, 26 for the space.
pub open spec fn symbol_slot(c: char) -> int {
    if c == ' ' {
        26
    } else {
        c as u32 - 'A' as u32
    }
}

/// The symbol that has slot `slot`.
pub open spec fn slot_symbol(slot: int) -> char {
    if slot == 26 {
        ' '
    } else {
        ((slot + 'A' as u32) as u8) as char
    }
}

/// Whether every character of `word` is a symbol.
pub open spec fn is_word(word: Seq<char>) -> bool {
    forall|i: int| 0 <= i < word.len() ==> is_symbol(#[trigger] word[i])
}

/// `s` folded to the alphabet: letters in upper case, every other character
/// but the space dropped.
pub open spec fn normalized(s: Seq<char>) -> Seq<char>
    decreases s.len(),
{
    if s.len() == 0 {
        Seq::empty()
    } else if is_symbol(fold(s.last())) {
        normalized(s.drop_last()).push(fold(s.last()))
    } else {
        normalized(s.drop_last())
    }
}

/// Slots and symbols correspond one to one.
pub proof fn lemma_slot_symbol(slot: int)
    requires
        0 <= slot < 27,
    ensures
        is_symbol(slot_symbol(slot)),
        symbol_slot(slot_symbol(slot)) == slot,
{
}

/// Slots and symbols correspond one to one.
pub proof fn lemma_symbol_slot(c: char)
    requires
        is_symbol(c),
    ensures
        0 <= symbol_slot(c) < 27,
        slot_symbol(symbol_slot(c)) == c,
{
}

/// The slot of the symbol `c`, or `None` where `c` is no symbol.
pub fn slot_of(c: char) -> (r: Option<usize>)
    ensures
        r == if is_symbol(c) {
            Some(symbol_slot(c) as usize)
        } else {
            None
        },
        r is Some ==> r->0 < ALPHABET_LEN,
{
    if c == ' ' {
        Some(26)
    } else if 'A' <= c && c <= 'Z' {
        Some((c as u32 - 'A' as u32) as usize)
    } else {
        None
    }
}

/// The symbol of slot `slot`.
pub fn symbol_of(slot: usize) -> (c: char)
    requires
        slot < ALPHABET_LEN,
    ensures
        c == slot_symbol(slot as int),
        is_symbol(c),
{
    if slot == 26 {
        ' '
    } else {
        ((slot as u32 + 'A' as u32) as u8) as char
    }
}

/// The upper-case form of an ASCII letter; any other character unchanged.
pub fn fold_char(c: char) -> (r: char)
    ensures
        r == fold(c),
{
    if 'a' <= c && c <= 'z' {
        ((c as u32 - 32) as u8) as char
    } else {
        c
    }
}

/// The slot of a letter, in either case, or of the space.
pub fn get_idx(a: char) -> (idx: usize)
    requires
        folds_to_symbol(a),
    ensures
        idx == symbol_slot(fold(a)),
        idx < ALPHABET_LEN,
{
    if a == ' ' {
        return 26;
    }
    (fold_char(a) as u32 - 'A' as u32) as usize
}

/// Folds `s` to the alphabet: letters go to upper case, the space stays, and
/// every other character is dropped.
pub fn normalize(s: &str) -> (out: String)
    ensures
        out@ == normalized(s@),
        is_word(out@),
{
    let mut out = String::new();
    for c in it: s.chars()
        invariant
            it.seq() == s@,
            out@ == normalized(s@.take(it.index() as int)),
            is_word(out@),
    {
        proof {
            let i = it.index() as int;
            assert(s@.take(i + 1).drop_last() =~= s@.take(i));
        }
        let u = fold_char(c);
        if slot_of(u).is_some() {
            out.push(u);
        }
    }
    proof {
        assert(s@.take(s@.len() as int) =~= s@);
    }
    out
}

} // verus!
