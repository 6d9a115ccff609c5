//! Morse code, written with `.` and `_`.

use vstd::prelude::*;
use crate::text::{chars_of, same_chars};

verus! {

/// The codes of the letters `A` to `Z`, in that order.
pub const MORSE_CHARS: [&'static str; 26] = [
    "._",
    "_...",
    "_._.",
    "_..",
    ".",
    "..-.",
    "__.",
    "....",
    "..",
    ".___",
    "_._",
    "._..",
    "__",
    "_.",
    "___",
    ".__.",
    "__._",
    "._.",
    "...",
    "_",
    ".._",
    "..._",
    ".__",
    "_.._",
    "_.__",
    "__..",
];

/// The letter of the first code from `from` on that is `code`, or `?`.
pub open spec fn morse_from(code: Seq<char>, from: int) -> char
    decreases 26 - from,
{
    if from >= 26 || from < 0 {
        '?'
    } else if MORSE_CHARS[from]@ == code {
        ((from + 65) as u8) as char
    } else {
        morse_from(code, from + 1)
    }
}

/// The letter that `code` stands for, or `?` where it is no code.
pub open spec fn morse_value(code: Seq<char>) -> char {
    morse_from(code, 0)
}

/// The pieces of `s` between its spaces.
pub open spec fn split_spaces(s: Seq<char>) -> Seq<Seq<char>>
    decreases s.len(),
{
    if s.len() == 0 {
        seq![Seq::empty()]
    } else {
        let init = split_spaces(s.drop_last());
        if s.last() == ' ' {
            init.push(Seq::empty())
        } else {
            init.drop_last().push(init.last().push(s.last()))
        }
    }
}

/// There is always a piece, if only the empty one.
pub proof fn lemma_split_nonempty(s: Seq<char>)
    ensures
        split_spaces(s).len() >= 1,
    decreases s.len(),
{
    if s.len() > 0 {
        lemma_split_nonempty(s.drop_last());
    }
}

/// The letters of the codes `pieces`, in their order.
pub open spec fn decoded(pieces: Seq<Seq<char>>) -> Seq<char> {
    Seq::new(pieces.len(), |i: int| morse_value(pieces[i]))
}

fn decode(code: &Vec<char>) -> (letter: char)
    ensures
        letter == morse_value(code@),
{
    let mut i: usize = 0;
    while i < 26
        invariant
            i <= 26,
            morse_value(code@) == morse_from(code@, i as int),
        decreases 26 - i,
    {
        let candidate = chars_of(MORSE_CHARS[i]);
        if same_chars(&candidate, code) {
            return ((i as u8) + 65) as char;
        }
        i = i + 1;
    }
    '?'
}

/// The letter that the code `morse` stands for, or `?` where it is no code.
pub fn morse_char(morse: &str) -> (letter: char)
    ensures
        letter == morse_value(morse@),
{
    let code = chars_of(morse);
    decode(&code)
}

/// The letters of the codes in `morse`, which one space parts from each
/// other. An empty piece, as between two spaces, gives `?`.
pub fn morse_spaces(morse: &str) -> (out: String)
    ensures
        out@ == decoded(split_spaces(morse@)),
{
    let mut out = String::new();
    let mut piece: Vec<char> = Vec::new();
    for c in it: morse.chars()
        invariant
            it.seq() == morse@,
            split_spaces(morse@.take(it.index() as int)).len() >= 1,
            piece@ == split_spaces(morse@.take(it.index() as int)).last(),
            out@ == decoded(split_spaces(morse@.take(it.index() as int)).drop_last()),
    {
        let ghost i = it.index() as int;
        let ghost init = split_spaces(morse@.take(i));
        proof {
            assert(morse@.take(i + 1).drop_last() =~= morse@.take(i));
            assert(morse@.take(i + 1).last() == c);
            lemma_split_nonempty(morse@.take(i + 1));
        }
        if c == ' ' {
            let letter = decode(&piece);
            out.push(letter);
            piece = Vec::new();
            proof {
                let next = split_spaces(morse@.take(i + 1));
                assert(next.drop_last() =~= init);
                assert(decoded(init) =~= decoded(init.drop_last()).push(morse_value(init.last())));
            }
        } else {
            piece.push(c);
            proof {
                let next = split_spaces(morse@.take(i + 1));
                assert(next.drop_last() =~= init.drop_last());
            }
        }
    }
    let letter = decode(&piece);
    out.push(letter);
    proof {
        assert(morse@.take(morse@.len() as int) =~= morse@);
        let all = split_spaces(morse@);
        assert(decoded(all) =~= decoded(all.drop_last()).push(morse_value(all.last())));
    }
    out
}

} // verus!
