//! Strings as sequences of characters.

use vstd::prelude::*;

verus! {

/// `String::push` appends one character.
pub assume_specification[ String::push ](s: &mut String, c: char)
    ensures
        final(s)@ == old(s)@.push(c),
;

/// The characters of a string.
pub fn chars_of(s: &str) -> (v: Vec<char>)
    ensures
        v@ == s@,
{
    let mut v: Vec<char> = Vec::new();
    for c in it: s.chars()
        invariant
            it.seq() == s@,
            v@ == s@.take(it.index() as int),
    {
        proof {
            assert(s@.take(it.index() + 1) =~= s@.take(it.index() as int).push(c));
        }
        v.push(c);
    }
    proof {
        assert(s@.take(s@.len() as int) =~= s@);
    }
    v
}

/// Whether two sequences of characters are the same.
pub fn same_chars(a: &Vec<char>, b: &Vec<char>) -> (same: bool)
    ensures
        same == (a@ == b@),
{
    if a.len() != b.len() {
        return false;
    }
    let mut i: usize = 0;
    while i < a.len()
        invariant
            i <= a@.len(),
            a@.len() == b@.len(),
            forall|k: int| 0 <= k < i ==> a@[k] == b@[k],
        decreases a@.len() - i,
    {
        if a[i] != b[i] {
            return false;
        }
        i = i + 1;
    }
    proof {
        assert(a@ =~= b@);
    }
    true
}

/// Whether `c` is among the characters `set`.
pub fn has_char(set: &Vec<char>, c: char) -> (found: bool)
    ensures
        found == set@.contains(c),
{
    let mut i: usize = 0;
    while i < set.len()
        invariant
            i <= set@.len(),
            forall|k: int| 0 <= k < i ==> set@[k] != c,
        decreases set@.len() - i,
    {
        if set[i] == c {
            return true;
        }
        i = i + 1;
    }
    false
}

/// The pieces of `s` between the occurrences of `d`. There is always a
/// piece, if only the empty one.
pub open spec fn split_on(s: Seq<char>, d: char) -> Seq<Seq<char>>
    decreases s.len(),
{
    if s.len() == 0 {
        seq![Seq::empty()]
    } else {
        let init = split_on(s.drop_last(), d);
        if s.last() == d {
            init.push(Seq::empty())
        } else {
            init.drop_last().push(init.last().push(s.last()))
        }
    }
}

/// There is always a piece.
pub proof fn lemma_split_on_nonempty(s: Seq<char>, d: char)
    ensures
        split_on(s, d).len() >= 1,
    decreases s.len(),
{
    if s.len() > 0 {
        lemma_split_on_nonempty(s.drop_last(), d);
    }
}

/// The strings as sequences of characters.
pub open spec fn texts(strings: Seq<String>) -> Seq<Seq<char>> {
    Seq::new(strings.len(), |i: int| strings[i]@)
}

/// The pieces of `line` between the occurrences of `d`.
pub fn split(line: &str, d: char) -> (pieces: Vec<String>)
    ensures
        texts(pieces@) == split_on(line@, d),
{
    let mut pieces: Vec<String> = Vec::new();
    let mut piece = String::new();
    for c in it: line.chars()
        invariant
            it.seq() == line@,
            split_on(line@.take(it.index() as int), d).len() >= 1,
            piece@ == split_on(line@.take(it.index() as int), d).last(),
            texts(pieces@) == split_on(line@.take(it.index() as int), d).drop_last(),
    {
        let ghost i = it.index() as int;
        let ghost init = split_on(line@.take(i), d);
        let ghost before = pieces@;
        proof {
            assert(line@.take(i + 1).drop_last() =~= line@.take(i));
            assert(line@.take(i + 1).last() == c);
            lemma_split_on_nonempty(line@.take(i + 1), d);
        }
        if c == d {
            pieces.push(piece);
            piece = String::new();
            proof {
                let next = split_on(line@.take(i + 1), d);
                assert(next.drop_last() =~= init);
                assert(texts(pieces@) =~= texts(before).push(init.last()));
                assert(init =~= init.drop_last().push(init.last()));
            }
        } else {
            piece.push(c);
            proof {
                let next = split_on(line@.take(i + 1), d);
                assert(next.drop_last() =~= init.drop_last());
            }
        }
    }
    let ghost before = pieces@;
    let ghost last = piece@;
    pieces.push(piece);
    proof {
        assert(line@.take(line@.len() as int) =~= line@);
        let all = split_on(line@, d);
        assert(texts(pieces@) =~= texts(before).push(last));
        assert(all =~= all.drop_last().push(all.last()));
    }
    pieces
}

} // verus!
