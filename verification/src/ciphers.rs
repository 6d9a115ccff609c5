//! Classical ciphers on words.

use vstd::prelude::*;
use vstd::string::StringSliceAdditionalSpecFns;

pub mod morse;

verus! {

/// The remainder of the division of `x` by 26 that rounds towards zero.
pub open spec fn rem26(x: int) -> int {
    if x >= 0 {
        x % 26
    } else {
        -((-x) % 26)
    }
}

/// The byte that the shift takes `c` to: a lower-case ASCII letter goes
/// `shift` places on among the lower-case letters, an upper-case one among
/// the upper-case letters, counted with the remainder that rounds towards
/// zero; any other byte stays.
pub open spec fn shifted(c: u8, shift: i32) -> u8 {
    if 97 <= c <= 122 {
        (rem26(c - 97 + shift) + 97) as u8
    } else if 65 <= c <= 90 {
        (rem26(c - 65 + shift) + 65) as u8
    } else {
        c
    }
}

fn rem26_of(x: i64) -> (r: i64)
    requires
        i64::MIN < x,
    ensures
        r == rem26(x as int),
        -26 < r < 26,
{
    if x >= 0 {
        x % 26
    } else {
        -((-x) % 26)
    }
}

/// Shifts one byte.
pub fn shift_letter(c: &u8, shift: i32) -> (r: u8)
    ensures
        r == shifted(*c, shift),
{
    let b = *c;
    if 97 <= b && b <= 122 {
        (rem26_of(b as i64 - 97 + shift as i64) + 97) as u8
    } else if 65 <= b && b <= 90 {
        (rem26_of(b as i64 - 65 + shift as i64) + 65) as u8
    } else {
        b
    }
}

/// The Caesar cipher: every byte of `word` shifted, and each shifted byte
/// taken as the character of that code.
pub fn caesar(word: &str, shift: i32) -> (out: String)
    ensures
        out@.len() == word.spec_bytes().len(),
        forall|i: int|
            0 <= i < out@.len() ==> out@[i] == shifted(#[trigger] word.spec_bytes()[i], shift) as char,
{
    let bytes = word.as_bytes();
    let mut out = String::new();
    let mut i: usize = 0;
    while i < bytes.len()
        invariant
            i <= bytes@.len(),
            bytes@ == word.spec_bytes(),
            out@.len() == i,
            forall|k: int| 0 <= k < i ==> out@[k] == shifted(#[trigger] bytes@[k], shift) as char,
        decreases bytes@.len() - i,
    {
        out.push(shift_letter(&bytes[i], shift) as char);
        i = i + 1;
    }
    out
}

} // verus!
