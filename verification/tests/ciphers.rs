use puzzle_tools::ciphers::morse::{morse_char, morse_spaces, MORSE_CHARS};
use puzzle_tools::ciphers::{caesar, shift_letter};

#[test]
fn caesar_shifts_letters_and_keeps_the_rest() {
    assert_eq!(caesar("abc", 1), "bcd");
    assert_eq!(caesar("xyz", 3), "abc");
    assert_eq!(caesar("Hello, World!", 13), "Uryyb, Jbeyq!");
    assert_eq!(caesar("ABC", 26), "ABC");
    assert_eq!(caesar("", 5), "");
}

#[test]
fn a_shift_below_zero_does_not_wrap() {
    // the remainder rounds towards zero, so a letter can leave the alphabet
    assert_eq!(shift_letter(&b'a', -1), 96);
    assert_eq!(shift_letter(&b'c', -1), b'b');
    assert_eq!(shift_letter(&b'A', -27), 64);
    assert_eq!(shift_letter(&b'!', 7), b'!');
    assert_eq!(shift_letter(&b'z', i32::MAX), b'a' + ((25 + (i32::MAX as i64)) % 26) as u8);
}

#[test]
fn morse_codes_of_letters() {
    assert_eq!(morse_char("._"), 'A');
    assert_eq!(morse_char("_..."), 'B');
    assert_eq!(morse_char("..-."), 'F');
    assert_eq!(morse_char("__.."), 'Z');
    assert_eq!(morse_char(""), '?');
    assert_eq!(morse_char(".._."), '?');
    for (i, code) in MORSE_CHARS.iter().enumerate() {
        assert_eq!(morse_char(code), (b'A' + i as u8) as char);
    }
}

#[test]
fn morse_words_split_at_spaces() {
    assert_eq!(morse_spaces("... ___ ..."), "SOS");
    assert_eq!(morse_spaces("._"), "A");
    assert_eq!(morse_spaces(""), "?");
    assert_eq!(morse_spaces("._  _..."), "A?B");
    assert_eq!(morse_spaces("._ "), "A?");
}
