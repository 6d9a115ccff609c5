use puzzle_tools::alphabet::{fold_char, get_idx, normalize, slot_of, symbol_of, ALPHABET_LEN};

#[test]
fn slots_of_letters_and_space() {
    assert_eq!(get_idx('A'), 0);
    assert_eq!(get_idx('Z'), 25);
    assert_eq!(get_idx(' '), 26);
    assert_eq!(get_idx('a'), 0);
    assert_eq!(get_idx('m'), 12);
    assert_eq!(ALPHABET_LEN, 27);
}

#[test]
fn only_symbols_have_a_slot() {
    assert_eq!(slot_of('A'), Some(0));
    assert_eq!(slot_of(' '), Some(26));
    assert_eq!(slot_of('a'), None);
    assert_eq!(slot_of('1'), None);
    assert_eq!(slot_of('É'), None);
    for slot in 0..27 {
        assert_eq!(slot_of(symbol_of(slot)), Some(slot));
    }
}

#[test]
fn folding_raises_ascii_letters_only() {
    assert_eq!(fold_char('q'), 'Q');
    assert_eq!(fold_char('Q'), 'Q');
    assert_eq!(fold_char('é'), 'é');
    assert_eq!(fold_char('-'), '-');
}

#[test]
fn normalize_folds_to_the_alphabet() {
    assert_eq!(normalize("Hello, World!"), "HELLO WORLD");
    assert_eq!(normalize("añb1c"), "ABC");
    assert_eq!(normalize(""), "");
    assert_eq!(normalize("  "), "  ");
    assert_eq!(normalize("ALREADY"), "ALREADY");
}
