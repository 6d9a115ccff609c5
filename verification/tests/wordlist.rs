use puzzle_tools::wordlist::trie::searchconfig::SearchConfig;
use puzzle_tools::wordlist::wordlist::{FileFormat, LineError, LoadReport, Wordlist};

fn lines(text: &[&str]) -> Vec<String> {
    text.iter().map(|s| s.to_string()).collect()
}

fn seeded() -> Wordlist {
    let mut wl = Wordlist::new();
    let report = wl.load_lines(
        &lines(&["hello", "help", "goodbye", "good", "bye"]),
        &FileFormat::builder().build(),
    );
    assert_eq!(report, LoadReport { count: 5, failures: 0 });
    wl
}

#[test]
fn a_word_list_is_not_loaded_until_it_is() {
    let mut wl = Wordlist::new();
    assert!(!wl.loaded());
    wl.load_lines(&lines(&[]), &FileFormat::builder().build());
    assert!(wl.loaded());
}

#[test]
fn contains_after_load() {
    let wl = seeded();
    assert!(wl.contains("HELLO"));
    assert!(!wl.contains("HE"));
}

#[test]
fn search_finds_what_the_regex_matches() {
    let wl = seeded();
    let mut found = wl.search("H.L*(O|P)").unwrap();
    found.sort();
    assert_eq!(found, vec!["HELLO", "HELP"]);
    let mut found = wl.search_multithreaded("H.L*(O|P)", &SearchConfig::new()).unwrap();
    found.sort();
    assert_eq!(found, vec!["HELLO", "HELP"]);
    assert!(wl.search("H.L*(O|P").is_err());
}

#[test]
fn anagrams_after_load() {
    let wl = seeded();
    assert_eq!(wl.anagram("OLEHL"), vec!["HELLO"]);
    assert!(wl.anagram("DOG").is_empty());
    assert_eq!(wl.anagram("OOGD"), vec!["GOOD"]);
    assert_eq!(wl.anagram_multithreaded("OOGD", &SearchConfig::new()), vec!["GOOD"]);
}

#[test]
fn composed_results_with_a_space_penalty() {
    let wl = seeded();
    let mut config = SearchConfig::new();
    config.space_penalty = Some(50);
    config.spaces_allowed = 3;
    config.min_word_len = 3;
    let mut found = wl.search_multithreaded("GOODBYE", &config).unwrap();
    found.sort();
    assert_eq!(found, vec!["GOOD BYE", "GOODBYE"]);
}

#[test]
fn callbacks_get_each_result() {
    let wl = seeded();
    let config = SearchConfig::new();
    let mut seen = Vec::new();
    let _ = wl.search_callback("(HELLO|HELP)", &config, |word, _| {
        seen.push(word);
        false
    });
    seen.sort();
    assert_eq!(seen, vec!["HELLO", "HELP"]);
    let mut first = Vec::new();
    let _ = wl.anagram_callback("PLEH", &config, |word, _| {
        first.push(word);
        true
    });
    assert_eq!(first, vec!["HELP"]);
}

#[test]
fn a_bare_line_is_a_word_of_frequency_one() {
    let format = FileFormat::builder().build();
    assert_eq!(format.parse_line("apple pie"), Ok(("apple pie".to_string(), 1)));
}

#[test]
fn columns_are_split_at_the_delimiter() {
    let format = FileFormat::builder().delimiter(' ').word_column(1).freq_column(0).build();
    assert_eq!(format.parse_line("12 apple"), Ok(("apple".to_string(), 12)));
    assert_eq!(format.parse_line("12 apple extra"), Ok(("apple".to_string(), 12)));
    let format = FileFormat::builder().delimiter(',').build();
    assert_eq!(format.parse_line("apple,7"), Ok(("apple".to_string(), 7)));
    assert_eq!(format.parse_line("apple,0"), Ok(("apple".to_string(), 0)));
}

#[test]
fn each_kind_of_bad_line() {
    let format = FileFormat::builder().delimiter(',').build();
    assert_eq!(format.parse_line("apple"), Err(LineError::NotEnoughColumns));
    assert_eq!(format.parse_line(""), Err(LineError::NotEnoughColumns));
    assert_eq!(format.parse_line("apple,many"), Err(LineError::BadFrequency));
    assert_eq!(format.parse_line("apple,"), Err(LineError::BadFrequency));
    assert_eq!(format.parse_line("apple,1.5"), Err(LineError::BadFrequency));
    assert_eq!(format.parse_line("apple,99999999999999999999"), Err(LineError::BadFrequency));
    assert_eq!(format.parse_line("apple,-3"), Err(LineError::NegativeFrequency));
}

#[test]
fn loading_counts_words_and_failures() {
    let mut wl = Wordlist::new();
    let format = FileFormat::builder().delimiter(' ').word_column(1).freq_column(0).build();
    let report = wl.load_lines(
        &lines(&["10 cat", "", "x dog", "5 cat", "oops", "3 Car-t", "-1 cow"]),
        &format,
    );
    assert_eq!(report, LoadReport { count: 3, failures: 3 });
    assert!(wl.contains("CAT"));
    assert!(wl.contains("CART"));
    assert!(!wl.contains("DOG"));
    assert!(!wl.contains("COW"));
    let mut config = SearchConfig::new();
    config.prune_freq = 14;
    assert_eq!(wl.search_multithreaded("CA.T?", &config).unwrap(), vec!["CAT"]);
}

#[test]
fn a_frequency_beyond_the_total_is_a_failure() {
    let mut wl = Wordlist::new();
    let format = FileFormat::builder().delimiter(' ').word_column(1).freq_column(0).build();
    let report = wl.load_lines(
        &lines(&["9223372036854775807 big", "9223372036854775807 bigger", "5 small"]),
        &format,
    );
    assert_eq!(report, LoadReport { count: 2, failures: 1 });
    assert!(wl.contains("BIG"));
    assert!(wl.contains("BIGGER"));
    assert!(!wl.contains("SMALL"));
}
