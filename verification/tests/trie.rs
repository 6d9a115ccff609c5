use puzzle_tools::regex::nfa::graph::NfaGraph;
use puzzle_tools::wordlist::index::Index;
use puzzle_tools::wordlist::trie::searchconfig::SearchConfig;
use puzzle_tools::wordlist::trie::trie::{ImmutableTrie, Trie};
use puzzle_tools::wordlist::trie::trie_builder::TrieBuilder;

fn seeded() -> (Trie, ImmutableTrie) {
    let words = vec!["HELLO", "HELP", "GOODBYE", "GOOD"];
    let mut trie = Trie::new();
    trie.add_all(&words);
    let mut immut = ImmutableTrie::new();
    trie.build(&mut immut);
    (trie, immut)
}

#[test]
fn trie_finds_words_in_trie() {
    let words = vec!["HELLO", "HELP", "GOODBYE", "GOOD"];
    let (trie, _immut) = seeded();
    (&words).iter().for_each(|word| assert!(trie.contains(&word)));
}

#[test]
fn trie_doesnt_finds_words_not_in_trie() {
    let bad_words = vec!["HE", "H", "LOL", "BANANA"];
    let (trie, _immut) = seeded();
    (&bad_words).iter().for_each(|word| assert!(!trie.contains(&word)));
}

#[test]
fn trie_query_words_in_trie() {
    let (trie, _immut) = seeded();

    let mut result = trie.query_regex("H.L*(O|P)").unwrap();
    result.sort();

    assert_eq!(result, vec!["HELLO", "HELP"])
}

#[test]
fn test_anagram() {
    let (trie, _immut) = seeded();

    assert_eq!(trie.query_anagram("OLEHL"), vec!["HELLO"]);
    assert!(trie.query_anagram("LEHL").is_empty());
    assert!(trie.query_anagram("LELO").is_empty());
    assert!(trie.query_anagram("DOG").is_empty());
    assert_eq!(trie.query_anagram("OOGD"), vec!["GOOD"]);
}

#[test]
fn test_anagram_multithreaded() {
    let (_mut_trie, trie) = seeded();
    let default_config = SearchConfig::new();

    assert_eq!(trie.query_anagram_results("OLEHL", &default_config), vec!["HELLO"]);
    assert_eq!(trie.query_anagram_results("OOGD", &default_config), vec!["GOOD"]);
    assert_eq!(trie.query_anagram_results("LEHL", &default_config), Vec::<String>::new());
    assert_eq!(trie.query_anagram_results("LELO", &default_config), Vec::<String>::new());
    assert_eq!(trie.query_anagram_results("DOG", &default_config), Vec::<String>::new());
}

#[test]
fn multithreaded_search_query_words_in_trie() {
    let (_mut_trie, immut) = seeded();
    let default_config = SearchConfig::new();

    let mut result = immut.query_regex_results("H.L*(O|P)", &default_config).unwrap();
    result.sort();

    assert_eq!(result, vec!["HELLO", "HELP"])
}

#[test]
fn query_words_in_trie_space_penalty() {
    let words = vec!["HELLO", "HELP", "GOODBYE", "GOOD", "BYE"];
    let mut mut_trie = Trie::new();
    mut_trie.add_all(&words);
    let mut immut = ImmutableTrie::new();
    mut_trie.build(&mut immut);
    let mut default_config = SearchConfig::new();
    default_config.space_penalty = Some(50);
    default_config.spaces_allowed = 3;

    let mut result = immut.query_regex_results("GOODBYE", &default_config).unwrap();
    result.sort();

    assert_eq!(result, vec!["GOOD BYE", "GOODBYE"])
}

#[test]
fn contains_tells_inserted_words_from_their_prefixes() {
    let (trie, immut) = seeded();
    assert!(trie.contains("HELLO"));
    assert!(!trie.contains("HE"));
    assert!(immut.contains("HELLO"));
    assert!(!immut.contains("HE"));
    assert!(!trie.contains(""));
    assert!(!trie.contains("hello"));
    assert!(!trie.contains("HELLO!"));
}

#[test]
fn five_letter_wildcards_find_each_five_letter_word_once() {
    let words = vec!["HELLO", "HELP", "GOODBYE", "GOOD", "BYE", "WORLD", "ABOUT"];
    let mut trie = Trie::new();
    trie.add_all(&words);
    let mut immut = ImmutableTrie::new();
    trie.build(&mut immut);
    let mut result = immut.query_regex_results(".....", &SearchConfig::new()).unwrap();
    result.sort();
    assert_eq!(result, vec!["ABOUT", "HELLO", "WORLD"]);
}

#[test]
fn a_malformed_regex_is_an_error() {
    let (trie, immut) = seeded();
    assert!(trie.query_regex("").is_err());
    assert!(trie.query_regex("(AB").is_err());
    assert!(immut.query_regex_results("AB)", &SearchConfig::new()).is_err());
    assert_eq!(immut.query_regex_results("A[", &SearchConfig::new()).unwrap_err().position, 1);
}

#[test]
fn frequencies_add_up_and_the_total_is_kept() {
    let mut trie = Trie::new();
    trie.add_with_freq("CAT", 5);
    trie.add_with_freq("CAT", 7);
    trie.add("CAR");
    assert_eq!(trie.total(), 13);
    assert!(!trie.built());
    let mut immut = ImmutableTrie::new();
    assert!(!immut.built());
    trie.build(&mut immut);
    assert!(trie.built());
    assert!(immut.built());
    assert!(trie.contains("CAT"));
    assert!(trie.contains("CAR"));
    assert!(!trie.contains("CA"));
}

#[test]
fn pruning_drops_rare_words_and_keeps_no_other() {
    let mut trie = Trie::new();
    trie.add_with_freq("CAT", 5);
    trie.add_with_freq("CAR", 1);
    trie.add_with_freq("CART", 9);
    let mut immut = ImmutableTrie::new();
    trie.build(&mut immut);
    let mut config = SearchConfig::new();
    let mut all = immut.query_regex_results("CA.T?", &config).unwrap();
    all.sort();
    assert_eq!(all, vec!["CAR", "CART", "CAT"]);
    config.prune_freq = 4;
    let mut pruned = immut.query_regex_results("CA.T?", &config).unwrap();
    pruned.sort();
    assert_eq!(pruned, vec!["CART", "CAT"]);
    for word in &pruned {
        assert!(all.contains(word));
    }
}

#[test]
fn max_results_caps_the_collected_results() {
    let (_trie, immut) = seeded();
    let mut config = SearchConfig::new();
    config.max_results = Some(1);
    let result = immut.query_regex_results("(HELLO|HELP|GOOD)", &config).unwrap();
    assert_eq!(result.len(), 1);
    config.max_results = Some(0);
    assert!(immut.query_regex_results("(HELLO|HELP|GOOD)", &config).unwrap().is_empty());
}

#[test]
fn the_callback_stops_the_search() {
    let (_trie, immut) = seeded();
    let config = SearchConfig::new();
    let mut seen: Vec<String> = Vec::new();
    let _ = immut.query_regex_multithreaded("(HELLO|HELP|GOOD)", &config, |word, _| {
        seen.push(word);
        seen.len() >= 2
    });
    assert_eq!(seen.len(), 2);
    let mut all: Vec<String> = Vec::new();
    let _ = immut.query_anagram_multithreaded("OLEHL", &config, |word, _| {
        all.push(word);
        false
    });
    assert_eq!(all, vec!["HELLO"]);
}

#[test]
fn short_words_are_no_results_under_the_default_options() {
    let mut trie = Trie::new();
    trie.add_all(&vec!["AB", "ABC"]);
    let mut immut = ImmutableTrie::new();
    trie.build(&mut immut);
    let mut config = SearchConfig::new();
    assert_eq!(immut.query_regex_results("ABC?", &config).unwrap(), vec!["ABC"]);
    config.min_word_len = 2;
    let mut both = immut.query_regex_results("ABC?", &config).unwrap();
    both.sort();
    assert_eq!(both, vec!["AB", "ABC"]);
    let mut plain = trie.query_regex("ABC?").unwrap();
    plain.sort();
    assert_eq!(plain, vec!["AB", "ABC"]);
}

#[test]
fn anagrams_of_several_words() {
    let words = vec!["GOOD", "BYE", "GOODBYE"];
    let mut trie = Trie::new();
    trie.add_all(&words);
    let mut immut = ImmutableTrie::new();
    trie.build(&mut immut);
    let mut config = SearchConfig::new();
    config.space_penalty = Some(10);
    config.spaces_allowed = 1;
    let mut result = immut.query_anagram_results("EYBDOOG", &config);
    result.sort();
    assert_eq!(result, vec!["BYE GOOD", "GOOD BYE", "GOODBYE"]);
}

fn letters_sorted(text: &str) -> Vec<char> {
    let mut letters: Vec<char> = text.chars().filter(|c| *c != ' ').collect();
    letters.sort();
    letters
}

#[test]
fn anagram_results_use_the_letters_of_the_query() {
    let words = vec!["LISTEN", "SILENT", "ENLIST", "TINSEL", "LIST", "TEN", "NET", "SIT", "LENS"];
    let mut trie = Trie::new();
    trie.add_all(&words);
    let mut immut = ImmutableTrie::new();
    trie.build(&mut immut);
    let mut config = SearchConfig::new();
    let mut single = immut.query_anagram_results("NELIST", &config);
    single.sort();
    assert_eq!(single, vec!["ENLIST", "LISTEN", "SILENT", "TINSEL"]);
    config.space_penalty = Some(1);
    config.spaces_allowed = 2;
    let found = immut.query_anagram_results("NELIST", &config);
    assert!(found.contains(&"LISTEN".to_string()));
    assert!(found.contains(&"SIT LEN".to_string()) == false);
    for result in &found {
        assert_eq!(letters_sorted(result), letters_sorted("NELIST"));
        for token in result.split(' ') {
            assert!(immut.contains(token));
        }
    }
    let mut unique = found.clone();
    unique.sort();
    unique.dedup();
    assert_eq!(unique.len(), found.len());
}

#[test]
fn every_inserted_word_is_found_by_a_regex_that_matches_it() {
    let words = vec!["HELLO", "HELP", "GOODBYE", "GOOD", "BYE", "HELLOS", "HEL"];
    let mut trie = Trie::new();
    trie.add_all(&words);
    let mut immut = ImmutableTrie::new();
    trie.build(&mut immut);
    let config = SearchConfig::new();
    let cases = vec![
        ("HELLO", "HELLO"),
        ("HELLO", "HEL*O"),
        ("HELLO", "H.L*O"),
        ("HELLO", "(HELLO|XYZ)"),
        ("HELLO", "[GH]E(LL|PP)O"),
        ("HELLO", "HELLOS?"),
        ("HELLOS", "HELLOS?"),
        ("GOODBYE", "(GOOD)?(BYE)*"),
        ("GOOD", "(GOOD)?(BYE)*"),
        ("BYE", "(GOOD)?(BYE)*"),
        ("HEL", "(H|E|L)*"),
    ];
    for (word, regex) in cases {
        let found = immut.query_regex_results(regex, &config).unwrap();
        assert!(found.contains(&word.to_string()), "{} by {}", word, regex);
        let plain = trie.query_regex(regex).unwrap();
        assert!(plain.contains(&word.to_string()), "{} by {}", word, regex);
    }
    assert!(!immut.query_regex_results("HEL*O", &config).unwrap().contains(&"HELP".to_string()));
}

#[test]
fn a_word_added_twice_is_found_once() {
    let mut trie = Trie::new();
    trie.add("TWICE");
    trie.add("TWICE");
    trie.add("ONCE");
    let mut immut = ImmutableTrie::new();
    trie.build(&mut immut);
    assert_eq!(trie.total(), 3);
    // a wildcard takes no star, and a set no range
    assert_eq!(immut.query_regex_results(".*.", &SearchConfig::new()).unwrap_err().position, 1);
    assert!(immut.query_regex_results("[A-Z]", &SearchConfig::new()).is_err());
    let mut all = immut.query_regex_results("(TWICE|ONCE)", &SearchConfig::new()).unwrap();
    all.sort();
    assert_eq!(all, vec!["ONCE", "TWICE"]);
    // building again changes nothing
    trie.build(&mut immut);
    let mut again = immut.query_regex_results("(TWICE|ONCE)", &SearchConfig::new()).unwrap();
    again.sort();
    assert_eq!(again, all);
}

#[test]
fn a_builder_gives_the_trie_of_what_was_added() {
    let builder = TrieBuilder::new().add("HELLO").add_with_freq("HELP", 4).add_all(&vec!["GOOD", "HELP"]);
    assert_eq!(builder.total(), 7);
    let (trie, immut) = builder.build();
    for word in ["HELLO", "HELP", "GOOD"] {
        assert!(trie.contains(word));
        assert!(immut.contains(word));
    }
    for word in ["HEL", "GOODBYE", "", "BYE"] {
        assert!(!trie.contains(word));
        assert!(!immut.contains(word));
    }
    let help = trie.get_node("HELP").unwrap();
    assert_eq!(trie.arena()[help].freq, 5);
    let (empty, frozen) = TrieBuilder::new().build();
    assert!(!empty.contains(""));
    assert!(frozen.built());
    assert_eq!(frozen.arena().len(), 1);
}

#[test]
fn a_compiled_automaton_queries_as_its_regex_does() {
    let (_trie, immut) = seeded();
    let config = SearchConfig::new();
    let graph = NfaGraph::from_regex("GOOD(BYE)?").unwrap();

    let mut by_graph = immut.query_graph_results(&graph, &config);
    by_graph.sort();
    let mut by_regex = immut.query_regex_results("GOOD(BYE)?", &config).unwrap();
    by_regex.sort();

    assert_eq!(by_graph, vec!["GOOD", "GOODBYE"]);
    assert_eq!(by_graph, by_regex);
}

#[test]
fn an_index_holds_what_was_added_to_it() {
    let mut trie = Trie::new();
    Index::add(&mut trie, "HELLO");
    assert!(Index::contains(&trie, "HELLO"));
    assert!(!Index::contains(&trie, "HELL"));
    assert!(!Index::contains(&trie, "GOOD"));

    Index::add_all(&mut trie, &["GOOD", "GOODBYE"]);
    assert!(Index::contains(&trie, "HELLO"));
    assert!(Index::contains(&trie, "GOOD"));
    assert!(Index::contains(&trie, "GOODBYE"));
    assert!(!Index::contains(&trie, "GOODB"));
    assert_eq!(trie.total(), 3);
}
