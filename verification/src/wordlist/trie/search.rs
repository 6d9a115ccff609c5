//! The searches as their callers see them: all results collected, or each
//! handed to a callback as it is found.

use vstd::prelude::*;
use crate::regex::language::regex_matches;
use crate::regex::nfa::graph::NfaGraph;
use crate::regex::nfa::language::lemma_regex_start;
use crate::regex::nfa::run::{closure_set, language, RegexCursor};
use crate::regex::nfa::state::NfaState;
use crate::regex::parse::{is_regex, RegexError};
use crate::wordlist::trie::cursor::{
    count_in, cursor_accepts, is_anagram, lemma_anagram_start, letters_of, AnagramCursor, StateT,
};
use crate::wordlist::trie::driver::Search;
use crate::wordlist::trie::multithreaded_search::ResultCallback;
use crate::wordlist::trie::node::{decorated, has_word, wf_nodes, TrieNode};
use crate::wordlist::trie::search_model::{
    final_ok, is_match, is_result, join, lemma_prune_shape, lemma_result_is_match, letters,
    split_ok, with_prune,
};
use crate::wordlist::trie::searchconfig::SearchConfig;
use crate::wordlist::trie::trie::{ImmutableTrie, Trie};

verus! {

/// `text` is one of the strings `results`.
pub open spec fn has_text(results: Seq<String>, text: Seq<char>) -> bool {
    exists|i: int| 0 <= i < results.len() && (#[trigger] results[i])@ == text
}

/// The strings `results` are `found`, one for one: the words of each
/// joined by spaces.
pub open spec fn spelled(results: Seq<String>, found: Seq<Seq<Seq<char>>>) -> bool {
    &&& found.len() == results.len()
    &&& forall|i: int| 0 <= i < results.len() ==> (#[trigger] results[i])@ == join(found[i])
}

/// `results` is what a collecting search of `nodes` under `config` from the
/// cursor `start` returns: the strings of results, of which none comes
/// twice; no more than `max_results` of them; and where there are fewer
/// than that, every result is among them.
pub open spec fn results_of<C: StateT>(
    nodes: Seq<TrieNode>,
    config: SearchConfig,
    start: C::V,
    results: Seq<String>,
) -> bool {
    &&& exists|found: Seq<Seq<Seq<char>>>|
        {
            &&& #[trigger] spelled(results, found)
            &&& found.no_duplicates()
            &&& forall|i: int|
                0 <= i < found.len() ==> is_result::<C>(nodes, config, start, #[trigger] found[i])
        }
    &&& config.max_results matches Some(max) ==> results.len() <= max
    &&& (config.max_results is None || results.len() < config.max_results->0) ==> forall|
        words: Seq<Seq<char>>,
    | #[trigger]
        is_result::<C>(nodes, config, start, words) ==> has_text(results, join(words))
}

/// `handed` is what a search with a callback hands to it, each result as its
/// words: each is a result, and, unless the callback stopped the search,
/// every result is among them.
pub open spec fn handed_of<C: StateT>(
    nodes: Seq<TrieNode>,
    config: SearchConfig,
    start: C::V,
    handed: Seq<Seq<Seq<char>>>,
    stopped: bool,
) -> bool {
    &&& forall|i: int|
        0 <= i < handed.len() ==> is_result::<C>(nodes, config, start, #[trigger] handed[i])
    &&& handed.no_duplicates()
    &&& !stopped ==> forall|words: Seq<Seq<char>>| #[trigger]
        is_result::<C>(nodes, config, start, words) ==> handed.contains(words)
}

/// Searches `nodes` best first from the root with the cursor
/// `starting_state`, and collects the results in the order in which it
/// finds them. With `max_results` set it stops at the first result beyond
/// that many, which it drops.
#[verifier::rlimit(40)]
pub fn best_first_search_results<C: StateT>(
    nodes: &Vec<TrieNode>,
    starting_state: C,
    config: &SearchConfig,
) -> (results: Vec<String>)
    requires
        wf_nodes(nodes@),
        decorated(nodes@),
        starting_state.wf(),
    ensures
        results_of::<C>(nodes@, *config, starting_state@, results@),
{
    let ghost start = starting_state@;
    let mut search = Search::new(nodes, config, starting_state);
    let mut results: Vec<String> = Vec::new();
    loop
        invariant_except_break
            search.inv(),
            !search.stopped(),
            search.nodes() == nodes@,
            search.config() == *config,
            search.start() == start,
            spelled(results@, search.found()),
            config.max_results matches Some(max) ==> results@.len() <= max,
        ensures
            results_of::<C>(nodes@, *config, start, results@),
        decreases search.potential(),
    {
        let ghost found0 = search.found();
        proof {
            search.lemma_found_once();
            assert forall|i: int| 0 <= i < found0.len() implies is_result::<C>(
                nodes@,
                *config,
                start,
                #[trigger] found0[i],
            ) by {
                search.lemma_found_sound(i);
            }
        }
        match search.next() {
            None => {
                proof {
                    assert forall|words: Seq<Seq<char>>| #[trigger]
                        is_result::<C>(nodes@, *config, start, words) implies has_text(
                        results@,
                        join(words),
                    ) by {
                        search.lemma_found_complete(words);
                        let i = choose|i: int|
                            0 <= i < search.found().len() && search.found()[i] == words;
                        assert(results@[i]@ == join(words));
                    }
                    assert(spelled(results@, found0));
                }
                break;
            },
            Some(result) => {
                let full = match config.max_results {
                    Some(max) => results.len() >= max,
                    None => false,
                };
                if full {
                    proof {
                        assert(spelled(results@, found0));
                    }
                    search.stop();
                    break;
                }
                let ghost before = results@;
                results.push(result);
                proof {
                    let found1 = search.found();
                    assert forall|i: int| 0 <= i < results@.len() implies (
                    #[trigger] results@[i])@ == join(found1[i]) by {
                        if i < before.len() {
                            assert(results@[i] == before[i]);
                            assert(found1[i] == found1.drop_last()[i]);
                        }
                    }
                }
            },
        }
    }
    results
}

/// The callback, handed the result `words` as a string under the options
/// `config`, answers `stop`.
pub open spec fn answers<F: ResultCallback>(
    callback: F,
    config: SearchConfig,
    words: Seq<Seq<char>>,
    stop: bool,
) -> bool {
    exists|text: String, options: &SearchConfig|
        text@ == join(words) && *options == config && #[trigger] call_ensures(
            callback,
            (text, options),
            stop,
        )
}

/// The callback was handed each of `handed`, in their order, and answered
/// `true` to the last of them only, and to that one only where it stopped
/// the search.
pub open spec fn handed_to<F: ResultCallback>(
    callback: F,
    config: SearchConfig,
    handed: Seq<Seq<Seq<char>>>,
    stopped: bool,
) -> bool {
    &&& stopped ==> handed.len() > 0
    &&& forall|i: int|
        0 <= i < handed.len() ==> answers(
            callback,
            config,
            #[trigger] handed[i],
            stopped && i == handed.len() - 1,
        )
}

/// Searches `nodes` best first from the root with the cursor
/// `starting_state`, and hands each result to `result_callback` as it finds
/// it, until the callback returns `true` or no result is left. It returns,
/// for the proofs, the results that it handed over, each as its words, and
/// whether the callback stopped it.
#[verifier::rlimit(40)]
pub fn best_first_search<C: StateT, F: ResultCallback>(
    nodes: &Vec<TrieNode>,
    starting_state: C,
    config: &SearchConfig,
    result_callback: &mut F,
) -> (handed: Ghost<(Seq<Seq<Seq<char>>>, bool)>)
    requires
        wf_nodes(nodes@),
        decorated(nodes@),
        starting_state.wf(),
        forall|result: String, options: &SearchConfig|
            call_requires(*old(result_callback), (result, options)),
    ensures
        handed_of::<C>(nodes@, *config, starting_state@, handed@.0, handed@.1),
        handed_to(*old(result_callback), *config, handed@.0, handed@.1),
{
    let ghost start = starting_state@;
    let mut search = Search::new(nodes, config, starting_state);
    let mut stopped = false;
    loop
        invariant_except_break
            search.inv(),
            !search.stopped(),
            !stopped,
            search.nodes() == nodes@,
            search.config() == *config,
            search.start() == start,
            forall|result: String, options: &SearchConfig|
                call_requires(*result_callback, (result, options)),
            *result_callback == *old(result_callback),
            handed_to(*old(result_callback), *config, search.found(), false),
        ensures
            handed_of::<C>(nodes@, *config, start, search.found(), stopped),
            handed_to(*old(result_callback), *config, search.found(), stopped),
        decreases search.potential(),
    {
        let ghost found0 = search.found();
        match search.next() {
            None => {
                proof {
                    search.lemma_found_once();
                    assert forall|i: int| 0 <= i < search.found().len() implies is_result::<C>(
                        nodes@,
                        *config,
                        start,
                        #[trigger] search.found()[i],
                    ) by {
                        search.lemma_found_sound(i);
                    }
                    assert forall|words: Seq<Seq<char>>| #[trigger]
                        is_result::<C>(nodes@, *config, start, words) implies search.found().contains(
                        words,
                    ) by {
                        search.lemma_found_complete(words);
                    }
                }
                break;
            },
            Some(result) => {
                let ghost text = result;
                let stop = result_callback(result, config);
                proof {
                    let found1 = search.found();
                    assert(call_ensures(*old(result_callback), (text, config), stop));
                    assert(answers(*old(result_callback), *config, found1.last(), stop));
                    assert forall|i: int| 0 <= i < found1.len() implies answers(
                        *old(result_callback),
                        *config,
                        #[trigger] found1[i],
                        stop && i == found1.len() - 1,
                    ) by {
                        if i < found0.len() {
                            assert(found1[i] == found1.drop_last()[i]);
                            assert(answers(*old(result_callback), *config, found0[i], false));
                        }
                    }
                }
                if stop {
                    stopped = true;
                    proof {
                        search.lemma_found_once();
                        assert forall|i: int| 0 <= i < search.found().len() implies is_result::<C>(
                            nodes@,
                            *config,
                            start,
                            #[trigger] search.found()[i],
                        ) by {
                            search.lemma_found_sound(i);
                        }
                    }
                    search.stop();
                    break;
                }
            },
        }
    }
    Ghost((search.found(), stopped))
}

/// `results` is what a collecting search of `nodes` under `config` for what
/// `ok` holds of returns: the strings of results, of which none comes
/// twice; no more than `max_results` of them; and where there are fewer
/// than that, every result is among them.
pub open spec fn matches_of(
    nodes: Seq<TrieNode>,
    config: SearchConfig,
    ok: spec_fn(Seq<char>) -> bool,
    results: Seq<String>,
) -> bool {
    &&& exists|found: Seq<Seq<Seq<char>>>|
        {
            &&& #[trigger] spelled(results, found)
            &&& found.no_duplicates()
            &&& forall|i: int|
                0 <= i < found.len() ==> is_match(nodes, config, ok, #[trigger] found[i])
        }
    &&& config.max_results matches Some(max) ==> results.len() <= max
    &&& (config.max_results is None || results.len() < config.max_results->0) ==> forall|
        words: Seq<Seq<char>>,
    | #[trigger] is_match(nodes, config, ok, words) ==> has_text(results, join(words))
}

/// `handed` is what a search for what `ok` holds of hands to its callback,
/// each result as its words: each is a result, and, unless the callback
/// stopped the search, every result is among them.
pub open spec fn handed_by(
    nodes: Seq<TrieNode>,
    config: SearchConfig,
    ok: spec_fn(Seq<char>) -> bool,
    handed: Seq<Seq<Seq<char>>>,
    stopped: bool,
) -> bool {
    &&& forall|i: int| 0 <= i < handed.len() ==> is_match(nodes, config, ok, #[trigger] handed[i])
    &&& handed.no_duplicates()
    &&& !stopped ==> forall|words: Seq<Seq<char>>| #[trigger]
        is_match(nodes, config, ok, words) ==> handed.contains(words)
}

/// What a regular expression matches.
pub open spec fn regex_lang(regex: Seq<char>) -> spec_fn(Seq<char>) -> bool {
    |letters: Seq<char>| regex_matches(regex, letters)
}

/// What an automaton accepts.
pub open spec fn graph_lang(g: Seq<NfaState>) -> spec_fn(Seq<char>) -> bool {
    |letters: Seq<char>| language(g, letters)
}

/// The anagrams of a query.
pub open spec fn anagram_lang(query: Seq<char>) -> spec_fn(Seq<char>) -> bool {
    |letters: Seq<char>| is_anagram(query, letters)
}

/// The options of the plain searches of a `Trie`: single words of any
/// length, nothing pruned, no limit on the number of results.
pub open spec fn plain() -> SearchConfig {
    SearchConfig {
        max_results: None,
        max_length: None,
        space_penalty: None,
        spaces_allowed: 0,
        min_word_len: 0,
        prune_freq: 0,
    }
}

/// The options of the plain searches of a `Trie`.
pub fn plain_config() -> (config: SearchConfig)
    ensures
        config == plain(),
{
    SearchConfig {
        max_results: None,
        max_length: None,
        space_penalty: None,
        spaces_allowed: 0,
        min_word_len: 0,
        prune_freq: 0,
    }
}

/// What a search from a cursor returns is what the search for what the
/// cursor accepts returns.
pub proof fn lemma_results_by<C: StateT>(
    nodes: Seq<TrieNode>,
    config: SearchConfig,
    start: C::V,
    ok: spec_fn(Seq<char>) -> bool,
    results: Seq<String>,
)
    requires
        results_of::<C>(nodes, config, start, results),
        forall|l: Seq<char>| #[trigger] ok(l) <==> cursor_accepts::<C>(start, l),
    ensures
        matches_of(nodes, config, ok, results),
{
    let found = choose|found: Seq<Seq<Seq<char>>>|
        {
            &&& #[trigger] spelled(results, found)
            &&& found.no_duplicates()
            &&& forall|i: int|
                0 <= i < found.len() ==> is_result::<C>(nodes, config, start, #[trigger] found[i])
        };
    assert forall|i: int| 0 <= i < found.len() implies is_match(
        nodes,
        config,
        ok,
        #[trigger] found[i],
    ) by {
        assert(ok(letters(found[i])) <==> cursor_accepts::<C>(start, letters(found[i])));
        lemma_result_is_match::<C>(nodes, config, start, ok, found[i]);
    }
    assert(spelled(results, found));
    if config.max_results is None || results.len() < config.max_results->0 {
        assert forall|words: Seq<Seq<char>>| #[trigger]
            is_match(nodes, config, ok, words) implies has_text(results, join(words)) by {
            assert(ok(letters(words)) <==> cursor_accepts::<C>(start, letters(words)));
            lemma_result_is_match::<C>(nodes, config, start, ok, words);
            assert(is_result::<C>(nodes, config, start, words));
        }
    }
}

/// What a search from a cursor hands over is what the search for what the
/// cursor accepts hands over.
pub proof fn lemma_handed_by<C: StateT>(
    nodes: Seq<TrieNode>,
    config: SearchConfig,
    start: C::V,
    ok: spec_fn(Seq<char>) -> bool,
    handed: Seq<Seq<Seq<char>>>,
    stopped: bool,
)
    requires
        handed_of::<C>(nodes, config, start, handed, stopped),
        forall|l: Seq<char>| #[trigger] ok(l) <==> cursor_accepts::<C>(start, l),
    ensures
        handed_by(nodes, config, ok, handed, stopped),
{
    assert forall|i: int| 0 <= i < handed.len() implies is_match(
        nodes,
        config,
        ok,
        #[trigger] handed[i],
    ) by {
        assert(ok(letters(handed[i])) <==> cursor_accepts::<C>(start, letters(handed[i])));
        lemma_result_is_match::<C>(nodes, config, start, ok, handed[i]);
    }
    if !stopped {
        assert forall|words: Seq<Seq<char>>| #[trigger]
            is_match(nodes, config, ok, words) implies handed.contains(words) by {
            assert(ok(letters(words)) <==> cursor_accepts::<C>(start, letters(words)));
            lemma_result_is_match::<C>(nodes, config, start, ok, words);
            assert(is_result::<C>(nodes, config, start, words));
        }
    }
}

/// The collected results of the search of `nodes` by the automaton `graph`.
pub fn graph_results(nodes: &Vec<TrieNode>, graph: &NfaGraph, config: &SearchConfig) -> (results:
    Vec<String>)
    requires
        wf_nodes(nodes@),
        decorated(nodes@),
        graph.states().len() > 0,
    ensures
        matches_of(nodes@, *config, graph_lang(graph.states()), results@),
{
    let results = best_first_search_results(nodes, RegexCursor::new(graph), config);
    proof {
        let g = graph.states();
        assert forall|l: Seq<char>| #[trigger] graph_lang(g)(l) <==> cursor_accepts::<RegexCursor>(
            (g, closure_set(g, 0)),
            l,
        ) by {
            lemma_regex_start(g, l);
        }
        lemma_results_by::<RegexCursor>(
            nodes@,
            *config,
            (g, closure_set(g, 0)),
            graph_lang(g),
            results@,
        );
    }
    results
}

/// The collected results of the search of `nodes` by the regular
/// expression `regex`; or an error where `regex` is none.
pub fn regex_results(nodes: &Vec<TrieNode>, regex: &str, config: &SearchConfig) -> (r: Result<
    Vec<String>,
    RegexError,
>)
    requires
        wf_nodes(nodes@),
        decorated(nodes@),
    ensures
        r is Ok <==> is_regex(regex@),
        r matches Ok(results) ==> matches_of(nodes@, *config, regex_lang(regex@), results@),
{
    match NfaGraph::from_regex(regex) {
        Ok(graph) => {
            let results = graph_results(nodes, &graph, config);
            let ghost found = results@;
            proof {
                let g = graph.states();
                assert forall|l: Seq<char>| #[trigger] regex_lang(regex@)(l) <==> graph_lang(g)(
                    l,
                ) by {
                    assert(language(g, l) <==> regex_matches(regex@, l));
                }
                lemma_same_lang(nodes@, *config, graph_lang(g), regex_lang(regex@), found);
            }
            let r = Ok(results);
            assert(r->Ok_0@ == found);
            r
        },
        Err(e) => Err(e),
    }
}

/// What a search for one thing returns, the search for another returns
/// that holds of the same letters.
pub proof fn lemma_same_lang(
    nodes: Seq<TrieNode>,
    config: SearchConfig,
    ok: spec_fn(Seq<char>) -> bool,
    other: spec_fn(Seq<char>) -> bool,
    results: Seq<String>,
)
    requires
        matches_of(nodes, config, ok, results),
        forall|l: Seq<char>| #[trigger] other(l) <==> ok(l),
    ensures
        matches_of(nodes, config, other, results),
{
    let found = choose|found: Seq<Seq<Seq<char>>>|
        {
            &&& #[trigger] spelled(results, found)
            &&& found.no_duplicates()
            &&& forall|i: int|
                0 <= i < found.len() ==> is_match(nodes, config, ok, #[trigger] found[i])
        };
    assert forall|i: int| 0 <= i < found.len() implies is_match(
        nodes,
        config,
        other,
        #[trigger] found[i],
    ) by {
        assert(is_match(nodes, config, ok, found[i]));
        assert(other(letters(found[i])) <==> ok(letters(found[i])));
    }
    assert(spelled(results, found));
    if config.max_results is None || results.len() < config.max_results->0 {
        assert forall|words: Seq<Seq<char>>| #[trigger]
            is_match(nodes, config, other, words) implies has_text(results, join(words)) by {
            assert(other(letters(words)) <==> ok(letters(words)));
            assert(is_match(nodes, config, ok, words));
        }
    }
}

/// The collected anagrams of `word` in `nodes`.
pub fn anagram_results(nodes: &Vec<TrieNode>, word: &str, config: &SearchConfig) -> (results: Vec<
    String,
>)
    requires
        wf_nodes(nodes@),
        decorated(nodes@),
    ensures
        matches_of(nodes@, *config, anagram_lang(word@), results@),
{
    let results = best_first_search_results(nodes, AnagramCursor::get_counts(word), config);
    proof {
        assert forall|l: Seq<char>| #[trigger]
            anagram_lang(word@)(l) <==> cursor_accepts::<AnagramCursor>(letters_of(word@), l) by {
            lemma_anagram_start(word@, l);
        }
        lemma_results_by::<AnagramCursor>(
            nodes@,
            *config,
            letters_of(word@),
            anagram_lang(word@),
            results@,
        );
    }
    results
}

impl ImmutableTrie {
    /// The results of the search by the automaton `graph`, best first.
    pub fn query_graph_results(&self, graph: &NfaGraph, config: &SearchConfig) -> (results: Vec<
        String,
    >)
        requires
            self.wf(),
            self.is_built(),
            graph.states().len() > 0,
        ensures
            matches_of(self.nodes(), *config, graph_lang(graph.states()), results@),
    {
        graph_results(self.arena(), graph, config)
    }

    /// The results of the search by the regular expression `regex`, best
    /// first: the words of the trie, or with `space_penalty` set the
    /// sequences of them, which together `regex` matches and which the
    /// options let pass. Where `regex` is no regular expression, the error.
    pub fn query_regex_results(&self, regex: &str, config: &SearchConfig) -> (r: Result<
        Vec<String>,
        RegexError,
    >)
        requires
            self.wf(),
            self.is_built(),
        ensures
            r is Ok <==> is_regex(regex@),
            r matches Ok(results) ==> matches_of(
                self.nodes(),
                *config,
                regex_lang(regex@),
                results@,
            ),
    {
        regex_results(self.arena(), regex, config)
    }

    /// Hands each result of the search by the regular expression `regex` to
    /// `result_callback` as the search finds it, until the callback returns
    /// `true`; or returns an error where `regex` is none. It returns, for
    /// the proofs, the results that it handed over, and whether the
    /// callback stopped it.
    pub fn query_regex_multithreaded<F: ResultCallback>(
        &self,
        regex: &str,
        config: &SearchConfig,
        result_callback: F,
    ) -> (r: Result<Ghost<(Seq<Seq<Seq<char>>>, bool)>, RegexError>)
        requires
            self.wf(),
            self.is_built(),
            forall|result: String, options: &SearchConfig|
                call_requires(result_callback, (result, options)),
        ensures
            r is Ok <==> is_regex(regex@),
            r matches Ok(handed) ==> handed_by(
                self.nodes(),
                *config,
                regex_lang(regex@),
                handed@.0,
                handed@.1,
            ),
            r matches Ok(handed) ==> handed_to(result_callback, *config, handed@.0, handed@.1),
    {
        let mut result_callback = result_callback;
        match NfaGraph::from_regex(regex) {
            Ok(graph) => {
                let handed = best_first_search(
                    self.arena(),
                    RegexCursor::new(&graph),
                    config,
                    &mut result_callback,
                );
                proof {
                    let g = graph.states();
                    assert forall|l: Seq<char>| #[trigger]
                        regex_lang(regex@)(l) <==> cursor_accepts::<RegexCursor>(
                            (g, closure_set(g, 0)),
                            l,
                        ) by {
                        lemma_regex_start(g, l);
                        assert(language(g, l) <==> regex_matches(regex@, l));
                    }
                    lemma_handed_by::<RegexCursor>(
                        self.nodes(),
                        *config,
                        (g, closure_set(g, 0)),
                        regex_lang(regex@),
                        handed@.0,
                        handed@.1,
                    );
                }
                Ok(handed)
            },
            Err(e) => Err(e),
        }
    }

    /// The anagrams of `word`, best first: the words of the trie, or with
    /// `space_penalty` set the sequences of them, whose letters together
    /// are those of `word`, and which the options let pass.
    pub fn query_anagram_results(&self, word: &str, config: &SearchConfig) -> (results: Vec<
        String,
    >)
        requires
            self.wf(),
            self.is_built(),
        ensures
            matches_of(self.nodes(), *config, anagram_lang(word@), results@),
    {
        anagram_results(self.arena(), word, config)
    }

    /// Hands each anagram of `word` to `result_callback` as the search
    /// finds it, until the callback returns `true`. It returns, for the
    /// proofs, the results that it handed over, and whether the callback
    /// stopped it.
    pub fn query_anagram_multithreaded<F: ResultCallback>(
        &self,
        word: &str,
        config: &SearchConfig,
        result_callback: F,
    ) -> (handed: Ghost<(Seq<Seq<Seq<char>>>, bool)>)
        requires
            self.wf(),
            self.is_built(),
            forall|result: String, options: &SearchConfig|
                call_requires(result_callback, (result, options)),
        ensures
            handed_by(self.nodes(), *config, anagram_lang(word@), handed@.0, handed@.1),
            handed_to(result_callback, *config, handed@.0, handed@.1),
    {
        let mut result_callback = result_callback;
        let handed = best_first_search(
            self.arena(),
            AnagramCursor::get_counts(word),
            config,
            &mut result_callback,
        );
        proof {
            assert forall|l: Seq<char>| #[trigger]
                anagram_lang(word@)(l) <==> cursor_accepts::<AnagramCursor>(
                    letters_of(word@),
                    l,
                ) by {
                lemma_anagram_start(word@, l);
            }
            lemma_handed_by::<AnagramCursor>(
                self.nodes(),
                *config,
                letters_of(word@),
                anagram_lang(word@),
                handed@.0,
                handed@.1,
            );
        }
        handed
    }
}

impl Trie {
    /// The words of the trie that the regular expression `regex` matches,
    /// best first; or an error where `regex` is none.
    pub fn query_regex(&self, regex: &str) -> (r: Result<Vec<String>, RegexError>)
        requires
            self.wf(),
            self.is_built(),
        ensures
            r is Ok <==> is_regex(regex@),
            r matches Ok(results) ==> matches_of(self.nodes(), plain(), regex_lang(regex@), results@),
    {
        let config = plain_config();
        regex_results(self.arena(), regex, &config)
    }

    /// The words of the trie that are anagrams of `word`, best first.
    pub fn query_anagram(&self, word: &str) -> (results: Vec<String>)
        requires
            self.wf(),
            self.is_built(),
        ensures
            matches_of(self.nodes(), plain(), anagram_lang(word@), results@),
    {
        let config = plain_config();
        anagram_results(self.arena(), word, &config)
    }
}

/// Every word of the trie that a regular expression matches, and that the
/// options let pass as a result, is among the results of the search, where
/// `max_results` does not cut it short.
pub proof fn lemma_regex_round_trip(
    nodes: Seq<TrieNode>,
    config: SearchConfig,
    regex: Seq<char>,
    results: Seq<String>,
    word: Seq<char>,
)
    requires
        matches_of(nodes, config, regex_lang(regex), results),
        config.max_results is None || results.len() < config.max_results->0,
        final_ok(nodes, config, word),
        regex_matches(regex, word),
    ensures
        has_text(results, word),
{
    let words = seq![word];
    assert(words.drop_last() =~= Seq::<Seq<char>>::empty());
    assert(letters(words.drop_last()) =~= Seq::<char>::empty());
    assert(words.last() == word);
    assert(letters(words) =~= Seq::<char>::empty() + word);
    assert(letters(words) =~= word);
    assert(join(words) == word);
    assert(regex_lang(regex)(letters(words)));
    assert(is_match(nodes, config, regex_lang(regex), words));
}

/// A result of an anagram search holds every character as often as the
/// query, its spaces between the words not counted, and each of its words
/// is a word of the trie.
pub proof fn lemma_anagram_result(
    nodes: Seq<TrieNode>,
    config: SearchConfig,
    query: Seq<char>,
    words: Seq<Seq<char>>,
)
    requires
        is_match(nodes, config, anagram_lang(query), words),
    ensures
        forall|c: char| count_in(letters(words), c) == count_in(query, c),
        forall|k: int|
            0 <= k < words.len() ==> has_word(nodes, #[trigger] words[k]),
{
    assert(is_anagram(query, letters(words)));
    assert forall|k: int| 0 <= k < words.len() implies has_word(
        nodes,
        #[trigger] words[k],
    ) by {
        if k < words.len() - 1 {
            assert(split_ok(nodes, config, words[k]));
        }
    }
}

/// What a search returns under a `prune_freq`, the search under a lower
/// one returns too, where that one is not cut short by `max_results`.
pub proof fn lemma_pruned_results(
    nodes: Seq<TrieNode>,
    config: SearchConfig,
    ok: spec_fn(Seq<char>) -> bool,
    lower: u64,
    pruned: Seq<String>,
    eased: Seq<String>,
    i: int,
)
    requires
        lower <= config.prune_freq,
        matches_of(nodes, config, ok, pruned),
        matches_of(nodes, with_prune(config, lower), ok, eased),
        config.max_results is None || eased.len() < config.max_results->0,
        0 <= i < pruned.len(),
    ensures
        has_text(eased, pruned[i]@),
{
    let easy = with_prune(config, lower);
    let found = choose|found: Seq<Seq<Seq<char>>>|
        {
            &&& #[trigger] spelled(pruned, found)
            &&& found.no_duplicates()
            &&& forall|j: int|
                0 <= j < found.len() ==> is_match(nodes, config, ok, #[trigger] found[j])
        };
    let words = found[i];
    assert(is_match(nodes, config, ok, words));
    lemma_prune_shape(nodes, config, words, lower);
    assert(is_match(nodes, easy, ok, words));
}

/// A search for single words returns no string twice.
pub proof fn lemma_single_words_once(
    nodes: Seq<TrieNode>,
    config: SearchConfig,
    ok: spec_fn(Seq<char>) -> bool,
    results: Seq<String>,
    a: int,
    b: int,
)
    requires
        matches_of(nodes, config, ok, results),
        config.space_limit() == 0,
        0 <= a < b < results.len(),
    ensures
        results[a]@ != results[b]@,
{
    let found = choose|found: Seq<Seq<Seq<char>>>|
        {
            &&& #[trigger] spelled(results, found)
            &&& found.no_duplicates()
            &&& forall|j: int|
                0 <= j < found.len() ==> is_match(nodes, config, ok, #[trigger] found[j])
        };
    assert(is_match(nodes, config, ok, found[a]));
    assert(is_match(nodes, config, ok, found[b]));
    assert(found[a].len() == 1 && found[b].len() == 1);
    assert(join(found[a]) == found[a][0]);
    assert(join(found[b]) == found[b][0]);
    if found[a][0] == found[b][0] {
        assert(found[a] =~= found[b]);
    }
}

} // verus!
