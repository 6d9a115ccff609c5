//! The word list: a trie that is loaded from the lines of a dictionary, and
//! the queries over it.

use vstd::prelude::*;
use crate::alphabet::{normalize, normalized};
use crate::regex::parse::RegexError;
use crate::text::{split, split_on, texts};
use crate::wordlist::trie::search::{
    anagram_lang, handed_by, handed_to, matches_of, plain, regex_lang,
};
use crate::wordlist::trie::multithreaded_search::ResultCallback;
use crate::wordlist::trie::searchconfig::SearchConfig;
use crate::wordlist::trie::trie::{ImmutableTrie, Trie};

verus! {

/// The error of `serde_json`.
#[verifier::external_type_specification]
#[verifier::external_body]
pub struct ExJsonError(serde_json::Error);

/// The number that `text` is as JSON text, where it is a whole number that
/// fits 64 bits with a sign; what `serde_json::from_str` reads from it.
pub uninterp spec fn json_i64(text: Seq<char>) -> Option<i64>;

/// `serde_json::from_str`, reading a whole number: the number, or the error
/// where `text` is none that fits.
#[verifier::external_body]
fn number_from_json(text: &str) -> (r: Result<i64, serde_json::Error>)
    ensures
        r matches Ok(v) ==> json_i64(text@) == Some(v),
        r is Err ==> json_i64(text@) is None,
{
    serde_json::from_str::<i64>(text)
}

/// How the lines of a dictionary are laid out: each a bare word, or, with a
/// delimiter, columns of which one holds the word and one its frequency.
pub struct FileFormat {
    delimiter: Option<char>,
    word_column: Option<usize>,
    freq_column: Option<usize>,
}

/// A `FileFormat` in the making.
pub struct FileFormatBuilder {
    /// The character between the columns, if set.
    pub delimiter: Option<char>,
    /// The column of the word, if set.
    pub word_column: Option<usize>,
    /// The column of the frequency, if set.
    pub freq_column: Option<usize>,
}

/// Why a line of a dictionary gives no word.
#[derive(Debug, PartialEq, Eq, Clone, Copy)]
pub enum LineError {
    /// The line has no column of the word, or none of the frequency.
    NotEnoughColumns,
    /// The column of the frequency holds no whole number.
    BadFrequency,
    /// The frequency is below zero.
    NegativeFrequency,
}

/// What loading a dictionary came to.
#[derive(Debug, PartialEq, Eq, Clone, Copy)]
pub struct LoadReport {
    /// The number of lines that gave a word.
    pub count: usize,
    /// The number of lines that gave none, the empty ones not counted.
    pub failures: usize,
}

impl FileFormatBuilder {
    /// Sets the character between the columns.
    pub fn delimiter(self, delimiter: char) -> (next: FileFormatBuilder)
        ensures
            next.delimiter == Some(delimiter),
            next.word_column == self.word_column,
            next.freq_column == self.freq_column,
    {
        FileFormatBuilder {
            delimiter: Some(delimiter),
            word_column: self.word_column,
            freq_column: self.freq_column,
        }
    }

    /// Sets the column of the word, counted from 0.
    pub fn word_column(self, word_column: usize) -> (next: FileFormatBuilder)
        ensures
            next.delimiter == self.delimiter,
            next.word_column == Some(word_column),
            next.freq_column == self.freq_column,
    {
        FileFormatBuilder {
            delimiter: self.delimiter,
            word_column: Some(word_column),
            freq_column: self.freq_column,
        }
    }

    /// Sets the column of the frequency, counted from 0.
    pub fn freq_column(self, freq_column: usize) -> (next: FileFormatBuilder)
        ensures
            next.delimiter == self.delimiter,
            next.word_column == self.word_column,
            next.freq_column == Some(freq_column),
    {
        FileFormatBuilder {
            delimiter: self.delimiter,
            word_column: self.word_column,
            freq_column: Some(freq_column),
        }
    }

    /// The format.
    pub fn build(self) -> (format: FileFormat)
        ensures
            format.delimiter_spec() == self.delimiter,
            format.word_index() == match self.word_column {
                Some(i) => i,
                None => 0,
            },
            format.freq_index() == match self.freq_column {
                Some(i) => i,
                None => 1,
            },
    {
        FileFormat {
            delimiter: self.delimiter,
            word_column: self.word_column,
            freq_column: self.freq_column,
        }
    }
}

impl FileFormat {
    /// The character between the columns; `None` where each line is a bare
    /// word.
    pub closed spec fn delimiter_spec(&self) -> Option<char> {
        self.delimiter
    }

    /// The column of the word: the first, unless set otherwise.
    pub closed spec fn word_index(&self) -> usize {
        match self.word_column {
            Some(i) => i,
            None => 0,
        }
    }

    /// The column of the frequency: the second, unless set otherwise.
    pub closed spec fn freq_index(&self) -> usize {
        match self.freq_column {
            Some(i) => i,
            None => 1,
        }
    }

    /// A builder of the format of bare words.
    pub fn builder() -> (builder: FileFormatBuilder)
        ensures
            builder.delimiter is None,
            builder.word_column is None,
            builder.freq_column is None,
    {
        FileFormatBuilder { delimiter: None, word_column: None, freq_column: None }
    }

    /// What `line` gives under this format: the word and its frequency. A
    /// bare word has frequency 1. With a delimiter, the word and the
    /// frequency are the columns that the format names; the frequency is
    /// read as JSON text.
    pub open spec fn parsed(&self, line: Seq<char>) -> Result<(Seq<char>, u64), LineError> {
        match self.delimiter_spec() {
            None => Ok((line, 1)),
            Some(d) => {
                let columns = split_on(line, d);
                if self.word_index() >= columns.len() || self.freq_index() >= columns.len() {
                    Err(LineError::NotEnoughColumns)
                } else {
                    match json_i64(columns[self.freq_index() as int]) {
                        None => Err(LineError::BadFrequency),
                        Some(v) => if v < 0 {
                            Err(LineError::NegativeFrequency)
                        } else {
                            Ok((columns[self.word_index() as int], v as u64))
                        },
                    }
                }
            },
        }
    }

    /// Reads the word and its frequency from `line`.
    pub fn parse_line(&self, line: &str) -> (r: Result<(String, u64), LineError>)
        ensures
            match r {
                Ok((word, freq)) => self.parsed(line@) == Ok::<(Seq<char>, u64), LineError>(
                    (word@, freq),
                ),
                Err(e) => self.parsed(line@) == Err::<(Seq<char>, u64), LineError>(e),
            },
    {
        match self.delimiter {
            None => Ok((line.to_owned(), 1)),
            Some(d) => {
                let mut columns = split(line, d);
                let word_idx = match self.word_column {
                    Some(i) => i,
                    None => 0,
                };
                let freq_idx = match self.freq_column {
                    Some(i) => i,
                    None => 1,
                };
                if word_idx >= columns.len() || freq_idx >= columns.len() {
                    return Err(LineError::NotEnoughColumns);
                }
                proof {
                    assert(texts(columns@)[freq_idx as int] == columns@[freq_idx as int]@);
                    assert(texts(columns@)[word_idx as int] == columns@[word_idx as int]@);
                }
                match number_from_json(columns[freq_idx].as_str()) {
                    Err(_) => Err(LineError::BadFrequency),
                    Ok(v) => {
                        if v < 0 {
                            Err(LineError::NegativeFrequency)
                        } else {
                            let word = columns[word_idx].clone();
                            Ok((word, v as u64))
                        }
                    },
                }
            },
        }
    }

    /// The word and the frequency that a line of a dictionary adds to a
    /// trie whose frequencies add up to `total`: none where the line is
    /// empty or gives no word, or where the word or the total would pass
    /// what the trie can hold.
    pub open spec fn accepted(&self, total: nat, line: Seq<char>) -> Option<(Seq<char>, u64)> {
        if line.len() == 0 {
            None
        } else {
            match self.parsed(line) {
                Ok((word, freq)) => if normalized(word).len() <= u32::MAX && total + freq
                    <= u64::MAX {
                    Some((normalized(word), freq))
                } else {
                    None
                },
                Err(_) => None,
            }
        }
    }

    /// The total of the frequencies after the lines `lines`.
    pub open spec fn loaded_total(&self, total: nat, lines: Seq<Seq<char>>) -> nat
        decreases lines.len(),
    {
        if lines.len() == 0 {
            total
        } else {
            let before = self.loaded_total(total, lines.drop_last());
            match self.accepted(before, lines.last()) {
                Some((_, freq)) => before + freq as nat,
                None => before,
            }
        }
    }

    /// The frequency that the lines `lines` add to `word`.
    pub open spec fn loaded_freq(&self, total: nat, lines: Seq<Seq<char>>, word: Seq<char>) -> nat
        decreases lines.len(),
    {
        if lines.len() == 0 {
            0
        } else {
            let before = self.loaded_total(total, lines.drop_last());
            self.loaded_freq(total, lines.drop_last(), word) + match self.accepted(
                before,
                lines.last(),
            ) {
                Some((w, freq)) => if w == word {
                    freq as nat
                } else {
                    0
                },
                None => 0,
            }
        }
    }

    /// Whether one of the lines `lines` adds `word`.
    pub open spec fn loaded_has(&self, total: nat, lines: Seq<Seq<char>>, word: Seq<char>) -> bool
        decreases lines.len(),
    {
        if lines.len() == 0 {
            false
        } else {
            let before = self.loaded_total(total, lines.drop_last());
            self.loaded_has(total, lines.drop_last(), word) || match self.accepted(
                before,
                lines.last(),
            ) {
                Some((w, _)) => w == word,
                None => false,
            }
        }
    }

    /// The number of the lines `lines` that add a word.
    pub open spec fn loaded_count(&self, total: nat, lines: Seq<Seq<char>>) -> nat
        decreases lines.len(),
    {
        if lines.len() == 0 {
            0
        } else {
            let before = self.loaded_total(total, lines.drop_last());
            self.loaded_count(total, lines.drop_last()) + if self.accepted(
                before,
                lines.last(),
            ) is Some {
                1nat
            } else {
                0nat
            }
        }
    }

    /// The number of the lines `lines` that are not empty and add no word.
    pub open spec fn loaded_failures(&self, total: nat, lines: Seq<Seq<char>>) -> nat
        decreases lines.len(),
    {
        if lines.len() == 0 {
            0
        } else {
            let before = self.loaded_total(total, lines.drop_last());
            self.loaded_failures(total, lines.drop_last()) + if lines.last().len() > 0
                && self.accepted(before, lines.last()) is None {
                1nat
            } else {
                0nat
            }
        }
    }
}

/// The word list: the trie that is built, and its frozen form.
pub struct Wordlist {
    trie: Trie,
    immut_trie: ImmutableTrie,
}

impl Wordlist {
    /// The trie that is built.
    pub closed spec fn trie(&self) -> Trie {
        self.trie
    }

    /// The frozen trie.
    pub closed spec fn frozen(&self) -> ImmutableTrie {
        self.immut_trie
    }

    /// Whether the word list has been loaded, and so can be queried.
    pub open spec fn is_loaded(&self) -> bool {
        self.trie().is_built()
    }

    /// Both tries are well formed, and once loaded they hold the same
    /// nodes.
    pub open spec fn wf(&self) -> bool {
        &&& self.trie().wf()
        &&& self.frozen().wf()
        &&& self.trie().is_built() == self.frozen().is_built()
        &&& self.trie().is_built() ==> self.frozen().nodes() == self.trie().nodes()
    }

    /// A word list without a word, not yet loaded.
    pub fn new() -> (list: Wordlist)
        ensures
            list.wf(),
            !list.is_loaded(),
            list.trie().total_freq() == 0,
            forall|word: Seq<char>| !list.trie().has(word),
    {
        Wordlist { trie: Trie::new(), immut_trie: ImmutableTrie::new() }
    }

    /// Loads the lines of a dictionary: each line that is not empty is read
    /// under `format`, its word folded to the alphabet and added with its
    /// frequency; a line that gives no word is counted as a failure. Then
    /// the trie is built, and the word list can be queried.
#[verifier::rlimit(40)]
    pub fn load_lines(&mut self, lines: &[String], format: &FileFormat) -> (report: LoadReport)
        requires
            old(self).wf(),
            !old(self).is_loaded(),
        ensures
            final(self).wf(),
            final(self).is_loaded(),
            final(self).trie().total_freq() == format.loaded_total(
                old(self).trie().total_freq(),
                texts(lines@),
            ),
            forall|word: Seq<char>|
                final(self).trie().freq_of(word) == old(self).trie().freq_of(word)
                    + format.loaded_freq(old(self).trie().total_freq(), texts(lines@), word),
            forall|word: Seq<char>|
                final(self).trie().has(word) == (old(self).trie().has(word) || format.loaded_has(
                    old(self).trie().total_freq(),
                    texts(lines@),
                    word,
                )),
            report.count == format.loaded_count(old(self).trie().total_freq(), texts(lines@)),
            report.failures == format.loaded_failures(
                old(self).trie().total_freq(),
                texts(lines@),
            ),
    {
        let ghost total0 = self.trie.total_freq();
        let ghost all = texts(lines@);
        let mut count: usize = 0;
        let mut failures: usize = 0;
        let mut i: usize = 0;
        while i < lines.len()
            invariant
                i <= lines@.len(),
                all == texts(lines@),
                total0 == old(self).trie().total_freq(),
                self.trie.wf(),
                !self.trie.is_built(),
                self.immut_trie == old(self).immut_trie,
                self.trie.total_freq() == format.loaded_total(total0, all.take(i as int)),
                forall|word: Seq<char>|
                    self.trie.freq_of(word) == old(self).trie().freq_of(word) + format.loaded_freq(
                        total0,
                        all.take(i as int),
                        word,
                    ),
                forall|word: Seq<char>|
                    self.trie.has(word) == (old(self).trie().has(word) || format.loaded_has(
                        total0,
                        all.take(i as int),
                        word,
                    )),
                count == format.loaded_count(total0, all.take(i as int)),
                failures == format.loaded_failures(total0, all.take(i as int)),
                count + failures <= i,
            decreases lines@.len() - i,
        {
            let line = lines[i].as_str();
            proof {
                assert(all.take(i + 1).drop_last() =~= all.take(i as int));
                assert(all.take(i + 1).last() == line@);
            }
            if !line.is_empty() {
                match format.parse_line(line) {
                    Ok((word, freq)) => {
                        let folded = normalize(word.as_str());
                        let short = folded.as_str().unicode_len() <= u32::MAX as usize;
                        if short && freq <= u64::MAX - self.trie.total() {
                            self.trie.add_with_freq(folded.as_str(), freq);
                            count = count + 1;
                        } else {
                            failures = failures + 1;
                        }
                    },
                    Err(_) => {
                        failures = failures + 1;
                    },
                }
            }
            i = i + 1;
        }
        proof {
            assert(all.take(lines@.len() as int) =~= all);
        }
        self.trie.build(&mut self.immut_trie);
        LoadReport { count, failures }
    }

    /// Whether the word list has been loaded.
    pub fn loaded(&self) -> (b: bool)
        ensures
            b == self.is_loaded(),
    {
        self.trie.built()
    }

    /// The frozen trie, for searches that the caller runs.
    pub fn frozen_trie(&self) -> (trie: &ImmutableTrie)
        ensures
            *trie == self.frozen(),
    {
        &self.immut_trie
    }

    /// Whether `word` is in the word list.
    pub fn contains(&self, word: &str) -> (found: bool)
        requires
            self.wf(),
            self.is_loaded(),
        ensures
            found == self.trie().has(word@),
    {
        self.trie.contains(word)
    }

    /// The words that the regular expression `regex` matches, best first;
    /// or an error where `regex` is no regular expression.
    pub fn search(&self, regex: &str) -> (r: Result<Vec<String>, RegexError>)
        requires
            self.wf(),
            self.is_loaded(),
        ensures
            r is Ok <==> crate::regex::parse::is_regex(regex@),
            r matches Ok(results) ==> matches_of(
                self.trie().nodes(),
                plain(),
                regex_lang(regex@),
                results@,
            ),
    {
        self.trie.query_regex(regex)
    }

    /// The results of the search by the regular expression `regex` under
    /// `config`, best first; or an error where `regex` is no regular
    /// expression.
    pub fn search_multithreaded(&self, regex: &str, config: &SearchConfig) -> (r: Result<
        Vec<String>,
        RegexError,
    >)
        requires
            self.wf(),
            self.is_loaded(),
        ensures
            r is Ok <==> crate::regex::parse::is_regex(regex@),
            r matches Ok(results) ==> matches_of(
                self.trie().nodes(),
                *config,
                regex_lang(regex@),
                results@,
            ),
    {
        self.immut_trie.query_regex_results(regex, config)
    }

    /// Hands each result of the search by the regular expression `regex`
    /// under `config` to `callback`, until it returns `true`; or returns an
    /// error where `regex` is no regular expression.
    pub fn search_callback<F: ResultCallback>(
        &self,
        regex: &str,
        config: &SearchConfig,
        callback: F,
    ) -> (r: Result<Ghost<(Seq<Seq<Seq<char>>>, bool)>, RegexError>)
        requires
            self.wf(),
            self.is_loaded(),
            forall|result: String, options: &SearchConfig|
                call_requires(callback, (result, options)),
        ensures
            r is Ok <==> crate::regex::parse::is_regex(regex@),
            r matches Ok(handed) ==> handed_by(
                self.trie().nodes(),
                *config,
                regex_lang(regex@),
                handed@.0,
                handed@.1,
            ),
            r matches Ok(handed) ==> handed_to(callback, *config, handed@.0, handed@.1),
    {
        self.immut_trie.query_regex_multithreaded(regex, config, callback)
    }

    /// The words that are anagrams of `anagram`, best first.
    pub fn anagram(&self, anagram: &str) -> (results: Vec<String>)
        requires
            self.wf(),
            self.is_loaded(),
        ensures
            matches_of(self.trie().nodes(), plain(), anagram_lang(anagram@), results@),
    {
        self.trie.query_anagram(anagram)
    }

    /// The anagrams of `anagram` under `config`, best first.
    pub fn anagram_multithreaded(&self, anagram: &str, config: &SearchConfig) -> (results: Vec<
        String,
    >)
        requires
            self.wf(),
            self.is_loaded(),
        ensures
            matches_of(self.trie().nodes(), *config, anagram_lang(anagram@), results@),
    {
        self.immut_trie.query_anagram_results(anagram, config)
    }

    /// Hands each anagram of `anagram` under `config` to `callback`, until
    /// it returns `true`.
    pub fn anagram_callback<F: ResultCallback>(
        &self,
        anagram: &str,
        config: &SearchConfig,
        callback: F,
    ) -> (handed: Ghost<(Seq<Seq<Seq<char>>>, bool)>)
        requires
            self.wf(),
            self.is_loaded(),
            forall|result: String, options: &SearchConfig|
                call_requires(callback, (result, options)),
        ensures
            handed_by(self.trie().nodes(), *config, anagram_lang(anagram@), handed@.0, handed@.1),
            handed_to(callback, *config, handed@.0, handed@.1),
    {
        self.immut_trie.query_anagram_multithreaded(anagram, config, callback)
    }
}

} // verus!
