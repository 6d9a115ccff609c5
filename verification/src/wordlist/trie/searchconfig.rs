//! The options of a search.

use vstd::prelude::*;

verus! {

/// The options of a search.
pub struct SearchConfig {
    /// The number of results after which the collecting searches stop.
    pub max_results: Option<usize>,
    /// A cap on the length of a result, left to the caller to apply.
    pub max_length: Option<usize>,
    /// Where set, results may be made of several words, and each further
    /// word costs this much of the score.
    pub space_penalty: Option<i64>,
    /// The greatest number of spaces in a result.
    pub spaces_allowed: usize,
    /// The least length of each word of a result.
    pub min_word_len: usize,
    /// Words of no more than this frequency are no results, and subtrees of
    /// less than this weight are not entered.
    pub prune_freq: u64,
}

impl SearchConfig {
    /// The options of a plain search: single words of at least three letters,
    /// nothing pruned, no limit on the number of results.
    pub fn new() -> (config: SearchConfig)
        ensures
            config.max_results is None,
            config.max_length is None,
            config.space_penalty is None,
            config.spaces_allowed == 0,
            config.min_word_len == 3,
            config.prune_freq == 0,
    {
        SearchConfig {
            max_results: None,
            max_length: None,
            space_penalty: None,
            spaces_allowed: 0,
            min_word_len: 3,
            prune_freq: 0,
        }
    }

    /// The greatest number of spaces that a result of a search with these
    /// options can have: `spaces_allowed`, but none where no penalty is set,
    /// and no more than a `u32` counts.
    pub open spec fn space_limit(&self) -> nat {
        if self.space_penalty is None {
            0
        } else if self.spaces_allowed <= u32::MAX {
            self.spaces_allowed as nat
        } else {
            u32::MAX as nat
        }
    }
}

} // verus!
