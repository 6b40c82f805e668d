//! What a search is asked to do.

use vstd::prelude::*;
use crate::matcher::info::MatcherError;
use crate::types::SearchError;

verus! {

/// Why a search could not be run.
#[derive(Debug)]
#[allow(inconsistent_fields)]
pub enum ExecuteError {
    /// The pattern could not be read.
    PatternError { source: MatcherError },
    /// The search failed.
    SearchError { source: SearchError },
}

/// The settings of a search.
#[derive(Debug, Clone)]
pub struct ExecuteConfig {
    /// The pattern to search for.
    pub pattern: String,
    /// The directory or file to search.
    pub path: String,
    /// The number of lines to show before and behind each match.
    pub context_lines: usize,
    /// Whether files that `.gitignore` and `.ignore` name are left out.
    pub respect_gitignore: bool,
    /// Whether hidden files are searched.
    pub hidden: bool,
}

impl ExecuteConfig {
    /// The settings of a search for `pattern` under `path`: 20 lines of
    /// context, ignore files respected, hidden files left out.
    pub fn new(pattern: &str, path: &str) -> (config: ExecuteConfig)
        ensures
            config.pattern@ == pattern@,
            config.path@ == path@,
            config.context_lines == 20,
            config.respect_gitignore,
            !config.hidden,
    {
        ExecuteConfig {
            pattern: pattern.to_owned(),
            path: path.to_owned(),
            context_lines: 20,
            respect_gitignore: true,
            hidden: false,
        }
    }

    /// The same settings with `lines` lines of context.
    #[must_use]
    pub fn with_context_lines(self, lines: usize) -> (config: ExecuteConfig)
        ensures
            config == (ExecuteConfig { context_lines: lines, ..self }),
    {
        let mut config = self;
        config.context_lines = lines;
        config
    }

    /// The same settings, with ignore files respected or not.
    #[must_use]
    pub fn with_respect_gitignore(self, respect: bool) -> (config: ExecuteConfig)
        ensures
            config == (ExecuteConfig { respect_gitignore: respect, ..self }),
    {
        let mut config = self;
        config.respect_gitignore = respect;
        config
    }

    /// The same settings, with hidden files searched or not.
    #[must_use]
    pub fn with_hidden(self, hidden: bool) -> (config: ExecuteConfig)
        ensures
            config == (ExecuteConfig { hidden, ..self }),
    {
        let mut config = self;
        config.hidden = hidden;
        config
    }
}

} // verus!
