//! What a matcher reports of one matching line.

use vstd::prelude::*;

verus! {

/// One matching line of a file, with the lines around it as the matcher
/// read them: each context line with its line feed, one behind the other.
#[derive(Debug, Clone, PartialEq, Eq)]
pub struct MatchInfo {
    /// The number of the matching line, counted from 1.
    pub line_num: usize,
    /// The offset of the matching line in the file.
    pub byte_offset: usize,
    /// The matching line.
    pub line_content: String,
    /// The part of the line that matched, as offsets into the line.
    pub line_match: Option<std::ops::Range<usize>>,
    /// The lines before the matching line.
    pub previous_lines: String,
    /// The lines behind the matching line.
    pub next_lines: String,
}

/// A copy of what a matcher reported.
pub fn copy_of(info: &MatchInfo) -> (copy: MatchInfo)
    ensures
        copy == *info,
{
    MatchInfo {
        line_num: info.line_num,
        byte_offset: info.byte_offset,
        line_content: info.line_content.clone(),
        line_match: match &info.line_match {
            Some(range) => Some(range.start..range.end),
            None => None,
        },
        previous_lines: info.previous_lines.clone(),
        next_lines: info.next_lines.clone(),
    }
}

/// Why a matcher failed.
#[derive(Debug, Clone, PartialEq, Eq)]
pub enum MatcherError {
    /// The pattern is no pattern that the matcher can read.
    InvalidPattern { pattern: String, message: String },
    /// The search of a file failed.
    SearchError { message: String },
}

} // verus!
