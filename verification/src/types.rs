//! The values that a search hands on: matches, their context, and failures.

use vstd::prelude::*;
use vstd::utf8::*;
use crate::filesystem::errors::FilesystemError;
use crate::matcher::info::{MatchInfo, MatcherError};
use crate::text::{bytes_of, count_all_lines, count_lines, find_next_line, lemma_count_lines_step, lemma_line_end, lemma_skip_lines_add, next_line, skip_lines, str_bytes, string_between};

verus! {

/// A line of a file that is to be looked up with its context.
#[derive(Debug, Clone, PartialEq, Eq)]
pub struct IngestInput {
    pub file_path: String,
    pub line_number: usize,
}

/// A line next to a match.
#[derive(Debug, Clone, PartialEq, Eq)]
pub struct ContextLine {
    /// The number of the line, counted from 1.
    pub line_number: usize,
    /// The line.
    pub content: String,
}

/// One match of a search.
#[derive(Debug, Clone, PartialEq, Eq)]
pub struct MatchResult {
    /// The file that holds the match.
    pub file_path: String,
    /// The number of the matching line, counted from 1.
    pub line_number: usize,
    /// The matching line.
    pub line_content: String,
    /// The part of the line that matched, as offsets into the line.
    pub line_match: Option<std::ops::Range<usize>>,
    /// The offset of the matching line in the file.
    pub byte_offset: usize,
    /// The lines before the match, the first one first.
    pub context_before: Vec<ContextLine>,
    /// The lines behind the match.
    pub context_after: Vec<ContextLine>,
}

/// Why a search failed.
#[derive(Debug)]
#[allow(inconsistent_fields)]
pub enum SearchError {
    /// A file could not be read.
    FileReadError { source: FilesystemError },
    /// The matcher failed.
    MatcherError { source: MatcherError },
}

/// What a search found.
#[derive(Debug, Clone)]
pub struct SearchResult {
    pub matches: Vec<MatchResult>,
}

/// Line `i` of `s`, counted from 0, with its line feed.
pub open spec fn nth_line(s: Seq<u8>, i: nat) -> Seq<u8> {
    s.subrange(skip_lines(s, 0, i), skip_lines(s, 0, i + 1))
}

/// The lines of `text` are `lines`, numbered from `first` on.
pub open spec fn numbered_from(lines: Seq<ContextLine>, text: Seq<u8>, first: int) -> bool {
    &&& lines.len() == count_lines(text, 0)
    &&& forall|i: int|
        0 <= i < lines.len() ==> (#[trigger] lines[i]).line_number == first + i && bytes_of(
            lines[i].content@,
        ) == nth_line(text, i as nat)
}

/// The lines of `text`, each with its line feed, numbered from `first` on.
fn numbered_lines(text: &str, first: usize) -> (lines: Vec<ContextLine>)
    requires
        first + count_lines(bytes_of(text@), 0) <= usize::MAX + 1,
    ensures
        numbered_from(lines@, bytes_of(text@), first as int),
{
    let s = str_bytes(text);
    let mut lines: Vec<ContextLine> = Vec::new();
    let mut at: usize = 0;
    while at < s.len()
        invariant
            s@ == bytes_of(text@),
            valid_utf8(s@),
            at <= s@.len(),
            crate::text::clean_cut(s@, at as int),
            at == skip_lines(s@, 0, lines@.len() as nat),
            lines@.len() + count_lines(s@, at as int) == count_lines(s@, 0),
            first + count_lines(s@, 0) <= usize::MAX + 1,
            forall|i: int|
                0 <= i < lines@.len() ==> (#[trigger] lines@[i]).line_number == first + i
                    && bytes_of(lines@[i].content@) == nth_line(s@, i as nat),
        decreases s@.len() - at,
    {
        let ghost k = lines@.len() as int;
        let ghost before = lines@;
        proof {
            lemma_count_lines_step(s@, at as int);
            lemma_line_end(s@, at as int);
            lemma_skip_lines_add(s@, 0, k as nat, 1);
            assert(skip_lines(s@, at as int, 1) == next_line(s@, at as int)) by {
                assert(skip_lines(s@, next_line(s@, at as int), 0) == next_line(s@, at as int));
            }
        }
        let next = find_next_line(s, at);
        let content = string_between(s, at, next);
        let line_number: usize = first + lines.len();
        lines.push(ContextLine { line_number, content });
        proof {
            assert forall|i: int| 0 <= i < lines@.len() implies (#[trigger] lines@[i]).line_number
                == first + i && bytes_of(lines@[i].content@) == nth_line(s@, i as nat) by {
                if i < k {
                    assert(lines@[i] == before[i]);
                }
            }
        }
        at = next;
    }
    lines
}

impl MatchResult {
    /// The match that a matcher reported for the file `path`. The lines
    /// before the matching line are numbered up to the line before it, the
    /// lines behind it from the line behind it on.
    #[must_use]
    pub fn from_match_info(match_info: MatchInfo, path: String) -> (m: MatchResult)
        requires
            count_lines(bytes_of(match_info.previous_lines@), 0) <= match_info.line_num,
            match_info.line_num + count_lines(bytes_of(match_info.next_lines@), 0) <= usize::MAX,
        ensures
            m.file_path == path,
            m.line_number == match_info.line_num,
            m.line_content == match_info.line_content,
            m.line_match == match_info.line_match,
            m.byte_offset == match_info.byte_offset,
            numbered_from(
                m.context_before@,
                bytes_of(match_info.previous_lines@),
                match_info.line_num - count_lines(bytes_of(match_info.previous_lines@), 0),
            ),
            numbered_from(
                m.context_after@,
                bytes_of(match_info.next_lines@),
                match_info.line_num + 1,
            ),
    {
        let count = count_all_lines(str_bytes(match_info.previous_lines.as_str()));
        let context_before = numbered_lines(
            match_info.previous_lines.as_str(),
            match_info.line_num - count,
        );
        let context_after = if match_info.line_num < usize::MAX {
            numbered_lines(match_info.next_lines.as_str(), match_info.line_num + 1)
        } else {
            Vec::new()
        };
        MatchResult {
            file_path: path,
            line_number: match_info.line_num,
            line_content: match_info.line_content,
            line_match: match_info.line_match,
            byte_offset: match_info.byte_offset,
            context_before,
            context_after,
        }
    }

    /// The match that a matcher reported, where its line numbers can be:
    /// where no more lines stand before the matching line than its number
    /// allows, and the lines behind it have numbers that `usize` holds.
    /// Nothing otherwise.
    #[must_use]
    pub fn checked_from_match_info(match_info: MatchInfo, path: String) -> (r: Option<
        MatchResult,
    >)
        ensures
            r is Some <==> count_lines(bytes_of(match_info.previous_lines@), 0)
                <= match_info.line_num && match_info.line_num + count_lines(
                bytes_of(match_info.next_lines@),
                0,
            ) <= usize::MAX,
            r matches Some(m) ==> m.file_path == path && m.line_number == match_info.line_num
                && m.line_content == match_info.line_content && m.line_match
                == match_info.line_match && m.byte_offset == match_info.byte_offset
                && numbered_from(
                m.context_before@,
                bytes_of(match_info.previous_lines@),
                match_info.line_num - count_lines(bytes_of(match_info.previous_lines@), 0),
            ) && numbered_from(
                m.context_after@,
                bytes_of(match_info.next_lines@),
                match_info.line_num + 1,
            ),
    {
        let before = count_all_lines(str_bytes(match_info.previous_lines.as_str()));
        let behind = count_all_lines(str_bytes(match_info.next_lines.as_str()));
        if before > match_info.line_num || behind > usize::MAX - match_info.line_num {
            return None;
        }
        Some(MatchResult::from_match_info(match_info, path))
    }
}

impl SearchResult {
    /// A result without matches.
    #[must_use]
    pub fn new() -> (r: SearchResult)
        ensures
            r.matches@.len() == 0,
    {
        SearchResult { matches: Vec::new() }
    }

    /// Adds a match behind the matches that the result holds.
    pub fn add_match(&mut self, match_result: MatchResult)
        ensures
            final(self).matches@ == old(self).matches@.push(match_result),
    {
        self.matches.push(match_result);
    }
}

impl Default for SearchResult {
    fn default() -> (r: SearchResult)
        ensures
            r.matches@.len() == 0,
    {
        SearchResult::new()
    }
}

} // verus!
