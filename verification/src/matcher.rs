//! Pattern matching, as the search sees it.

pub mod info;
pub mod stub;

use vstd::prelude::*;
use crate::matcher::info::{MatchInfo, MatcherError};

verus! {

/// `r` is the answer `named`, with the reports as a matcher hands them out.
pub open spec fn same_report(
    r: Option<Result<Vec<MatchInfo>, MatcherError>>,
    named: Option<Result<Seq<MatchInfo>, MatcherError>>,
) -> bool {
    match (r, named) {
        (None, None) => true,
        (Some(Ok(found)), Some(Ok(reports))) => found@ == reports,
        (Some(Err(e)), Some(Err(failure))) => e == failure,
        _ => false,
    }
}

/// What a search asks of a matcher. Callers bring their own: one that runs
/// a regular expression engine, or `stub::StubMatcher`.
///
/// A matcher says what it reports of a text and of a file on the disk, and
/// which texts match; its methods answer as it says. Whoever brings a
/// matcher answers for that. Of a matcher that does not say what it
/// reports, nothing is known.
pub trait Matcher: Sized {
    /// The matching lines that the matcher reports of a text, in their
    /// order.
    open spec fn found_in_text(&self, content: Seq<char>) -> Seq<MatchInfo> {
        arbitrary()
    }

    /// What the matcher reports of the file at a path on the disk; nothing
    /// where it reads no files itself.
    open spec fn found_at_path(&self, path: Seq<char>) -> Option<
        Result<Seq<MatchInfo>, MatcherError>,
    > {
        arbitrary()
    }

    /// True when the text matches.
    open spec fn accepts(&self, text: Seq<char>) -> bool {
        arbitrary()
    }

    /// The matcher for a pattern; fails where the pattern cannot be read.
    fn compile(pattern: &str) -> Result<Self, MatcherError>;

    /// The matching lines of a text, in their order.
    fn search_in_content(&self, content: &str) -> (found: Vec<MatchInfo>)
        ensures
            found@ == self.found_in_text(content@),
    ;

    /// True when the text matches.
    fn is_match(&self, text: &str) -> (b: bool)
        ensures
            b == self.accepts(text@),
    ;

    /// The matching lines of the file at a path on the disk, for a matcher
    /// that reads files itself; nothing for one that does not.
    fn search_path(&self, path: &str) -> (r: Option<Result<Vec<MatchInfo>, MatcherError>>)
        ensures
            same_report(r, self.found_at_path(path@)),
    ;
}

} // verus!
