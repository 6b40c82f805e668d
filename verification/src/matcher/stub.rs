//! A matcher that reports what it was told to report.

use vstd::prelude::*;
use crate::matcher::info::{MatchInfo, MatcherError, copy_of};
use crate::matcher::Matcher;
use crate::text::{bytes_of, str_bytes};

verus! {

/// How a stub matcher answers `is_match`.
#[derive(Debug, Clone)]
pub enum Predicate {
    /// No text matches.
    Never,
    /// Every text matches.
    Always,
    /// A text matches when it holds the given text.
    Containing(String),
}

/// A matcher with fixed answers: `search_in_content` reports the matches
/// that were added, whatever the text, and `is_match` goes by the predicate.
pub struct StubMatcher {
    matches: Vec<MatchInfo>,
    predicate: Predicate,
}

/// `needle` stands somewhere in `hay`.
pub open spec fn occurs_in(needle: Seq<u8>, hay: Seq<u8>) -> bool {
    exists|i: int|
        0 <= i && i + needle.len() <= hay.len() && #[trigger] hay.subrange(i, i + needle.len())
            == needle
}

/// What a predicate says of a text.
pub open spec fn holds_of(predicate: Predicate, text: Seq<char>) -> bool {
    match predicate {
        Predicate::Never => false,
        Predicate::Always => true,
        Predicate::Containing(needle) => occurs_in(bytes_of(needle@), bytes_of(text)),
    }
}

/// True when `needle` stands in `hay` at offset `at`.
fn stands_at(hay: &[u8], needle: &[u8], at: usize) -> (r: bool)
    requires
        at + needle@.len() <= hay@.len(),
    ensures
        r == (hay@.subrange(at as int, at + needle@.len()) == needle@),
{
    let total: usize = hay.len();
    let mut j: usize = 0;
    while j < needle.len()
        invariant
            j <= needle@.len(),
            at + needle@.len() <= hay@.len(),
            hay@.len() == total,
            forall|k: int| 0 <= k < j ==> hay@[at + k] == needle@[k],
        decreases needle@.len() - j,
    {
        if hay[at + j] != needle[j] {
            assert(hay@.subrange(at as int, at + needle@.len())[j as int] != needle@[j as int]);
            return false;
        }
        j = j + 1;
    }
    assert(hay@.subrange(at as int, at + needle@.len()) =~= needle@);
    true
}

/// True when `needle` stands somewhere in `hay`.
pub fn contains_bytes(hay: &[u8], needle: &[u8]) -> (r: bool)
    ensures
        r == occurs_in(needle@, hay@),
{
    if needle.len() > hay.len() {
        return false;
    }
    let last: usize = hay.len() - needle.len();
    let mut i: usize = 0;
    loop
        invariant
            i <= last,
            last == hay@.len() - needle@.len(),
            forall|k: int| 0 <= k < i ==> #[trigger] hay@.subrange(k, k + needle@.len()) != needle@,
        decreases last - i,
    {
        if stands_at(hay, needle, i) {
            return true;
        }
        if i == last {
            return false;
        }
        i = i + 1;
    }
}

impl StubMatcher {
    /// The matches that `search_in_content` reports.
    pub closed spec fn reports(&self) -> Seq<MatchInfo> {
        self.matches@
    }

    /// The predicate by which `is_match` goes.
    pub closed spec fn rule(&self) -> Predicate {
        self.predicate
    }

    /// A matcher that reports no match and that no text matches.
    pub fn new() -> (m: StubMatcher)
        ensures
            m.reports().len() == 0,
            m.rule() == Predicate::Never,
    {
        StubMatcher { matches: Vec::new(), predicate: Predicate::Never }
    }

    /// Adds a match to those that `search_in_content` reports.
    pub fn add_match(&mut self, match_info: MatchInfo)
        ensures
            final(self).reports() == old(self).reports().push(match_info),
            final(self).rule() == old(self).rule(),
    {
        self.matches.push(match_info);
    }

    /// Sets the predicate by which `is_match` goes.
    pub fn set_predicate(&mut self, predicate: Predicate)
        ensures
            final(self).rule() == predicate,
            final(self).reports() == old(self).reports(),
    {
        self.predicate = predicate;
    }

    /// A matcher that every text matches.
    pub fn always_match() -> (m: StubMatcher)
        ensures
            m.reports().len() == 0,
            m.rule() == Predicate::Always,
    {
        let mut m = StubMatcher::new();
        m.set_predicate(Predicate::Always);
        m
    }

    /// A matcher that no text matches.
    pub fn never_match() -> (m: StubMatcher)
        ensures
            m.reports().len() == 0,
            m.rule() == Predicate::Never,
    {
        let mut m = StubMatcher::new();
        m.set_predicate(Predicate::Never);
        m
    }

    /// A matcher that the texts match which hold `text`.
    pub fn match_containing(text: String) -> (m: StubMatcher)
        ensures
            m.reports().len() == 0,
            m.rule() == Predicate::Containing(text),
    {
        let mut m = StubMatcher::new();
        m.set_predicate(Predicate::Containing(text));
        m
    }

    /// The matches that were added, in the order in which they were added.
    pub fn reported(&self) -> (found: Vec<MatchInfo>)
        ensures
            found@ == self.reports(),
    {
        let mut found: Vec<MatchInfo> = Vec::new();
        let mut i: usize = 0;
        while i < self.matches.len()
            invariant
                i <= self.matches@.len(),
                found@ == self.matches@.subrange(0, i as int),
            decreases self.matches@.len() - i,
        {
            found.push(copy_of(&self.matches[i]));
            assert(found@ =~= self.matches@.subrange(0, i + 1));
            i = i + 1;
        }
        assert(self.matches@.subrange(0, self.matches@.len() as int) =~= self.matches@);
        found
    }

    /// What the predicate says of `text`.
    pub fn matches_text(&self, text: &str) -> (b: bool)
        ensures
            b == holds_of(self.rule(), text@),
    {
        match &self.predicate {
            Predicate::Never => false,
            Predicate::Always => true,
            Predicate::Containing(needle) => contains_bytes(
                str_bytes(text),
                str_bytes(needle.as_str()),
            ),
        }
    }
}

impl Default for StubMatcher {
    fn default() -> (m: StubMatcher)
        ensures
            m.reports().len() == 0,
    {
        StubMatcher::new()
    }
}

impl Matcher for StubMatcher {
    /// The matches that were added, whatever the text.
    open spec fn found_in_text(&self, content: Seq<char>) -> Seq<MatchInfo> {
        self.reports()
    }

    /// A stub matcher reads no files itself.
    open spec fn found_at_path(&self, path: Seq<char>) -> Option<
        Result<Seq<MatchInfo>, MatcherError>,
    > {
        None
    }

    /// What the predicate says of the text.
    open spec fn accepts(&self, text: Seq<char>) -> bool {
        holds_of(self.rule(), text)
    }

    /// Every pattern gives a matcher that reports no match and that no
    /// text matches.
    fn compile(pattern: &str) -> (r: Result<Self, MatcherError>)
        ensures
            r matches Ok(m) && m.reports().len() == 0 && m.rule() == Predicate::Never,
    {
        Ok(StubMatcher::new())
    }

    /// The matches that were added, whatever the text.
    fn search_in_content(&self, content: &str) -> (found: Vec<MatchInfo>)
        ensures
            found@ == self.reports(),
    {
        self.reported()
    }

    /// What the predicate says of the text.
    fn is_match(&self, text: &str) -> (b: bool)
        ensures
            b == holds_of(self.rule(), text@),
    {
        self.matches_text(text)
    }

    /// A stub matcher reads no files itself.
    fn search_path(&self, path: &str) -> (r: Option<Result<Vec<MatchInfo>, MatcherError>>)
        ensures
            r is None,
    {
        None
    }
}

} // verus!
