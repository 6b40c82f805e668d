//! The search: every file of a walker is read and handed to a matcher.

use vstd::prelude::*;
use vstd::utf8::*;
use crate::filesystem::errors::FilesystemError;
use crate::filesystem::FileSystem;
use crate::matcher::info::{MatchInfo, MatcherError, copy_of};
use crate::matcher::Matcher;
use crate::text::{bytes_of, count_lines};
use crate::types::{MatchResult, SearchError, SearchResult, numbered_from};
use crate::walker::{Walker, texts};

verus! {

/// A search over a file system, with a matcher and a walker.
pub struct Searcher<FS: FileSystem, M: Matcher, W: Walker> {
    fs: FS,
    matcher: M,
    walker: W,
}

/// What stands in the way of searching a path, given whether something
/// stands at the path and whether it is a file.
pub open spec fn file_failure(path: Seq<char>, exists: bool, is_file: bool, e: SearchError) -> bool {
    if !exists {
        e matches SearchError::FileReadError { source: FilesystemError::FileNotFound { path: p } }
            && p@ == path
    } else {
        e matches SearchError::FileReadError { source: FilesystemError::NotAFile { path: p } }
            && p@ == path
    }
}

/// Checks that a file stands at the path, given what the file system said.
pub fn check_file(path: &str, exists: bool, is_file: bool) -> (r: Result<(), SearchError>)
    ensures
        r is Ok <==> exists && is_file,
        r matches Err(e) ==> file_failure(path@, exists, is_file, e),
{
    if !exists {
        return Err(
            SearchError::FileReadError {
                source: FilesystemError::FileNotFound { path: path.to_owned() },
            },
        );
    }
    if !is_file {
        return Err(
            SearchError::FileReadError {
                source: FilesystemError::NotAFile { path: path.to_owned() },
            },
        );
    }
    Ok(())
}

/// The line numbers that a matcher reported can be: no more lines stand
/// before the matching line than its number allows, and the lines behind it
/// have numbers that `usize` holds.
pub open spec fn lines_in_range(info: MatchInfo) -> bool {
    count_lines(bytes_of(info.previous_lines@), 0) <= info.line_num && info.line_num + count_lines(
        bytes_of(info.next_lines@),
        0,
    ) <= usize::MAX
}

/// `m` is the match that the matcher reported with `info` for the file `path`.
pub open spec fn match_of(m: MatchResult, info: MatchInfo, path: Seq<char>) -> bool {
    &&& m.file_path@ == path
    &&& m.line_number == info.line_num
    &&& m.line_content == info.line_content
    &&& m.line_match == info.line_match
    &&& m.byte_offset == info.byte_offset
    &&& numbered_from(
        m.context_before@,
        bytes_of(info.previous_lines@),
        info.line_num - count_lines(bytes_of(info.previous_lines@), 0),
    )
    &&& numbered_from(m.context_after@, bytes_of(info.next_lines@), info.line_num + 1)
}

/// The matches of a file, from what a matcher reported for it. Fails where
/// a report has line numbers that cannot be.
pub fn matches_of(infos: &Vec<MatchInfo>, path: &str) -> (r: Result<Vec<MatchResult>, SearchError>)
    ensures
        r is Ok <==> forall|i: int| 0 <= i < infos@.len() ==> lines_in_range(#[trigger] infos@[i]),
        r matches Ok(found) ==> found@.len() == infos@.len() && forall|i: int|
            0 <= i < found@.len() ==> match_of(#[trigger] found@[i], infos@[i], path@),
        r matches Err(e) ==> e is MatcherError,
{
    let mut found: Vec<MatchResult> = Vec::new();
    let mut i: usize = 0;
    while i < infos.len()
        invariant
            i <= infos@.len(),
            found@.len() == i,
            forall|j: int| 0 <= j < i ==> lines_in_range(#[trigger] infos@[j]),
            forall|j: int| 0 <= j < i ==> match_of(#[trigger] found@[j], infos@[j], path@),
        decreases infos@.len() - i,
    {
        let ghost before = found@;
        match MatchResult::checked_from_match_info(copy_of(&infos[i]), path.to_owned()) {
            Some(m) => {
                found.push(m);
                proof {
                    assert forall|j: int| 0 <= j < i + 1 implies match_of(
                        #[trigger] found@[j],
                        infos@[j],
                        path@,
                    ) by {
                        if j < i {
                            assert(found@[j] == before[j]);
                        }
                    }
                }
            },
            None => {
                assert(!lines_in_range(infos@[i as int]));
                return Err(
                    SearchError::MatcherError {
                        source: MatcherError::SearchError {
                            message: "line numbers out of range".to_owned(),
                        },
                    },
                );
            },
        }
        i = i + 1;
    }
    Ok(found)
}

/// The lines around the match are numbered as they lie: those before it
/// up to the line before it, those behind it from the line behind it on.
pub open spec fn numbered_around(m: MatchResult) -> bool {
    &&& forall|i: int|
        0 <= i < m.context_before@.len() ==> (#[trigger] m.context_before@[i]).line_number
            == m.line_number - m.context_before@.len() + i
    &&& forall|i: int|
        0 <= i < m.context_after@.len() ==> (#[trigger] m.context_after@[i]).line_number
            == m.line_number + 1 + i
}

/// The match names one of the first `n` files.
pub open spec fn found_in(m: MatchResult, files: Seq<String>, n: int) -> bool {
    exists|j: int| 0 <= j < n && j < files.len() && m.file_path@ == (#[trigger] files[j])@
}

/// What a search gives once one more file is searched: the failure that
/// there was; or the failure of this file, the first one to fail; or the
/// matches so far with those of this file behind them.
pub open spec fn with_outcome(
    so_far: Result<SearchResult, SearchError>,
    outcome: Result<Vec<MatchResult>, SearchError>,
    r: Result<SearchResult, SearchError>,
) -> bool {
    match (so_far, outcome) {
        (Err(e), _) => r == Err::<SearchResult, SearchError>(e),
        (Ok(_), Err(e)) => r == Err::<SearchResult, SearchError>(e),
        (Ok(result), Ok(found)) => r matches Ok(sum) && sum.matches@ == result.matches@ + found@,
    }
}

/// The first failure among the outcomes, if one of them is a failure.
pub open spec fn first_failure(outcomes: Seq<Result<Vec<MatchResult>, SearchError>>) -> Option<
    SearchError,
>
    decreases outcomes.len(),
{
    if outcomes.len() == 0 {
        None
    } else {
        match first_failure(outcomes.drop_last()) {
            Some(e) => Some(e),
            None => match outcomes.last() {
                Err(e) => Some(e),
                Ok(_) => None,
            },
        }
    }
}

/// The matches of all outcomes, those of one file behind those of the file
/// before it.
pub open spec fn all_found(outcomes: Seq<Result<Vec<MatchResult>, SearchError>>) -> Seq<
    MatchResult,
>
    decreases outcomes.len(),
{
    if outcomes.len() == 0 {
        Seq::empty()
    } else {
        all_found(outcomes.drop_last()) + match outcomes.last() {
            Ok(found) => found@,
            Err(_) => Seq::empty(),
        }
    }
}

/// `r` is what the outcomes of the files come to, one added behind the
/// other as `add_outcome` does: the first failure, or the matches of all
/// files.
pub open spec fn gathered(
    outcomes: Seq<Result<Vec<MatchResult>, SearchError>>,
    r: Result<SearchResult, SearchError>,
) -> bool {
    match first_failure(outcomes) {
        Some(e) => r == Err::<SearchResult, SearchError>(e),
        None => r matches Ok(sum) && sum.matches@ == all_found(outcomes),
    }
}

/// `r` is what `matches_of` makes of the reports `infos` for the file
/// `path`: a match for each report, or a failure where a report has line
/// numbers that cannot be.
pub open spec fn matched(
    infos: Seq<MatchInfo>,
    path: Seq<char>,
    r: Result<Vec<MatchResult>, SearchError>,
) -> bool {
    &&& r is Ok <==> forall|i: int| 0 <= i < infos.len() ==> lines_in_range(#[trigger] infos[i])
    &&& r matches Ok(found) ==> found@.len() == infos.len() && forall|i: int|
        0 <= i < found@.len() ==> match_of(#[trigger] found@[i], infos[i], path)
    &&& r matches Err(e) ==> e is MatcherError
}

/// `outcome` is the outcome of searching the file `path`. Where no file
/// stands at the path, it is the failure that `check_file` tells. Where
/// the file has a path on the disk and the matcher reads files itself, it
/// comes from what the matcher reports of that path. Otherwise the file is
/// read: it is the failure to read it, or comes from what the matcher
/// reports of its text.
pub open spec fn outcome_of<FS: FileSystem, M: Matcher>(
    fs: FS,
    matcher: M,
    path: Seq<char>,
    outcome: Result<Vec<MatchResult>, SearchError>,
) -> bool {
    if !(fs.stands(path) && fs.holds().dom().contains(path)) {
        outcome matches Err(e) && file_failure(
            path,
            fs.stands(path),
            fs.holds().dom().contains(path),
            e,
        )
    } else {
        let by_path = match fs.on_disk(path) {
            Some(on_disk) => matcher.found_at_path(on_disk),
            None => None,
        };
        match by_path {
            Some(Err(source)) => outcome matches Err(SearchError::MatcherError { source: s })
                && s == source,
            Some(Ok(infos)) => matched(infos, path, outcome),
            None => if fs.readable(path) {
                matched(matcher.found_in_text(decode_utf8(fs.holds()[path])), path, outcome)
            } else {
                outcome matches Err(e) && e is FileReadError
            },
        }
    }
}

/// `outcomes` are the outcomes of searching `files`, one for each file.
pub open spec fn searched<FS: FileSystem, M: Matcher>(
    fs: FS,
    matcher: M,
    files: Seq<Seq<char>>,
    outcomes: Seq<Result<Vec<MatchResult>, SearchError>>,
) -> bool {
    &&& outcomes.len() == files.len()
    &&& forall|i: int|
        0 <= i < files.len() ==> outcome_of(fs, matcher, files[i], #[trigger] outcomes[i])
}

/// The matches of an outcome name the file and have the lines around them
/// numbered as they lie.
pub proof fn lemma_outcome_numbered<FS: FileSystem, M: Matcher>(
    fs: FS,
    matcher: M,
    path: Seq<char>,
    outcome: Result<Vec<MatchResult>, SearchError>,
)
    requires
        outcome_of(fs, matcher, path, outcome),
    ensures
        outcome matches Ok(found) ==> forall|k: int|
            0 <= k < found@.len() ==> (#[trigger] found@[k]).file_path@ == path && numbered_around(
                found@[k],
            ),
{
}

/// Where no outcome is a failure, there is no first failure.
pub proof fn lemma_no_failure(outcomes: Seq<Result<Vec<MatchResult>, SearchError>>)
    requires
        forall|j: int| 0 <= j < outcomes.len() ==> #[trigger] outcomes[j] is Ok,
    ensures
        first_failure(outcomes) is None,
    decreases outcomes.len(),
{
    if outcomes.len() > 0 {
        lemma_no_failure(outcomes.drop_last());
    }
}

/// The first failure is that of the first file that failed.
pub proof fn lemma_first_failure(outcomes: Seq<Result<Vec<MatchResult>, SearchError>>, i: int)
    requires
        0 <= i < outcomes.len(),
        outcomes[i] is Err,
        forall|j: int| 0 <= j < i ==> #[trigger] outcomes[j] is Ok,
    ensures
        first_failure(outcomes) == Some(outcomes[i]->Err_0),
    decreases outcomes.len(),
{
    let front = outcomes.drop_last();
    if i == outcomes.len() - 1 {
        lemma_no_failure(front);
    } else {
        lemma_first_failure(front, i);
    }
}

/// Adding one more outcome as `add_outcome` does keeps the sum gathered.
pub proof fn lemma_gathered_next(
    outcomes: Seq<Result<Vec<MatchResult>, SearchError>>,
    so_far: Result<SearchResult, SearchError>,
    outcome: Result<Vec<MatchResult>, SearchError>,
    r: Result<SearchResult, SearchError>,
)
    requires
        gathered(outcomes, so_far),
        with_outcome(so_far, outcome, r),
    ensures
        gathered(outcomes.push(outcome), r),
{
    let more = outcomes.push(outcome);
    assert(more.drop_last() =~= outcomes);
    assert(more.last() == outcome);
    if first_failure(outcomes) is None && outcome is Ok {
        assert(all_found(more) == all_found(outcomes) + outcome->Ok_0@);
    }
}

/// Adds what searching one file gave to what the files before it gave.
pub fn add_outcome(
    so_far: Result<SearchResult, SearchError>,
    outcome: Result<Vec<MatchResult>, SearchError>,
) -> (r: Result<SearchResult, SearchError>)
    ensures
        with_outcome(so_far, outcome, r),
{
    match so_far {
        Err(e) => Err(e),
        Ok(result) => match outcome {
            Err(e) => Err(e),
            Ok(found) => {
                let mut sum = result;
                let mut found = found;
                sum.matches.append(&mut found);
                Ok(sum)
            },
        },
    }
}

impl<FS: FileSystem, M: Matcher, W: Walker> Searcher<FS, M, W> {
    /// The file system that the search reads.
    pub closed spec fn file_system(&self) -> FS {
        self.fs
    }

    /// The matcher that the search hands the files to.
    pub closed spec fn pattern_matcher(&self) -> M {
        self.matcher
    }

    /// The walker that names the files to search.
    pub closed spec fn file_walker(&self) -> W {
        self.walker
    }

    /// A search over `fs`, with `matcher` and `walker`.
    pub fn new(fs: FS, matcher: M, walker: W) -> (s: Self)
        ensures
            s.file_system() == fs,
            s.pattern_matcher() == matcher,
            s.file_walker() == walker,
    {
        Searcher { fs, matcher, walker }
    }

    /// Searches one file. Where no file stands at the path, the search
    /// fails as `check_file` tells. A matcher that reads files itself is
    /// handed the path on the disk, where the file system has one;
    /// otherwise the file is read and the matcher is handed its text:
    /// `matches_of` says what becomes of the matcher's answer. Every match
    /// that is found names the file and has the lines around it numbered
    /// as they lie.
    fn search_file(&self, path: &str) -> (r: Result<Vec<MatchResult>, SearchError>)
        ensures
            outcome_of(self.file_system(), self.pattern_matcher(), path@, r),
    {
        let exists = self.fs.path_exists(path);
        let is_file = self.fs.is_file(path);
        match check_file(path, exists, is_file) {
            Ok(()) => {},
            Err(e) => {
                return Err(e);
            },
        }
        let by_path = match self.fs.as_real_path(path) {
            Some(on_disk) => self.matcher.search_path(on_disk.as_str()),
            None => None,
        };
        let infos = match by_path {
            Some(Ok(infos)) => infos,
            Some(Err(source)) => {
                return Err(SearchError::MatcherError { source });
            },
            None => match self.fs.read_to_string(path) {
                Ok(content) => {
                    proof {
                        encode_utf8_decode_utf8(content@);
                    }
                    self.matcher.search_in_content(content.as_str())
                },
                Err(source) => {
                    return Err(SearchError::FileReadError { source });
                },
            },
        };
        matches_of(&infos, path)
    }

    /// Searches the given files, one behind the other, and gathers what
    /// `add_outcome` makes of each file's outcome: the matches of all files,
    /// file by file, or the failure of the first file that failed; the
    /// files behind it are still searched. A path at which no file stands
    /// is such a failure. Every match that is found names one of the files
    /// and has the lines around it numbered as they lie. With no file,
    /// nothing is found.
    pub fn search_files(&self, files: &Vec<String>) -> (r: Result<SearchResult, SearchError>)
        ensures
            r matches Ok(result) ==> forall|k: int|
                0 <= k < result.matches@.len() ==> found_in(
                    #[trigger] result.matches@[k],
                    files@,
                    files@.len() as int,
                ) && numbered_around(result.matches@[k]),
            files@.len() == 0 ==> (r matches Ok(result) && result.matches@.len() == 0),
            exists|outcomes: Seq<Result<Vec<MatchResult>, SearchError>>|
                searched(self.file_system(), self.pattern_matcher(), texts(files@), outcomes) && gathered(outcomes, r),
    {
        let mut state: Result<SearchResult, SearchError> = Ok(SearchResult::new());
        let ghost outcomes = Seq::<Result<Vec<MatchResult>, SearchError>>::empty();
        assert(state->Ok_0.matches@ =~= all_found(outcomes));
        let mut i: usize = 0;
        while i < files.len()
            invariant
                i <= files@.len(),
                outcomes.len() == i,
                forall|j: int|
                    0 <= j < i ==> outcome_of(
                        self.file_system(),
                        self.pattern_matcher(),
                        files@[j]@,
                        #[trigger] outcomes[j],
                    ),
                gathered(outcomes, state),
                files@.len() == 0 ==> (state matches Ok(result) && result.matches@.len() == 0),
                state matches Ok(result) ==> forall|k: int|
                    0 <= k < result.matches@.len() ==> found_in(
                        #[trigger] result.matches@[k],
                        files@,
                        i as int,
                    ) && numbered_around(result.matches@[k]),
            decreases files@.len() - i,
        {
            let ghost before = state;
            let outcome = self.search_file(files[i].as_str());
            let ghost given = outcome;
            state = add_outcome(state, outcome);
            proof {
                lemma_gathered_next(outcomes, before, given, state);
                lemma_outcome_numbered(
                    self.file_system(),
                    self.pattern_matcher(),
                    files@[i as int]@,
                    given,
                );
                outcomes = outcomes.push(given);
                if state is Ok {
                    let sum = state->Ok_0;
                    let held = before->Ok_0.matches@;
                    let added = given->Ok_0@;
                    assert forall|k: int| 0 <= k < sum.matches@.len() implies found_in(
                        #[trigger] sum.matches@[k],
                        files@,
                        i + 1,
                    ) && numbered_around(sum.matches@[k]) by {
                        if k < held.len() {
                            assert(sum.matches@[k] == held[k]);
                            let j = choose|j: int|
                                0 <= j < i && held[k].file_path@ == (#[trigger] files@[j])@;
                            assert(0 <= j < i + 1);
                        } else {
                            assert(sum.matches@[k] == added[k - held.len()]);
                            assert(added[k - held.len()].file_path@ == files@[i as int]@);
                        }
                    }
                }
            }
            i = i + 1;
        }
        proof {
            assert(searched(self.file_system(), self.pattern_matcher(), texts(files@), outcomes));
        }
        state
    }

    /// Searches every file that the walker names: `search_files` on the
    /// walker's list.
    pub fn search_all(&self) -> (r: Result<SearchResult, SearchError>)
        ensures
            r matches Ok(result) ==> forall|k: int|
                0 <= k < result.matches@.len() ==> numbered_around(#[trigger] result.matches@[k]),
            exists|outcomes: Seq<Result<Vec<MatchResult>, SearchError>>|
                searched(
                    self.file_system(),
                    self.pattern_matcher(),
                    self.file_walker().names(),
                    outcomes,
                ) && gathered(
                    outcomes,
                    r,
                ),
    {
        let files = self.walker.files();
        self.search_files(&files)
    }
}

} // verus!
