//! Looking up given lines of files with the lines around them.
//!
//! The lines asked for are grouped file by file; around each line a range
//! of lines is laid so that no two ranges of a file share a line; then each
//! file is read once, from its first line on, range by range.

pub mod groups;
pub mod input;

use vstd::prelude::*;
use vstd::utf8::*;
use crate::filesystem::errors::FilesystemError;
use crate::text::{bytes_of, clean_cut, count_lines, find_next_line, lemma_count_lines_step, lemma_line_end, lemma_skip_lines, lemma_skip_lines_add, next_line, skip_lines, str_bytes, string_between};
use crate::types::{ContextLine, MatchResult, nth_line};

verus! {

/// Why lines could not be looked up.
#[derive(Debug)]
pub enum IngestError {
    /// A file could not be read.
    FileReadError { source: FilesystemError },
    /// A line of a file could not be read.
    LineReadError { path: String, line_num: usize },
    /// A file ended before line `line_num`.
    UnexpectedEOF { line_num: usize, path: String },
}

/// The lines to read for one line that was asked for: from `start` up to,
/// but without, `end`; `line` is the line asked for.
#[derive(Debug, Clone, Copy, PartialEq, Eq, Structural)]
pub struct Range {
    pub start: usize,
    pub line: usize,
    pub end: usize,
}

/// The greater of two numbers.
pub open spec fn greater(a: int, b: int) -> int {
    if a >= b {
        a
    } else {
        b
    }
}

/// The range around line `line`, where the range before it ended at `prev`
/// and the next line asked for is `next`, if there is one: `context` lines
/// before the line and behind it, but nothing before `prev`, and nothing
/// from `next` on. Numbers stay within what `usize` holds.
pub open spec fn range_around(prev: int, line: int, next: Option<int>, context: int) -> Range {
    let start = greater(prev, line - context);
    let reach = if line + context + 1 > usize::MAX {
        usize::MAX as int
    } else {
        line + context + 1
    };
    let wide = greater(prev, reach);
    let end = match next {
        Some(n) => if n < wide {
            n
        } else {
            wide
        },
        None => wide,
    };
    Range { start: start as usize, line: line as usize, end: end as usize }
}

/// The line asked for behind line `i`, if there is one.
pub open spec fn next_of(lines: Seq<usize>, i: int) -> Option<int> {
    if i + 1 < lines.len() {
        Some(lines[i + 1] as int)
    } else {
        None
    }
}

/// The ranges around the lines from `i` on, where the range before them
/// ended at `prev`. A range that would end before it begins is left out.
pub open spec fn ranges_from(lines: Seq<usize>, i: int, prev: int, context: int) -> Seq<Range>
    decreases lines.len() - i,
{
    if i < 0 || i >= lines.len() {
        Seq::empty()
    } else {
        let r = range_around(prev, lines[i] as int, next_of(lines, i), context);
        let rest = ranges_from(lines, i + 1, r.end as int, context);
        if r.start > r.end {
            rest
        } else {
            seq![r] + rest
        }
    }
}

/// Every range is the range of one of the lines.
pub proof fn lemma_range_lines(lines: Seq<usize>, i: int, prev: int, context: int, k: int)
    requires
        0 <= i,
        0 <= k < ranges_from(lines, i, prev, context).len(),
    ensures
        exists|j: int|
            i <= j < lines.len() && ranges_from(lines, i, prev, context)[k].line == #[trigger] lines[j],
    decreases lines.len() - i,
{
    let r = range_around(prev, lines[i] as int, next_of(lines, i), context);
    let rest = ranges_from(lines, i + 1, r.end as int, context);
    assert(r.line == lines[i]);
    if r.start > r.end {
        lemma_range_lines(lines, i + 1, r.end as int, context, k);
        let j = choose|j: int| i + 1 <= j < lines.len() && rest[k].line == #[trigger] lines[j];
        assert(i <= j < lines.len());
    } else if k == 0 {
        assert((seq![r] + rest)[0] == r);
        assert(i <= i < lines.len() && r.line == lines[i]);
    } else {
        assert((seq![r] + rest)[k] == rest[k - 1]);
        lemma_range_lines(lines, i + 1, r.end as int, context, k - 1);
        let j = choose|j: int| i + 1 <= j < lines.len() && rest[k - 1].line == #[trigger] lines[j];
        assert(i <= j < lines.len());
    }
}

/// The ranges around the given lines, which are to come in rising order.
pub fn create_ranges(lines: &[usize], context: usize) -> (ranges: Vec<Range>)
    ensures
        ranges@ == ranges_from(lines@, 0, 1, context as int),
{
    let mut ranges: Vec<Range> = Vec::new();
    let mut prev: usize = 1;
    let mut i: usize = 0;
    assert(ranges@ + ranges_from(lines@, 0, 1, context as int) =~= ranges_from(
        lines@,
        0,
        1,
        context as int,
    ));
    while i < lines.len()
        invariant
            i <= lines@.len(),
            ranges@ + ranges_from(lines@, i as int, prev as int, context as int) == ranges_from(
                lines@,
                0,
                1,
                context as int,
            ),
        decreases lines@.len() - i,
    {
        let line = lines[i];
        let before: usize = if context > line { 0 } else { line - context };
        let start: usize = if prev >= before { prev } else { before };
        let reach: usize = if context >= usize::MAX - line {
            usize::MAX
        } else {
            line + context + 1
        };
        let wide: usize = if prev >= reach { prev } else { reach };
        let end: usize = if i + 1 < lines.len() && lines[i + 1] < wide {
            lines[i + 1]
        } else {
            wide
        };
        let ghost held = ranges@;
        let ghost r = range_around(prev as int, line as int, next_of(lines@, i as int), context as int);
        assert(r == Range { start, line, end });
        let ghost rest = ranges_from(lines@, i + 1, end as int, context as int);
        if start <= end {
            ranges.push(Range { start, line, end });
            assert(ranges@ + rest =~= held + (seq![r] + rest));
        }
        prev = end;
        i = i + 1;
    }
    assert(ranges@ + Seq::<Range>::empty() =~= ranges@);
    ranges
}

/// Where reading stands in a file: at the beginning of line `line`, which
/// is at offset `byte`.
#[derive(Debug, Clone, Copy, PartialEq, Eq, Structural)]
pub struct Positions {
    pub line: usize,
    pub byte: usize,
}

/// The positions are those of a line of `content`: of one of its lines, or
/// of the line behind its last.
pub open spec fn at_line_of(p: Positions, content: Seq<u8>) -> bool {
    &&& content.len() < usize::MAX
    &&& 1 <= p.line <= count_lines(content, 0) + 1
    &&& p.byte == skip_lines(content, 0, (p.line - 1) as nat)
}

/// `e` tells that the file `path` ended before line `line_num`.
pub open spec fn is_eof(e: IngestError, path: Seq<char>, line_num: nat) -> bool {
    e matches IngestError::UnexpectedEOF { line_num: n, path: p } && n == line_num && p@ == path
}

/// The positions of the line behind line `line`.
proof fn lemma_next_position(content: Seq<u8>, line: int)
    requires
        1 <= line <= count_lines(content, 0),
    ensures
        skip_lines(content, 0, (line - 1) as nat) < content.len(),
        skip_lines(content, 0, line as nat) == next_line(
            content,
            skip_lines(content, 0, (line - 1) as nat),
        ),
        clean_cut(content, skip_lines(content, 0, (line - 1) as nat)),
        clean_cut(content, skip_lines(content, 0, line as nat)),
        skip_lines(content, 0, line as nat) <= content.len(),
{
    let at = skip_lines(content, 0, (line - 1) as nat);
    lemma_skip_lines(content, 0, (line - 1) as nat);
    lemma_skip_lines(content, 0, line as nat);
    lemma_lines_behind(content, 0, (line - 1) as nat);
    lemma_skip_lines_add(content, 0, (line - 1) as nat, 1);
    assert(skip_lines(content, at, 1) == next_line(content, at)) by {
        assert(skip_lines(content, next_line(content, at), 0) == next_line(content, at));
    }
}

/// Behind `k` lines of a text, the lines that it has beyond them are left.
proof fn lemma_lines_behind(s: Seq<u8>, pos: int, k: nat)
    requires
        0 <= pos <= s.len(),
    ensures
        count_lines(s, skip_lines(s, pos, k)) == if count_lines(s, pos) >= k {
            count_lines(s, pos) - k
        } else {
            0
        },
    decreases k,
{
    if k > 0 {
        lemma_line_end(s, pos);
        if pos < s.len() {
            lemma_count_lines_step(s, pos);
        }
        lemma_lines_behind(s, next_line(s, pos), (k - 1) as nat);
    }
}

/// Reads the line at which the positions stand, with its line feed, and
/// moves the positions to the line behind it. Fails at the end of the text.
pub fn read_line(content: &str, positions: &mut Positions, path: &str) -> (r: Result<
    String,
    IngestError,
>)
    requires
        at_line_of(*old(positions), bytes_of(content@)),
    ensures
        at_line_of(*final(positions), bytes_of(content@)),
        match r {
            Ok(line) => {
                &&& old(positions).line <= count_lines(bytes_of(content@), 0)
                &&& final(positions).line == old(positions).line + 1
                &&& bytes_of(line@) == nth_line(
                    bytes_of(content@),
                    (old(positions).line - 1) as nat,
                )
            },
            Err(e) => {
                &&& old(positions).line == count_lines(bytes_of(content@), 0) + 1
                &&& *final(positions) == *old(positions)
                &&& is_eof(e, path@, old(positions).line as nat)
            },
        },
{
    let s = str_bytes(content);
    proof {
        lemma_skip_lines(s@, 0, (positions.line - 1) as nat);
        lemma_lines_behind(s@, 0, (positions.line - 1) as nat);
        crate::text::lemma_count_lines_bound(s@, 0);
        if positions.byte < s@.len() {
            lemma_count_lines_step(s@, positions.byte as int);
        }
        if positions.line <= count_lines(s@, 0) {
            lemma_next_position(s@, positions.line as int);
        }
    }
    if positions.byte >= s.len() {
        return Err(
            IngestError::UnexpectedEOF { line_num: positions.line, path: path.to_owned() },
        );
    }
    let next = find_next_line(s, positions.byte);
    let line = string_between(s, positions.byte, next);
    positions.line = positions.line + 1;
    positions.byte = next;
    Ok(line)
}

/// Where reading stands once the lines before line `until` are read, from
/// line `line` on, in a text of `total` lines; nowhere where the text ends
/// before that.
pub open spec fn line_after_reading(total: int, line: int, until: int) -> Option<int> {
    if line >= until {
        Some(line)
    } else if total >= until - 1 {
        Some(until)
    } else {
        None
    }
}

/// `lines` are the lines `first` to `last` of `text`, each with its line
/// feed, and each numbered as the line behind it.
pub open spec fn lines_read(lines: Seq<ContextLine>, text: Seq<u8>, first: int, last: int) -> bool {
    &&& lines.len() == if first <= last {
        last - first + 1
    } else {
        0
    }
    &&& forall|i: int|
        0 <= i < lines.len() ==> (#[trigger] lines[i]).line_number == first + i + 1 && bytes_of(
            lines[i].content@,
        ) == nth_line(text, (first + i - 1) as nat)
}

/// Reads the lines before line `until`, from where the positions stand.
fn read_lines_until(content: &str, positions: &mut Positions, until: usize, path: &str) -> (r:
    Result<Vec<ContextLine>, IngestError>)
    requires
        at_line_of(*old(positions), bytes_of(content@)),
    ensures
        at_line_of(*final(positions), bytes_of(content@)),
        match r {
            Ok(lines) => line_after_reading(
                count_lines(bytes_of(content@), 0) as int,
                old(positions).line as int,
                until as int,
            ) == Some(final(positions).line as int) && lines_read(
                lines@,
                bytes_of(content@),
                old(positions).line as int,
                until - 1,
            ),
            Err(e) => line_after_reading(
                count_lines(bytes_of(content@), 0) as int,
                old(positions).line as int,
                until as int,
            ) is None && is_eof(e, path@, count_lines(bytes_of(content@), 0) + 1),
        },
{
    let ghost text = bytes_of(content@);
    let ghost first = positions.line as int;
    let mut lines: Vec<ContextLine> = Vec::new();
    while positions.line < until
        invariant
            text == bytes_of(content@),
            at_line_of(*positions, text),
            first == old(positions).line,
            first <= positions.line <= greater(first, until as int),
            lines@.len() == positions.line - first,
            forall|i: int|
                0 <= i < lines@.len() ==> (#[trigger] lines@[i]).line_number == first + i + 1
                    && bytes_of(lines@[i].content@) == nth_line(text, (first + i - 1) as nat),
        decreases until - positions.line,
    {
        let ghost held = lines@;
        match read_line(content, positions, path) {
            Err(e) => {
                return Err(e);
            },
            Ok(line) => {
                lines.push(ContextLine { line_number: positions.line, content: line });
                proof {
                    assert forall|i: int| 0 <= i < lines@.len() implies (
                    #[trigger] lines@[i]).line_number == first + i + 1 && bytes_of(
                        lines@[i].content@,
                    ) == nth_line(text, (first + i - 1) as nat) by {
                        if i < held.len() {
                            assert(lines@[i] == held[i]);
                        }
                    }
                }
            },
        }
    }
    Ok(lines)
}

/// What reading a range gives, from line `line` on, in a text of `total`
/// lines.
pub enum Reading {
    /// The text ends before a line that must be read.
    Fails,
    /// Reading stands behind the range, or behind its line, at line `at`:
    /// the range gives nothing.
    Nothing { at: int },
    /// The range gives a match with the lines `first` to `last` around it;
    /// reading then stands at the line behind `last`, or behind the line of
    /// the range where no line behind it was read.
    Found { first: int, last: int },
}

/// What reading `range` gives, from line `line` on, in a text of `total`
/// lines: the lines before the range are passed over; then the lines
/// before the line of the range are read, the line itself, and the lines
/// behind it up to the end of the range.
pub open spec fn reading_of(total: int, line: int, range: Range) -> Reading {
    match line_after_reading(total, line, range.start as int) {
        None => Reading::Fails,
        Some(from) => if from > range.end {
            Reading::Nothing { at: from }
        } else {
            match line_after_reading(total, from, range.line as int) {
                None => Reading::Fails,
                Some(at) => if at != range.line {
                    Reading::Nothing { at }
                } else if total < range.line {
                    Reading::Fails
                } else {
                    match line_after_reading(total, range.line + 1, range.end as int) {
                        None => Reading::Fails,
                        Some(behind) => Reading::Found { first: from, last: behind - 1 },
                    }
                },
            }
        },
    }
}

/// Reads one range of the file `path`, whose text is `content`, from where
/// the positions stand, and moves the positions behind what was read. The
/// match that a range gives has the line of the range as its line, the
/// offset of that line, and the lines read before and behind it.
pub fn process_range(content: &str, positions: &mut Positions, range: Range, path: &str) -> (r:
    Result<Option<MatchResult>, IngestError>)
    requires
        at_line_of(*old(positions), bytes_of(content@)),
    ensures
        at_line_of(*final(positions), bytes_of(content@)),
        match reading_of(
            count_lines(bytes_of(content@), 0) as int,
            old(positions).line as int,
            range,
        ) {
            Reading::Fails => r matches Err(e) && is_eof(
                e,
                path@,
                count_lines(bytes_of(content@), 0) + 1,
            ),
            Reading::Nothing { at } => r matches Ok(None) && final(positions).line == at,
            Reading::Found { first, last } => r matches Ok(Some(m)) && {
                &&& final(positions).line == last + 1
                &&& m.file_path@ == path@
                &&& m.line_number == range.line
                &&& m.line_match is None
                &&& m.byte_offset == skip_lines(bytes_of(content@), 0, (range.line - 1) as nat)
                &&& bytes_of(m.line_content@) == nth_line(
                    bytes_of(content@),
                    (range.line - 1) as nat,
                )
                &&& lines_read(m.context_before@, bytes_of(content@), first, range.line - 1)
                &&& lines_read(m.context_after@, bytes_of(content@), range.line + 1, last)
            },
        },
{
    match read_lines_until(content, positions, range.start, path) {
        Err(e) => {
            return Err(e);
        },
        Ok(_) => {},
    }
    if positions.line > range.end {
        return Ok(None);
    }
    let context_before = match read_lines_until(content, positions, range.line, path) {
        Err(e) => {
            return Err(e);
        },
        Ok(lines) => lines,
    };
    if positions.line != range.line {
        return Ok(None);
    }
    let byte_offset = positions.byte;
    let line_content = match read_line(content, positions, path) {
        Err(e) => {
            return Err(e);
        },
        Ok(line) => line,
    };
    let context_after = match read_lines_until(content, positions, range.end, path) {
        Err(e) => {
            return Err(e);
        },
        Ok(lines) => lines,
    };
    Ok(
        Some(
            MatchResult {
                file_path: path.to_owned(),
                line_number: range.line,
                line_content,
                line_match: None,
                byte_offset,
                context_before,
                context_after,
            },
        ),
    )
}

/// One match that reading the ranges of a file gives: the range that gave
/// it, counted from 0, and the first and last of the lines read around it.
pub struct Finding {
    pub range: int,
    pub first: int,
    pub last: int,
}

/// What reading the ranges from `i` on gives, from line `line` on, in a
/// text of `total` lines: the findings of the ranges that give a match, in
/// their order; nothing where the text ends before a line that must be read.
pub open spec fn findings_from(total: int, line: int, ranges: Seq<Range>, i: int) -> Option<
    Seq<Finding>,
>
    decreases ranges.len() - i,
{
    if i < 0 || i >= ranges.len() {
        Some(Seq::empty())
    } else {
        match reading_of(total, line, ranges[i]) {
            Reading::Fails => None,
            Reading::Nothing { at } => findings_from(total, at, ranges, i + 1),
            Reading::Found { first, last } => match findings_from(total, last + 1, ranges, i + 1) {
                None => None,
                Some(rest) => Some(seq![Finding { range: i, first, last }] + rest),
            },
        }
    }
}

/// The findings so far, before what the ranges still to read give.
pub open spec fn findings_then(done: Seq<Finding>, rest: Option<Seq<Finding>>) -> Option<
    Seq<Finding>,
> {
    match rest {
        None => None,
        Some(more) => Some(done + more),
    }
}

/// `m` is the match of the finding: it names the file and the line of the
/// range, with the offset and the text of that line, and holds the lines
/// read before and behind it.
pub open spec fn match_of_finding(
    m: MatchResult,
    f: Finding,
    ranges: Seq<Range>,
    content: Seq<u8>,
    path: Seq<char>,
) -> bool {
    &&& 0 <= f.range < ranges.len()
    &&& m.file_path@ == path
    &&& m.line_number == ranges[f.range].line
    &&& m.line_match is None
    &&& m.byte_offset == skip_lines(content, 0, (ranges[f.range].line - 1) as nat)
    &&& bytes_of(m.line_content@) == nth_line(content, (ranges[f.range].line - 1) as nat)
    &&& lines_read(m.context_before@, content, f.first, ranges[f.range].line - 1)
    &&& lines_read(m.context_after@, content, ranges[f.range].line + 1, f.last)
}

/// The lines around the match are numbered one behind the other, each as
/// the line behind it: the last line before the match has the number of
/// the match.
pub open spec fn numbered_behind(m: MatchResult) -> bool {
    &&& forall|i: int|
        0 <= i < m.context_before@.len() ==> (#[trigger] m.context_before@[i]).line_number
            == m.line_number - m.context_before@.len() + i + 1
    &&& forall|i: int|
        0 <= i < m.context_after@.len() ==> (#[trigger] m.context_after@[i]).line_number
            == m.line_number + 2 + i
}

/// The match and the lines around it are lines of `content`: the match is
/// the line of its number, at its offset, and the lines around it are the
/// lines next to it, each with its line feed.
pub open spec fn lines_of_text(m: MatchResult, content: Seq<u8>) -> bool {
    &&& m.byte_offset == skip_lines(content, 0, (m.line_number - 1) as nat)
    &&& bytes_of(m.line_content@) == nth_line(content, (m.line_number - 1) as nat)
    &&& forall|i: int|
        0 <= i < m.context_before@.len() ==> bytes_of(
            (#[trigger] m.context_before@[i]).content@,
        ) == nth_line(content, (m.line_number - m.context_before@.len() + i - 1) as nat)
    &&& forall|i: int|
        0 <= i < m.context_after@.len() ==> bytes_of((#[trigger] m.context_after@[i]).content@)
            == nth_line(content, (m.line_number + i) as nat)
}

/// `m` is a match of the file `path`, whose text is `content`, for the
/// line of one of the ranges.
pub open spec fn match_of_ranges(
    m: MatchResult,
    path: Seq<char>,
    ranges: Seq<Range>,
    content: Seq<u8>,
) -> bool {
    &&& m.file_path@ == path
    &&& m.line_match is None
    &&& numbered_behind(m)
    &&& lines_of_text(m, content)
    &&& exists|j: int| 0 <= j < ranges.len() && m.line_number == (#[trigger] ranges[j]).line
}

/// The match of a finding is a match for the line of one of the ranges.
pub proof fn lemma_finding_of_ranges(
    m: MatchResult,
    f: Finding,
    ranges: Seq<Range>,
    content: Seq<u8>,
    path: Seq<char>,
)
    requires
        match_of_finding(m, f, ranges, content, path),
    ensures
        match_of_ranges(m, path, ranges, content),
{
    assert(m.line_number == ranges[f.range].line);
}

/// `r` is what reading the ranges of the file `path` gives, whose text is
/// `content`: the matches of the findings, or the failure that tells of
/// the end of the text. A text of as many bytes as `usize` counts is
/// refused: its lines could not be numbered.
pub open spec fn reads_ranges(
    r: Result<Vec<MatchResult>, IngestError>,
    path: Seq<char>,
    content: Seq<u8>,
    ranges: Seq<Range>,
) -> bool {
    if content.len() >= usize::MAX {
        r matches Err(e) && e is LineReadError
    } else {
        match findings_from(count_lines(content, 0) as int, 1, ranges, 0) {
            None => r matches Err(e) && is_eof(e, path, count_lines(content, 0) + 1),
            Some(findings) => r matches Ok(found) && found@.len() == findings.len()
                && forall|k: int|
                0 <= k < found@.len() ==> match_of_finding(
                    #[trigger] found@[k],
                    findings[k],
                    ranges,
                    content,
                    path,
                ),
        }
    }
}

/// Reads the ranges of the file `path` from its text, one behind the
/// other, from the first line on, and gathers the matches that they give.
/// Fails where the text ends before a line that a range needs, and for a
/// text of so many bytes that its lines cannot be numbered.
pub fn process_file(path: &str, content: &str, ranges: &[Range]) -> (r: Result<
    Vec<MatchResult>,
    IngestError,
>)
    ensures
        reads_ranges(r, path@, bytes_of(content@), ranges@),
{
    if str_bytes(content).len() == usize::MAX {
        return Err(IngestError::LineReadError { path: path.to_owned(), line_num: usize::MAX });
    }
    let ghost text = bytes_of(content@);
    let ghost total = count_lines(text, 0) as int;
    let ghost mut done: Seq<Finding> = Seq::empty();
    let mut positions = Positions { line: 1, byte: 0 };
    let mut found: Vec<MatchResult> = Vec::new();
    let mut i: usize = 0;
    proof {
        assert(forall|rest: Seq<Finding>| #[trigger] (Seq::<Finding>::empty() + rest) =~= rest);
    }
    while i < ranges.len()
        invariant
            i <= ranges@.len(),
            text == bytes_of(content@),
            text.len() < usize::MAX,
            total == count_lines(text, 0),
            at_line_of(positions, text),
            findings_then(done, findings_from(total, positions.line as int, ranges@, i as int))
                == findings_from(total, 1, ranges@, 0),
            found@.len() == done.len(),
            forall|k: int|
                0 <= k < found@.len() ==> match_of_finding(
                    #[trigger] found@[k],
                    done[k],
                    ranges@,
                    text,
                    path@,
                ),
        decreases ranges@.len() - i,
    {
        let ghost held = found@;
        let ghost before = done;
        let ghost line = positions.line as int;
        match process_range(content, &mut positions, ranges[i], path) {
            Err(e) => {
                return Err(e);
            },
            Ok(None) => {},
            Ok(Some(m)) => {
                found.push(m);
                proof {
                    let reading = reading_of(total, line, ranges@[i as int]);
                    let f = Finding {
                        range: i as int,
                        first: reading->first,
                        last: reading->last,
                    };
                    done = before.push(f);
                    let rest = findings_from(total, f.last + 1, ranges@, i + 1);
                    if let Some(more) = rest {
                        assert(before.push(f) + more =~= before + (seq![f] + more));
                    }
                    assert forall|k: int| 0 <= k < found@.len() implies match_of_finding(
                        #[trigger] found@[k],
                        done[k],
                        ranges@,
                        text,
                        path@,
                    ) by {
                        if k < held.len() {
                            assert(found@[k] == held[k]);
                        }
                    }
                }
            },
        }
        i = i + 1;
    }
    proof {
        assert(done + Seq::<Finding>::empty() =~= done);
    }
    Ok(found)
}

/// What looking up the ranges of the file `path` gives, given what reading
/// the file gave: the failure to read, or what `process_file` makes of the
/// text that was read.
pub fn process_read(path: &str, read: Result<String, FilesystemError>, ranges: &[Range]) -> (r:
    Result<Vec<MatchResult>, IngestError>)
    ensures
        read matches Err(source) ==> r matches Err(IngestError::FileReadError { source: s }) && s
            == source,
        read matches Ok(content) ==> reads_ranges(r, path@, bytes_of(content@), ranges@),
{
    match read {
        Err(source) => Err(IngestError::FileReadError { source }),
        Ok(content) => process_file(path, content.as_str(), ranges),
    }
}

} // verus!
