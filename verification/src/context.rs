//! The lines around a line of a file.

use vstd::prelude::*;
use vstd::utf8::*;
use crate::filesystem::errors::FilesystemError;
use crate::filesystem::FileSystem;
use crate::text::{bytes_of, clean_cut, count_all_lines, count_lines, find_next_line, find_skip_lines, lemma_count_lines_step, lemma_line_end, lemma_skip_lines, lemma_skip_lines_add, next_line, skip_lines, str_bytes, string_between};
use crate::types::{ContextLine, MatchResult, nth_line};

verus! {

/// Why the lines around a line cannot be had.
#[derive(Debug)]
pub enum ContextError {
    /// Lines are counted from 1: there is no line 0.
    LineZero,
    /// The line lies behind the last line of the file.
    BeyondEnd { match_line: usize, total_lines: usize },
    /// The file could not be read.
    Read { source: FilesystemError },
}

/// A line without the line feed that ends it, and without the carriage
/// return before that line feed.
pub open spec fn without_line_end(line: Seq<u8>) -> Seq<u8> {
    if line.len() > 0 && line.last() == 0x0a {
        let bare = line.drop_last();
        if bare.len() > 0 && bare.last() == 0x0d {
            bare.drop_last()
        } else {
            bare
        }
    } else {
        line
    }
}

/// `lines` are the lines `first` to `last` of `text`, lines counted from 1,
/// each with its number and without its line end.
pub open spec fn lines_between(lines: Seq<ContextLine>, text: Seq<u8>, first: int, last: int) -> bool {
    &&& lines.len() == if first <= last {
        last - first + 1
    } else {
        0
    }
    &&& forall|i: int|
        0 <= i < lines.len() ==> (#[trigger] lines[i]).line_number == first + i && bytes_of(
            lines[i].content@,
        ) == without_line_end(nth_line(text, (first + i - 1) as nat))
}

/// The first line of the context of `match_line`: `context_lines` lines
/// before it, or line 1 where fewer stand before it.
pub open spec fn context_start(match_line: int, context_lines: int) -> int {
    if match_line - context_lines < 1 {
        1
    } else {
        match_line - context_lines
    }
}

/// The last line of the context of `match_line` in a text of `total` lines.
pub open spec fn context_end(match_line: int, context_lines: int, total: int) -> int {
    if match_line + context_lines > total {
        total
    } else {
        match_line + context_lines
    }
}

/// The lines `first` to `last` of `s`, without their line ends.
fn bare_lines(s: &[u8], first: usize, last: usize) -> (lines: Vec<ContextLine>)
    requires
        valid_utf8(s@),
        1 <= first,
        last <= count_lines(s@, 0),
    ensures
        lines_between(lines@, s@, first as int, last as int),
{
    let mut lines: Vec<ContextLine> = Vec::new();
    if first > last {
        return lines;
    }
    proof {
        lemma_skip_lines(s@, 0, (first - 1) as nat);
        lemma_lines_left(s@, 0, (first - 1) as nat);
    }
    let mut at = find_skip_lines(s, 0, first - 1);
    let mut line: usize = first;
    loop
        invariant_except_break
            valid_utf8(s@),
            1 <= first <= line <= last <= count_lines(s@, 0),
            at == skip_lines(s@, 0, (line - 1) as nat),
            at <= s@.len(),
            clean_cut(s@, at as int),
            count_lines(s@, at as int) == count_lines(s@, 0) - (line - 1),
            lines@.len() == line - first,
            forall|i: int|
                0 <= i < lines@.len() ==> (#[trigger] lines@[i]).line_number == first + i
                    && bytes_of(lines@[i].content@) == without_line_end(
                    nth_line(s@, (first + i - 1) as nat),
                ),
        ensures
            lines_between(lines@, s@, first as int, last as int),
        decreases last - line,
    {
        let ghost before = lines@;
        proof {
            assert(at < s@.len()) by {
                if at >= s@.len() {
                    assert(count_lines(s@, at as int) == 0);
                }
            }
            lemma_count_lines_step(s@, at as int);
            lemma_line_end(s@, at as int);
            lemma_skip_lines_add(s@, 0, (line - 1) as nat, 1);
            assert(skip_lines(s@, at as int, 1) == next_line(s@, at as int)) by {
                assert(skip_lines(s@, next_line(s@, at as int), 0) == next_line(s@, at as int));
            }
        }
        let next = find_next_line(s, at);
        let mut end: usize = next;
        if end > at && s[end - 1] == 0x0a {
            end = end - 1;
            if end > at && s[end - 1] == 0x0d {
                end = end - 1;
            }
        }
        let content = string_between(s, at, end);
        lines.push(ContextLine { line_number: line, content });
        proof {
            let whole = nth_line(s@, (line - 1) as nat);
            assert(whole == s@.subrange(at as int, next as int));
            assert(s@.subrange(at as int, end as int) =~= without_line_end(whole));
            assert forall|i: int| 0 <= i < lines@.len() implies (#[trigger] lines@[i]).line_number
                == first + i && bytes_of(lines@[i].content@) == without_line_end(
                nth_line(s@, (first + i - 1) as nat),
            ) by {
                if i < before.len() {
                    assert(lines@[i] == before[i]);
                }
            }
        }
        if line == last {
            break ;
        }
        at = next;
        line = line + 1;
    }
    lines
}

/// Behind `k` lines of a text, the lines that it has beyond them are left.
proof fn lemma_lines_left(s: Seq<u8>, pos: int, k: nat)
    requires
        0 <= pos <= s.len(),
    ensures
        count_lines(s, skip_lines(s, pos, k)) == if count_lines(s, pos) >= k {
            count_lines(s, pos) - k
        } else {
            0
        },
    decreases k,
{
    if k > 0 {
        lemma_line_end(s, pos);
        if pos < s.len() {
            lemma_count_lines_step(s, pos);
        }
        lemma_lines_left(s, next_line(s, pos), (k - 1) as nat);
    }
}

/// `before` and `after` are the lines around line `match_line` of `text`:
/// up to `context_lines` lines before it and as many behind it, as far as
/// the text has them.
pub open spec fn context_of(
    before: Seq<ContextLine>,
    after: Seq<ContextLine>,
    text: Seq<u8>,
    match_line: int,
    context_lines: int,
) -> bool {
    let total = count_lines(text, 0) as int;
    &&& 1 <= match_line <= total
    &&& lines_between(before, text, context_start(match_line, context_lines), match_line - 1)
    &&& lines_between(after, text, match_line + 1, context_end(match_line, context_lines, total))
}

/// The lines around line `match_line` of `content`: up to `context_lines`
/// lines before it and as many behind it, as far as the text has them.
pub fn context_in(content: &str, match_line: usize, context_lines: usize) -> (r: Result<
    (Vec<ContextLine>, Vec<ContextLine>),
    ContextError,
>)
    ensures
        match r {
            Ok((before, after)) => context_of(
                before@,
                after@,
                bytes_of(content@),
                match_line as int,
                context_lines as int,
            ),
            Err(ContextError::LineZero) => match_line == 0,
            Err(ContextError::BeyondEnd { match_line: m, total_lines }) => m == match_line
                && total_lines == count_lines(bytes_of(content@), 0) && match_line > total_lines,
            Err(ContextError::Read { .. }) => false,
        },
{
    if match_line == 0 {
        return Err(ContextError::LineZero);
    }
    let s = str_bytes(content);
    let total_lines = count_all_lines(s);
    if match_line > total_lines {
        return Err(ContextError::BeyondEnd { match_line, total_lines });
    }
    let start_line: usize = if context_lines >= match_line {
        1
    } else {
        match_line - context_lines
    };
    let end_line: usize = if context_lines > total_lines - match_line {
        total_lines
    } else {
        match_line + context_lines
    };
    let before = bare_lines(s, start_line, match_line - 1);
    let after = if match_line < end_line {
        bare_lines(s, match_line + 1, end_line)
    } else {
        Vec::new()
    };
    Ok((before, after))
}

/// What reading the file made of the search for the lines around line
/// `match_line`: the failure to read; or what `context_in` says of the
/// text that was read.
pub fn context_of_read(
    read: Result<String, FilesystemError>,
    match_line: usize,
    context_lines: usize,
) -> (r: Result<(Vec<ContextLine>, Vec<ContextLine>), ContextError>)
    ensures
        match (read, r) {
            (Err(source), Err(ContextError::Read { source: s })) => s == source,
            (Err(_), _) => false,
            (Ok(content), Ok((before, after))) => context_of(
                before@,
                after@,
                bytes_of(content@),
                match_line as int,
                context_lines as int,
            ),
            (Ok(_), Err(ContextError::LineZero)) => match_line == 0,
            (Ok(content), Err(ContextError::BeyondEnd { match_line: m, total_lines })) => m
                == match_line && total_lines == count_lines(bytes_of(content@), 0) && match_line
                > total_lines,
            (Ok(_), Err(ContextError::Read { .. })) => false,
        },
{
    match read {
        Err(source) => Err(ContextError::Read { source }),
        Ok(content) => context_in(content.as_str(), match_line, context_lines),
    }
}

/// The lines around line `match_line` of the file `file_path`. Line 0 is
/// refused before the file is read. A file that cannot be read gives the
/// failure to read it; of one that can, the lines are those of the text
/// that the file system holds for it, as `context_in` finds them.
pub fn extract_context<FS: FileSystem>(
    fs: &FS,
    file_path: &str,
    match_line: usize,
    context_lines: usize,
) -> (r: Result<(Vec<ContextLine>, Vec<ContextLine>), ContextError>)
    ensures
        match r {
            Ok((before, after)) => fs.readable(file_path@) && context_of(
                before@,
                after@,
                fs.holds()[file_path@],
                match_line as int,
                context_lines as int,
            ),
            Err(ContextError::LineZero) => match_line == 0,
            Err(ContextError::BeyondEnd { match_line: m, total_lines }) => m == match_line
                && 1 <= match_line && fs.readable(file_path@) && total_lines == count_lines(
                fs.holds()[file_path@],
                0,
            ) && match_line > total_lines,
            Err(ContextError::Read { .. }) => match_line >= 1 && !fs.readable(file_path@),
        },
{
    if match_line == 0 {
        return Err(ContextError::LineZero);
    }
    let read = fs.read_to_string(file_path);
    context_of_read(read, match_line, context_lines)
}

/// The match with the context that its file has for it, given what
/// `extract_context` found: with the lines found, or as it was where they
/// could not be had.
pub fn with_context(
    match_result: MatchResult,
    found: Result<(Vec<ContextLine>, Vec<ContextLine>), ContextError>,
) -> (m: MatchResult)
    ensures
        m.file_path == match_result.file_path,
        m.line_number == match_result.line_number,
        m.line_content == match_result.line_content,
        m.line_match == match_result.line_match,
        m.byte_offset == match_result.byte_offset,
        match found {
            Ok((before, after)) => m.context_before == before && m.context_after == after,
            Err(_) => m.context_before == match_result.context_before && m.context_after
                == match_result.context_after,
        },
{
    let mut m = match_result;
    match found {
        Ok((before, after)) => {
            m.context_before = before;
            m.context_after = after;
        },
        Err(_) => {},
    }
    m
}

/// The file of the match can be read and has the line of the match.
pub open spec fn has_line<FS: FileSystem>(fs: FS, path: Seq<char>, line: int) -> bool {
    fs.readable(path) && 1 <= line <= count_lines(fs.holds()[path], 0)
}

/// The match with the lines around it, read from its file; the match as it
/// was where they cannot be had. Nothing but the lines around it changes.
/// Where the file can be read and has the line, they are the lines around
/// it in the text that the file system holds; otherwise they are as they
/// were.
pub fn add_context_to_match<FS: FileSystem>(
    fs: &FS,
    match_result: MatchResult,
    context_lines: usize,
) -> (m: MatchResult)
    ensures
        m.file_path == match_result.file_path,
        m.line_number == match_result.line_number,
        m.line_content == match_result.line_content,
        m.line_match == match_result.line_match,
        m.byte_offset == match_result.byte_offset,
        has_line(*fs, match_result.file_path@, match_result.line_number as int) ==> context_of(
            m.context_before@,
            m.context_after@,
            fs.holds()[match_result.file_path@],
            match_result.line_number as int,
            context_lines as int,
        ),
        !has_line(*fs, match_result.file_path@, match_result.line_number as int) ==> m
            == match_result,
{
    let found = extract_context(
        fs,
        match_result.file_path.as_str(),
        match_result.line_number,
        context_lines,
    );
    with_context(match_result, found)
}

} // verus!
