//! The apply engine: a set of chunks is held against a file's content, and
//! where nothing is wrong with the set, the new content is put together.
//!
//! Every check runs, whatever the checks before it found, and the caller
//! gets every failure at once. The new content is a walk over the lines of
//! the old one: what no chunk covers is copied byte for byte, and what a
//! chunk covers gives way to the chunk's content.

pub mod batch;

use vstd::prelude::*;
use vstd::utf8::*;
use crate::filesystem::errors::FilesystemError;
use crate::filesystem::FileSystem;
use crate::format::sorting::sorted_by_key;
use crate::apply::batch::{after_batch, all_pass, batch_done, batch_failures, chunks_for, file_done, grouped, is_named, lemma_batch_end, lemma_batch_step, lemma_group_present, paths_named};
use crate::format::grouping::{group_paths, group_views};
use crate::format::types::{Chunk, ChunkView, Format, lemma_lex_trichotomy, lemma_same_bytes, views};
use crate::text::{append_range, bytes_of, clean_cut, count_all_lines, count_lines, find_skip_lines, lemma_count_lines_bound, lemma_cut_valid, lemma_skip_lines, lemma_skip_lines_add, make_string, skip_lines, str_bytes};

verus! {

/// Why a set of chunks cannot be applied to a file.
#[derive(Debug)]
pub enum ApplyError {
    /// The chunks do not all name the same file.
    MixedPaths,
    /// Two chunks that follow each other cover a common line. The numbers
    /// are the first and last line of the one, then of the other.
    OverlappingChunks(usize, usize, usize, usize),
    /// A chunk reaches behind the last line of the file.
    ChunkOutOfBounds { line: usize, num_lines: usize, file_lines: usize },
    /// A chunk begins before line 1.
    InvalidLineNumber,
    /// A chunk covers no line.
    InvalidNumberOfLines,
    /// The chunks do not come with rising first lines.
    UnsortedChunks,
    /// The file could not be read or written.
    ModifyError { path: String, source: FilesystemError },
}

/// Every chunk names the file that the first one names.
pub open spec fn same_path(chunks: Seq<ChunkView>) -> bool {
    forall|i: int| 0 <= i < chunks.len() ==> (#[trigger] chunks[i]).path == chunks[0].path
}

/// Every chunk covers one line or more.
pub open spec fn lengths_positive(chunks: Seq<ChunkView>) -> bool {
    forall|i: int| 0 <= i < chunks.len() ==> (#[trigger] chunks[i]).num_lines > 0
}

/// Every chunk begins at line 1 or behind it.
pub open spec fn lines_valid(chunks: Seq<ChunkView>) -> bool {
    forall|i: int| 0 <= i < chunks.len() ==> (#[trigger] chunks[i]).start_line >= 1
}

/// Each chunk begins behind the first line of the chunk before it.
pub open spec fn strictly_rising(chunks: Seq<ChunkView>) -> bool {
    forall|i: int|
        0 <= i && i + 1 < chunks.len() ==> (#[trigger] chunks[i]).start_line < chunks[i
            + 1].start_line
}

/// The line ranges of `a` and `b` have a line in common.
pub open spec fn overlaps(a: ChunkView, b: ChunkView) -> bool {
    &&& a.num_lines > 0
    &&& b.num_lines > 0
    &&& a.start_line < b.start_line + b.num_lines
    &&& b.start_line < a.start_line + a.num_lines
}

/// The first index from `i` on at which a chunk overlaps the chunk behind it.
pub open spec fn first_overlap(chunks: Seq<ChunkView>, i: int) -> Option<int>
    decreases chunks.len() - i,
{
    if i < 0 || i + 1 >= chunks.len() {
        None
    } else if overlaps(chunks[i], chunks[i + 1]) {
        Some(i)
    } else {
        first_overlap(chunks, i + 1)
    }
}

/// The last line that a chunk covers, or the greatest number that `usize`
/// holds where that line lies behind it.
pub open spec fn last_line(c: ChunkView) -> usize {
    if c.start_line + c.num_lines - 1 > usize::MAX {
        usize::MAX
    } else if c.start_line + c.num_lines < 1 {
        0
    } else {
        (c.start_line + c.num_lines - 1) as usize
    }
}

/// The first index from `i` on of a chunk whose last line lies behind the
/// last of `file_lines` lines.
pub open spec fn first_outside(chunks: Seq<ChunkView>, i: int, file_lines: int) -> Option<int>
    decreases chunks.len() - i,
{
    if i < 0 || i >= chunks.len() {
        None
    } else if chunks[i].start_line + chunks[i].num_lines - 1 > file_lines {
        Some(i)
    } else {
        first_outside(chunks, i + 1, file_lines)
    }
}

/// What the check of paths finds.
pub open spec fn path_failure(chunks: Seq<ChunkView>) -> Option<ApplyError> {
    if same_path(chunks) {
        None
    } else {
        Some(ApplyError::MixedPaths)
    }
}

/// What the check of line counts finds.
pub open spec fn length_failure(chunks: Seq<ChunkView>) -> Option<ApplyError> {
    if lengths_positive(chunks) {
        None
    } else {
        Some(ApplyError::InvalidNumberOfLines)
    }
}

/// What the check of first lines finds.
pub open spec fn line_failure(chunks: Seq<ChunkView>) -> Option<ApplyError> {
    if lines_valid(chunks) {
        None
    } else {
        Some(ApplyError::InvalidLineNumber)
    }
}

/// What the check of the order finds.
pub open spec fn order_failure(chunks: Seq<ChunkView>) -> Option<ApplyError> {
    if strictly_rising(chunks) {
        None
    } else {
        Some(ApplyError::UnsortedChunks)
    }
}

/// What the check for overlaps finds: the first chunk that overlaps the
/// chunk behind it, with the lines of both.
pub open spec fn overlap_failure(chunks: Seq<ChunkView>) -> Option<ApplyError> {
    match first_overlap(chunks, 0) {
        None => None,
        Some(i) => Some(
            ApplyError::OverlappingChunks(
                chunks[i].start_line as usize,
                last_line(chunks[i]),
                chunks[i + 1].start_line as usize,
                last_line(chunks[i + 1]),
            ),
        ),
    }
}

/// What the check of bounds finds in a file of `file_lines` lines: the first
/// chunk that reaches behind the last line.
pub open spec fn bounds_failure(chunks: Seq<ChunkView>, file_lines: int) -> Option<ApplyError> {
    match first_outside(chunks, 0, file_lines) {
        None => None,
        Some(i) => Some(
            ApplyError::ChunkOutOfBounds {
                line: chunks[i].start_line as usize,
                num_lines: chunks[i].num_lines as usize,
                file_lines: file_lines as usize,
            },
        ),
    }
}

/// A finding as a list: empty where the check found nothing.
pub open spec fn listed(finding: Option<ApplyError>) -> Seq<ApplyError> {
    match finding {
        None => Seq::empty(),
        Some(e) => seq![e],
    }
}

/// Everything that is wrong with applying `chunks` to `content`: what each
/// of the six checks finds, in the order of the checks.
pub open spec fn apply_failures(chunks: Seq<ChunkView>, content: Seq<u8>) -> Seq<ApplyError> {
    listed(path_failure(chunks)) + listed(length_failure(chunks)) + listed(line_failure(chunks))
        + listed(order_failure(chunks)) + listed(overlap_failure(chunks)) + listed(
        bounds_failure(chunks, count_lines(content, 0) as int),
    )
}

/// The offset at which line `line` of `content` begins, lines counted from
/// 1; the end of `content` for a line behind the last.
pub open spec fn line_offset(content: Seq<u8>, line: int) -> int {
    if line < 1 {
        0
    } else {
        skip_lines(content, 0, (line - 1) as nat)
    }
}

/// The new content from offset `at` on, with the chunks from `i` on still to
/// be placed: what lies before the next chunk is kept, the lines that the
/// chunk covers give way to its content, and behind the last chunk the rest
/// is kept.
pub open spec fn rebuilt(content: Seq<u8>, chunks: Seq<ChunkView>, i: int, at: int) -> Seq<u8>
    decreases chunks.len() - i,
{
    if i < 0 || i >= chunks.len() {
        content.subrange(at, content.len() as int)
    } else {
        content.subrange(at, line_offset(content, chunks[i].start_line)) + chunks[i].content
            + rebuilt(
            content,
            chunks,
            i + 1,
            line_offset(content, chunks[i].start_line + chunks[i].num_lines),
        )
    }
}

/// The content that applying `chunks` to `content` gives.
pub open spec fn applied(content: Seq<u8>, chunks: Seq<ChunkView>) -> Seq<u8> {
    rebuilt(content, chunks, 0, 0)
}

/// Checks that all chunks name one file.
pub fn chunks_are_all_for_same_path(chunks: &[Chunk]) -> (r: Result<(), ApplyError>)
    ensures
        r is Ok <==> path_failure(views(chunks@)) is None,
        r matches Err(e) ==> path_failure(views(chunks@)) == Some(e),
{
    let mut i: usize = 0;
    while i < chunks.len()
        invariant
            i <= chunks@.len(),
            forall|j: int| 0 <= j < i ==> (#[trigger] views(chunks@)[j]).path == views(
                chunks@,
            )[0].path,
        decreases chunks@.len() - i,
    {
        proof {
            lemma_same_bytes(chunks@[i as int].path@, chunks@[0].path@);
        }
        if chunks[i].path != chunks[0].path {
            assert(views(chunks@)[i as int].path != views(chunks@)[0].path);
            return Err(ApplyError::MixedPaths);
        }
        i = i + 1;
    }
    Ok(())
}

/// Checks that every chunk covers one line or more.
pub fn chunks_are_have_non_zero_length(chunks: &[Chunk]) -> (r: Result<(), ApplyError>)
    ensures
        r is Ok <==> length_failure(views(chunks@)) is None,
        r matches Err(e) ==> length_failure(views(chunks@)) == Some(e),
{
    let mut i: usize = 0;
    while i < chunks.len()
        invariant
            i <= chunks@.len(),
            forall|j: int| 0 <= j < i ==> (#[trigger] views(chunks@)[j]).num_lines > 0,
        decreases chunks@.len() - i,
    {
        if chunks[i].num_lines == 0 {
            assert(views(chunks@)[i as int].num_lines == 0);
            return Err(ApplyError::InvalidNumberOfLines);
        }
        i = i + 1;
    }
    Ok(())
}

/// Checks that every chunk begins at line 1 or behind it.
pub fn chunks_have_valid_line_numbers(chunks: &[Chunk]) -> (r: Result<(), ApplyError>)
    ensures
        r is Ok <==> line_failure(views(chunks@)) is None,
        r matches Err(e) ==> line_failure(views(chunks@)) == Some(e),
{
    let mut i: usize = 0;
    while i < chunks.len()
        invariant
            i <= chunks@.len(),
            forall|j: int| 0 <= j < i ==> (#[trigger] views(chunks@)[j]).start_line >= 1,
        decreases chunks@.len() - i,
    {
        if chunks[i].start_line < 1 {
            assert(views(chunks@)[i as int].start_line < 1);
            return Err(ApplyError::InvalidLineNumber);
        }
        i = i + 1;
    }
    Ok(())
}

/// Checks that each chunk begins behind the first line of the chunk before
/// it; two chunks that begin at the same line are out of order.
pub fn chunks_are_sorted_by_line_number(chunks: &[Chunk]) -> (r: Result<(), ApplyError>)
    ensures
        r is Ok <==> order_failure(views(chunks@)) is None,
        r matches Err(e) ==> order_failure(views(chunks@)) == Some(e),
{
    let mut i: usize = 1;
    while i < chunks.len()
        invariant
            1 <= i,
            forall|j: int|
                0 <= j && j + 1 < i && j + 1 < chunks@.len() ==> (#[trigger] views(
                    chunks@,
                )[j]).start_line < views(chunks@)[j + 1].start_line,
        decreases chunks@.len() - i,
    {
        if chunks[i - 1].start_line >= chunks[i].start_line {
            assert(views(chunks@)[i - 1].start_line >= views(chunks@)[i - 1 + 1].start_line);
            return Err(ApplyError::UnsortedChunks);
        }
        i = i + 1;
    }
    Ok(())
}

/// The last line that a chunk covers.
fn last_line_of(chunk: &Chunk) -> (n: usize)
    ensures
        n == last_line(chunk@),
{
    let end: u128 = chunk.start_line as u128 + chunk.num_lines as u128;
    if end < 1 {
        0
    } else if end - 1 > usize::MAX as u128 {
        usize::MAX
    } else {
        (end - 1) as usize
    }
}

/// Checks that no chunk has a line in common with the chunk behind it.
pub fn chunks_are_not_overlapping(chunks: &[Chunk]) -> (r: Result<(), ApplyError>)
    ensures
        r is Ok <==> overlap_failure(views(chunks@)) is None,
        r matches Err(e) ==> overlap_failure(views(chunks@)) == Some(e),
{
    let mut i: usize = 1;
    while i < chunks.len()
        invariant
            1 <= i,
            first_overlap(views(chunks@), 0) == first_overlap(views(chunks@), i - 1),
        decreases chunks@.len() - i,
    {
        let a = &chunks[i - 1];
        let b = &chunks[i];
        let a_end: u128 = a.start_line as u128 + a.num_lines as u128;
        let b_end: u128 = b.start_line as u128 + b.num_lines as u128;
        proof {
            assert(views(chunks@)[i - 1] == a@);
            assert(views(chunks@)[i - 1 + 1] == b@);
        }
        if a.num_lines > 0 && b.num_lines > 0 && (a.start_line as u128) < b_end && (
        b.start_line as u128) < a_end {
            return Err(
                ApplyError::OverlappingChunks(
                    a.start_line,
                    last_line_of(a),
                    b.start_line,
                    last_line_of(b),
                ),
            );
        }
        i = i + 1;
    }
    Ok(())
}

/// Checks that no chunk reaches behind the last line of `content`.
pub fn chunks_are_within_file_bounds(chunks: &[Chunk], content: &str) -> (r: Result<
    (),
    ApplyError,
>)
    ensures
        r is Ok <==> bounds_failure(
            views(chunks@),
            count_lines(bytes_of(content@), 0) as int,
        ) is None,
        r matches Err(e) ==> bounds_failure(
            views(chunks@),
            count_lines(bytes_of(content@), 0) as int,
        ) == Some(e),
{
    let file_lines = count_all_lines(str_bytes(content));
    let mut i: usize = 0;
    while i < chunks.len()
        invariant
            i <= chunks@.len(),
            file_lines == count_lines(bytes_of(content@), 0),
            first_outside(views(chunks@), 0, file_lines as int) == first_outside(
                views(chunks@),
                i as int,
                file_lines as int,
            ),
        decreases chunks@.len() - i,
    {
        let c = &chunks[i];
        let end: u128 = c.start_line as u128 + c.num_lines as u128;
        proof {
            assert(views(chunks@)[i as int] == c@);
        }
        if end > file_lines as u128 + 1 {
            return Err(
                ApplyError::ChunkOutOfBounds {
                    line: c.start_line,
                    num_lines: c.num_lines,
                    file_lines,
                },
            );
        }
        i = i + 1;
    }
    Ok(())
}

/// Adds what a check found to the list of failures.
fn note(errors: &mut Vec<ApplyError>, result: Result<(), ApplyError>, Ghost(finding): Ghost<
    Option<ApplyError>,
>)
    requires
        result is Ok <==> finding is None,
        result matches Err(e) ==> finding == Some(e),
    ensures
        final(errors)@ == old(errors)@ + listed(finding),
{
    match result {
        Ok(()) => {
            assert(old(errors)@ + listed(finding) =~= old(errors)@);
        },
        Err(e) => {
            errors.push(e);
            assert(old(errors)@ + listed(finding) =~= old(errors)@.push(e));
        },
    }
}

/// No chunk begins before the line behind the chunk before it: what holds
/// of chunks that rise and do not overlap.
pub open spec fn in_sequence(chunks: Seq<ChunkView>) -> bool {
    forall|i: int|
        0 <= i && i + 1 < chunks.len() ==> (#[trigger] chunks[i]).start_line
            + chunks[i].num_lines <= chunks[i + 1].start_line
}

/// Chunks that rise and of which none overlaps the next follow each other.
proof fn lemma_in_sequence(chunks: Seq<ChunkView>, i: int)
    requires
        strictly_rising(chunks),
        lengths_positive(chunks),
        first_overlap(chunks, i) is None,
        0 <= i,
    ensures
        forall|j: int|
            i <= j && j + 1 < chunks.len() ==> (#[trigger] chunks[j]).start_line
                + chunks[j].num_lines <= chunks[j + 1].start_line,
    decreases chunks.len() - i,
{
    if i + 1 < chunks.len() {
        lemma_in_sequence(chunks, i + 1);
        assert(!overlaps(chunks[i], chunks[i + 1]));
        assert(chunks[i].start_line < chunks[i + 1].start_line);
        assert(chunks[i + 1].num_lines > 0);
    }
}

/// The offsets of lines rise with the lines, stay inside the content and
/// are clean cuts.
proof fn lemma_line_offset(content: Seq<u8>, a: int, b: int)
    requires
        1 <= a <= b,
    ensures
        0 <= line_offset(content, a) <= line_offset(content, b) <= content.len(),
        clean_cut(content, line_offset(content, a)),
        clean_cut(content, line_offset(content, b)),
        line_offset(content, b) == skip_lines(content, line_offset(content, a), (b - a) as nat),
{
    lemma_skip_lines(content, 0, (a - 1) as nat);
    lemma_skip_lines(content, 0, (b - 1) as nat);
    lemma_skip_lines_add(content, 0, (a - 1) as nat, (b - a) as nat);
    lemma_skip_lines(content, line_offset(content, a), (b - a) as nat);
}

/// Puts the new content together from `content` and chunks that passed
/// every check.
fn rebuild(chunks: &[Chunk], content: &[u8]) -> (out: Vec<u8>)
    requires
        lines_valid(views(chunks@)),
        in_sequence(views(chunks@)),
        forall|i: int|
            0 <= i < chunks@.len() ==> (#[trigger] views(chunks@)[i]).start_line + views(
                chunks@,
            )[i].num_lines <= usize::MAX + 1,
    ensures
        out@ == applied(content@, views(chunks@)),
        valid_utf8(content@) ==> valid_utf8(out@),
{
    let ghost cs = views(chunks@);
    let mut out: Vec<u8> = Vec::new();
    let mut at: usize = 0;
    let mut line: u128 = 1;
    let mut i: usize = 0;
    while i < chunks.len()
        invariant
            i <= chunks@.len(),
            cs == views(chunks@),
            lines_valid(cs),
            in_sequence(cs),
            forall|j: int|
                0 <= j < chunks@.len() ==> (#[trigger] cs[j]).start_line + cs[j].num_lines
                    <= usize::MAX + 1,
            1 <= line,
            i < chunks@.len() ==> line <= cs[i as int].start_line,
            at == line_offset(content@, line as int),
            at <= content@.len(),
            clean_cut(content@, at as int),
            out@ + rebuilt(content@, cs, i as int, at as int) == applied(content@, cs),
            valid_utf8(content@) ==> valid_utf8(out@),
        decreases chunks@.len() - i,
    {
        let c = &chunks[i];
        let ghost before = out@;
        proof {
            assert(cs[i as int] == c@);
            assert(cs[i as int].start_line >= 1);
            lemma_line_offset(content@, line as int, c.start_line as int);
            lemma_line_offset(
                content@,
                c.start_line as int,
                c.start_line as int + c.num_lines as int,
            );
        }
        let upto = find_skip_lines(content, at, (c.start_line as u128 - line) as usize);
        let behind = find_skip_lines(content, upto, c.num_lines);
        append_range(&mut out, content, at, upto);
        let text = str_bytes(c.content.as_str());
        append_range(&mut out, text, 0, text.len());
        proof {
            let kept = content@.subrange(at as int, upto as int);
            assert(text@.subrange(0, text@.len() as int) =~= text@);
            let rest = rebuilt(content@, cs, i + 1, behind as int);
            assert(rebuilt(content@, cs, i as int, at as int) == kept + text@ + rest);
            assert(out@ + rest =~= before + (kept + text@ + rest));
            if valid_utf8(content@) {
                lemma_cut_valid(content@, at as int, upto as int);
                valid_utf8_concat(before, kept);
                valid_utf8_concat(before + kept, text@);
            }
            if i + 1 < chunks@.len() {
                assert(cs[i as int].start_line + cs[i as int].num_lines <= cs[i
                    + 1].start_line);
            }
        }
        at = behind;
        line = c.start_line as u128 + c.num_lines as u128;
        i = i + 1;
    }
    let ghost before = out@;
    append_range(&mut out, content, at, content.len());
    proof {
        if valid_utf8(content@) {
            lemma_cut_valid(content@, at as int, content@.len() as int);
            valid_utf8_concat(before, content@.subrange(at as int, content@.len() as int));
        }
    }
    out
}

/// Runs every check and lists what each one found.
fn collect_failures(chunks: &[Chunk], content: &str) -> (errors: Vec<ApplyError>)
    ensures
        errors@ == apply_failures(views(chunks@), bytes_of(content@)),
{
    let ghost cs = views(chunks@);
    let ghost file_lines = count_lines(bytes_of(content@), 0) as int;
    let mut errors: Vec<ApplyError> = Vec::new();
    assert(errors@ + listed(path_failure(cs)) =~= listed(path_failure(cs)));
    note(&mut errors, chunks_are_all_for_same_path(chunks), Ghost(path_failure(cs)));
    note(&mut errors, chunks_are_have_non_zero_length(chunks), Ghost(length_failure(cs)));
    note(&mut errors, chunks_have_valid_line_numbers(chunks), Ghost(line_failure(cs)));
    note(&mut errors, chunks_are_sorted_by_line_number(chunks), Ghost(order_failure(cs)));
    note(&mut errors, chunks_are_not_overlapping(chunks), Ghost(overlap_failure(cs)));
    note(
        &mut errors,
        chunks_are_within_file_bounds(chunks, content),
        Ghost(bounds_failure(cs, file_lines)),
    );
    errors
}

/// Chunks with which no check finds fault begin at line 1 or behind it,
/// follow each other, and end inside the file.
proof fn lemma_checked_chunks(chunks: Seq<ChunkView>, content: Seq<u8>)
    requires
        apply_failures(chunks, content).len() == 0,
        content.len() <= usize::MAX,
    ensures
        lines_valid(chunks),
        in_sequence(chunks),
        forall|i: int|
            0 <= i < chunks.len() ==> (#[trigger] chunks[i]).start_line + chunks[i].num_lines
                <= usize::MAX + 1,
{
    let file_lines = count_lines(content, 0) as int;
    assert(listed(path_failure(chunks)).len() == 0);
    assert(listed(length_failure(chunks)).len() == 0);
    assert(listed(line_failure(chunks)).len() == 0);
    assert(listed(order_failure(chunks)).len() == 0);
    assert(listed(overlap_failure(chunks)).len() == 0);
    assert(listed(bounds_failure(chunks, file_lines)).len() == 0);
    lemma_in_sequence(chunks, 0);
    lemma_count_lines_bound(content, 0);
    assert forall|i: int| 0 <= i < chunks.len() implies (#[trigger] chunks[i]).start_line
        + chunks[i].num_lines <= usize::MAX + 1 by {
        lemma_inside(chunks, 0, file_lines, i);
    }
}

/// Applies `chunks` to `content`. Where one check or more fails, every
/// failure is returned, in the order of the checks, and nothing is built.
/// Where none fails, the result is `content` with the lines that each chunk
/// covers replaced by the chunk's content, and every other byte kept. With
/// no chunk at all, that is `content` itself.
pub fn apply_format(chunks: &[Chunk], content: &str) -> (r: Result<String, Vec<ApplyError>>)
    ensures
        r is Ok <==> apply_failures(views(chunks@), bytes_of(content@)).len() == 0,
        r matches Ok(text) ==> bytes_of(text@) == applied(bytes_of(content@), views(chunks@)),
        r matches Err(errors) ==> errors@ == apply_failures(
            views(chunks@),
            bytes_of(content@),
        ),
        chunks@.len() == 0 ==> r is Ok && r->Ok_0@ == content@,
{
    let errors = collect_failures(chunks, content);
    proof {
        if chunks@.len() == 0 {
            lemma_no_chunks(bytes_of(content@));
        }
    }
    if errors.len() > 0 {
        return Err(errors);
    }
    let bytes = str_bytes(content);
    let total: usize = bytes.len();
    proof {
        lemma_checked_chunks(views(chunks@), bytes@);
    }
    let text = make_string(rebuild(chunks, bytes));
    proof {
        if chunks@.len() == 0 {
            lemma_same_bytes(text@, content@);
        }
    }
    Ok(text)
}

/// The failure to read or write the file `path`.
pub open spec fn is_modify_error(e: ApplyError, path: Seq<char>, source: FilesystemError) -> bool {
    e matches ApplyError::ModifyError { path: p, source: s } && p@ == path && s == source
}

/// What applying `chunks` to the file `path` gives, given what reading the
/// file gave: the failure to read, or what `apply_format` makes of the
/// content that was read.
pub fn apply_to_read(path: &str, chunks: &[Chunk], read: Result<String, FilesystemError>) -> (r:
    Result<String, Vec<ApplyError>>)
    ensures
        match read {
            Err(source) => r matches Err(errors) && errors@.len() == 1 && is_modify_error(
                errors@[0],
                path@,
                source,
            ),
            Ok(content) => {
                &&& r is Ok <==> apply_failures(views(chunks@), bytes_of(content@)).len() == 0
                &&& r matches Ok(text) ==> bytes_of(text@) == applied(
                    bytes_of(content@),
                    views(chunks@),
                )
                &&& r matches Err(errors) ==> errors@ == apply_failures(
                    views(chunks@),
                    bytes_of(content@),
                )
            },
        },
{
    match read {
        Err(source) => {
            let mut errors: Vec<ApplyError> = Vec::new();
            errors.push(ApplyError::ModifyError { path: path.to_owned(), source });
            Err(errors)
        },
        Ok(content) => apply_format(chunks, content.as_str()),
    }
}

/// Adds to `errors` what writing the file `path` gave, where it failed.
pub fn note_written(
    path: &str,
    written: Result<(), FilesystemError>,
    errors: &mut Vec<ApplyError>,
)
    ensures
        written is Ok ==> final(errors)@ == old(errors)@,
        written matches Err(source) ==> final(errors)@.len() == old(errors)@.len() + 1
            && final(errors)@.subrange(0, old(errors)@.len() as int) == old(errors)@
            && is_modify_error(final(errors)@.last(), path@, source),
{
    match written {
        Ok(()) => {},
        Err(source) => {
            errors.push(ApplyError::ModifyError { path: path.to_owned(), source });
            assert(errors@.subrange(0, old(errors)@.len() as int) =~= old(errors)@);
        },
    }
}

/// Applies a document to the files it names. The document is sorted; then
/// each file that it names is read, its chunks are applied, and the new
/// content is written back. A file that cannot be read or written, or
/// whose chunks fail a check, adds its failures to the result and is left
/// as it is; the files behind it are still tried.
///
/// Afterwards every file that the document names and that passed holds its
/// content with the chunks applied, and every other file holds what it
/// held. The result is `Ok` exactly when every file passed, and with it
/// for a document without chunks; otherwise it lists the failures file by
/// file, in the order of the paths.
pub fn apply_format_to_fs<FS: FileSystem>(format: &mut Format, fs: &mut FS) -> (r: Result<
    (),
    Vec<ApplyError>,
>)
    ensures
        final(format)@ == sorted_by_key(old(format)@),
        final(fs).holds() == after_batch(*old(fs), final(format)@),
        r is Ok <==> all_pass(*old(fs), final(format)@, paths_named(final(format)@)),
        r matches Err(errors) ==> errors@.len() > 0 && batch_failures(
            *old(fs),
            final(format)@,
            paths_named(final(format)@),
            errors@,
        ),
        old(format)@.len() == 0 ==> r is Ok,
        forall|p: Seq<char>|
            !is_named(final(format)@, p) ==> (#[trigger] final(fs).readable(p)) == old(
                fs,
            ).readable(p) && final(fs).writable(p) == old(fs).writable(p),
{
    let ghost before = *fs;
    let mut errors: Vec<ApplyError> = Vec::new();
    let groups = format.file_chunks();
    let ghost parts = group_views(groups@);
    let ghost paths = group_paths(groups@);
    let ghost doc = parts.flatten();
    proof {
        assert forall|a: int, b: int| 0 <= a < b < paths.len() implies (#[trigger] paths[a]) != (
        #[trigger] paths[b]) by {
            lemma_lex_trichotomy(bytes_of(groups@[a].0@), bytes_of(groups@[b].0@));
        }
        assert forall|k: int, j: int| 0 <= k < parts.len() && 0 <= j < parts[k].len() implies (
        #[trigger] parts[k][j]).path == bytes_of(paths[k]) by {
            assert(groups@[k].1@[j].path@ == groups@[k].0@);
        }
        assert forall|k: int| 0 <= k < parts.len() implies (#[trigger] parts[k]).len() > 0 by {
            assert(groups@[k].1@.len() > 0);
        }
        assert(grouped(parts, paths));
        assert(paths.subrange(0, 0) =~= Seq::<Seq<char>>::empty());
        assert(batch_done(before, *fs, doc, paths, 0, errors@));
        if old(format)@.len() == 0 {
            assert(doc.len() == 0);
            if parts.len() > 0 {
                assert(parts.subrange(0, 1) =~= seq![parts[0]]);
                lemma_group_present(parts, paths, parts.len() as int, 0);
                assert(parts.subrange(0, parts.len() as int) =~= parts);
            }
        }
    }
    let mut i: usize = 0;
    while i < groups.len()
        invariant
            i <= groups@.len(),
            parts == group_views(groups@),
            paths == group_paths(groups@),
            doc == parts.flatten(),
            grouped(parts, paths),
            batch_done(before, *fs, doc, paths, i as int, errors@),
        decreases groups@.len() - i,
    {
        let path: &str = groups[i].0;
        let chunks: &[Chunk] = groups[i].1;
        let ghost prev = *fs;
        let ghost held = errors@;
        let ghost added: Seq<ApplyError>;
        proof {
            assert(parts.subrange(0, parts.len() as int) =~= parts);
            lemma_group_present(parts, paths, parts.len() as int, i as int);
            assert(chunks_for(doc, path@) == views(chunks@));
        }
        let read = fs.read_to_string(path);
        let ghost got = read;
        match apply_to_read(path, chunks, read) {
            Ok(text) => {
                let written = fs.write_string(path, text.as_str());
                note_written(path, written, &mut errors);
                proof {
                    added = errors@.subrange(held.len() as int, errors@.len() as int);
                    assert(errors@ =~= held + added);
                }
            },
            Err(mut failures) => {
                proof {
                    added = failures@;
                }
                errors.append(&mut failures);
            },
        }
        proof {
            assert(file_done(prev, *fs, path@, views(chunks@), added));
            lemma_batch_step(before, prev, *fs, doc, paths, i as int, held, added);
        }
        i = i + 1;
    }
    proof {
        lemma_batch_end(before, *fs, parts, paths, errors@);
    }
    if errors.len() == 0 {
        Ok(())
    } else {
        Err(errors)
    }
}

/// With no chunk, no check fails, and the content stays as it is.
pub proof fn lemma_no_chunks(content: Seq<u8>)
    ensures
        apply_failures(Seq::<ChunkView>::empty(), content).len() == 0,
        applied(content, Seq::<ChunkView>::empty()) == content,
{
    let none = Seq::<ChunkView>::empty();
    assert(same_path(none));
    assert(lengths_positive(none));
    assert(lines_valid(none));
    assert(strictly_rising(none));
    assert(first_overlap(none, 0) is None);
    assert(first_outside(none, 0, count_lines(content, 0) as int) is None);
    assert(content.subrange(0, content.len() as int) =~= content);
}

/// Where no chunk from `from` on reaches outside, chunk `i` does not.
proof fn lemma_inside(chunks: Seq<ChunkView>, from: int, file_lines: int, i: int)
    requires
        first_outside(chunks, from, file_lines) is None,
        0 <= from <= i < chunks.len(),
    ensures
        chunks[i].start_line + chunks[i].num_lines - 1 <= file_lines,
    decreases i - from,
{
    if from < i {
        lemma_inside(chunks, from + 1, file_lines, i);
    }
}

} // verus!
