//! The parser of chunk documents, with the byte span of every failure.
//!
//! ```text
//! @<path>:<start_line>:<num_lines>
//! <content, escaped>
//! @@@
//! ```
//!
//! Outside a chunk, a line that does not begin with `@` is a comment. A
//! document is read as a whole or not at all.

use vstd::prelude::*;
use vstd::utf8::*;
use crate::format::escaping::{unescape_bytes, unescaped};
use crate::format::types::{Chunk, ChunkView, Format, views};
use crate::text::{bytes_of, clean_cut, find_line_end, find_next_line, lemma_cut_valid, lemma_line_end, line_end, make_string, next_line, number_in, parse_number, str_bytes, string_between};

verus! {

/// A range of bytes of the source text.
#[derive(Debug, Clone, Copy, PartialEq, Eq, Structural)]
pub struct Span {
    pub offset: usize,
    pub len: usize,
}

/// Why a document cannot be read, and where.
#[derive(Debug, Clone, Copy, PartialEq, Eq, Structural)]
pub enum ParseFailure {
    /// A header line lacks a field or has an empty path; the span is the
    /// line, without its line feed.
    InvalidDelimiter { span: Span },
    /// The first-line field is no positive number; the span is the field.
    InvalidLineNumber { span: Span },
    /// The line-count field is no positive number; the span is the field.
    InvalidNumLines { span: Span },
    /// The text ends inside a chunk; the spans are the chunk's header line,
    /// with its line feed, and the last byte of the text.
    MissingEndDelimiter { start_span: Span, eof_span: Span },
    /// The document holds no chunk.
    NoChunks,
}

/// Why a document cannot be read, with the document itself and, for a field
/// that is no number, the text of the field.
#[derive(Debug)]
pub enum FormatError {
    InvalidDelimiter { src: String, span: Span },
    InvalidLineNumber { value: String, src: String, span: Span },
    InvalidNumLines { value: String, src: String, span: Span },
    MissingEndDelimiter { src: String, start_span: Span, eof_span: Span },
    NoChunks { src: String },
}

impl FormatError {
    /// The failure, without the texts.
    pub open spec fn failure(&self) -> ParseFailure {
        match self {
            FormatError::InvalidDelimiter { span, .. } => ParseFailure::InvalidDelimiter {
                span: *span,
            },
            FormatError::InvalidLineNumber { span, .. } => ParseFailure::InvalidLineNumber {
                span: *span,
            },
            FormatError::InvalidNumLines { span, .. } => ParseFailure::InvalidNumLines {
                span: *span,
            },
            FormatError::MissingEndDelimiter {
                start_span,
                eof_span,
                ..
            } => ParseFailure::MissingEndDelimiter { start_span: *start_span, eof_span: *eof_span },
            FormatError::NoChunks { .. } => ParseFailure::NoChunks,
        }
    }

    /// The document that could not be read.
    pub open spec fn source(&self) -> Seq<char> {
        match self {
            FormatError::InvalidDelimiter { src, .. } => src@,
            FormatError::InvalidLineNumber { src, .. } => src@,
            FormatError::InvalidNumLines { src, .. } => src@,
            FormatError::MissingEndDelimiter { src, .. } => src@,
            FormatError::NoChunks { src } => src@,
        }
    }

    /// The bytes of the field that is no number, for the two failures that
    /// name one; no bytes for the others.
    pub open spec fn value_bytes(&self) -> Seq<u8> {
        match self {
            FormatError::InvalidLineNumber { value, .. } => bytes_of(value@),
            FormatError::InvalidNumLines { value, .. } => bytes_of(value@),
            _ => Seq::empty(),
        }
    }

    /// The span at which the failure lies: the offending line or field, the
    /// header of the chunk that does not end, or the whole document.
    pub fn span(&self) -> (s: Span)
        ensures
            s == primary_span(self.failure(), bytes_of(self.source())),
    {
        match self {
            FormatError::InvalidDelimiter { span, .. } => *span,
            FormatError::InvalidLineNumber { span, .. } => *span,
            FormatError::InvalidNumLines { span, .. } => *span,
            FormatError::MissingEndDelimiter { start_span, .. } => *start_span,
            FormatError::NoChunks { src } => Span { offset: 0, len: src.as_str().len() },
        }
    }
}

/// The span to which a failure points in a document of the given bytes.
pub open spec fn primary_span(f: ParseFailure, src: Seq<u8>) -> Span {
    match f {
        ParseFailure::InvalidDelimiter { span } => span,
        ParseFailure::InvalidLineNumber { span } => span,
        ParseFailure::InvalidNumLines { span } => span,
        ParseFailure::MissingEndDelimiter { start_span, .. } => start_span,
        ParseFailure::NoChunks => Span { offset: 0, len: src.len() as usize },
    }
}

/// The span of `len` bytes at `offset`.
pub open spec fn span_of(offset: int, len: int) -> Span {
    Span { offset: offset as usize, len: len as usize }
}

/// The offset of the first `:` or line feed at or behind `pos`, or the
/// length of `s` where none is left.
pub open spec fn field_end(s: Seq<u8>, pos: int) -> int
    decreases s.len() - pos,
{
    if pos < 0 || pos >= s.len() {
        s.len() as int
    } else if s[pos] == 0x3a || s[pos] == 0x0a {
        pos
    } else {
        field_end(s, pos + 1)
    }
}

/// A space, a tab or a carriage return.
pub open spec fn is_blank(b: u8) -> bool {
    b == 0x20 || b == 0x09 || b == 0x0d
}

/// The end of `s[from..to]` without the blanks at its end.
pub open spec fn trimmed_end(s: Seq<u8>, from: int, to: int) -> int
    decreases to - from,
{
    if from < to && to <= s.len() && is_blank(s[to - 1]) {
        trimmed_end(s, from, to - 1)
    } else {
        to
    }
}

/// What a number field must hold: a number, as `number_in` reads it, that is
/// not zero.
pub open spec fn positive_in(field: Seq<u8>) -> Option<usize> {
    match number_in(field) {
        Some(n) => if n > 0 {
            Some(n)
        } else {
            None
        },
        None => None,
    }
}

/// The header that begins at `pos`, where `s` has an `@`: the path up to the
/// first `:`, the first line up to the next `:`, and the line count up to
/// the blanks that end the line. Failures come in this order: a path or a
/// first-line field that is empty or not ended by `:`; a first line that is
/// no positive number; a line-count field that is empty; a line count that
/// is no positive number.
pub open spec fn header_at(s: Seq<u8>, pos: int) -> Result<(Seq<u8>, usize, usize), ParseFailure> {
    let eol = line_end(s, pos);
    let bad = Err::<(Seq<u8>, usize, usize), ParseFailure>(
        ParseFailure::InvalidDelimiter { span: span_of(pos, eol - pos) },
    );
    let path_from = pos + 1;
    let path_to = field_end(s, path_from);
    let line_from = path_to + 1;
    let line_to = field_end(s, line_from);
    let count_from = line_to + 1;
    let count_to = trimmed_end(s, count_from, eol);
    if path_to == path_from || path_to >= eol {
        bad
    } else if line_to == line_from || line_to >= eol {
        bad
    } else {
        match positive_in(s.subrange(line_from, line_to)) {
            None => Err(ParseFailure::InvalidLineNumber { span: span_of(line_from, line_to - line_from) }),
            Some(start_line) => if count_to == count_from {
                bad
            } else {
                match positive_in(s.subrange(count_from, count_to)) {
                    None => Err(ParseFailure::InvalidNumLines { span: span_of(count_from, count_to - count_from) }),
                    Some(num_lines) => Ok((s.subrange(path_from, path_to), start_line, num_lines)),
                }
            },
        }
    }
}

/// A terminator begins at `pos`: the three bytes `@@@`.
pub open spec fn at_terminator(s: Seq<u8>, pos: int) -> bool {
    0 <= pos && pos + 3 <= s.len() && s[pos] == 0x40 && s[pos + 1] == 0x40 && s[pos + 2] == 0x40
}

/// The offset of the first line, from the line at `pos` on, that begins with
/// a terminator; nothing where the text ends before one.
pub open spec fn content_end(s: Seq<u8>, pos: int) -> Option<int>
    decreases s.len() - pos,
    via content_end_decreases
{
    if at_terminator(s, pos) {
        Some(pos)
    } else if pos < 0 || pos >= s.len() {
        None
    } else {
        content_end(s, next_line(s, pos))
    }
}

#[via_fn]
proof fn content_end_decreases(s: Seq<u8>, pos: int) {
    if 0 <= pos < s.len() {
        lemma_line_end(s, pos);
    }
}

/// The chunk whose header begins at `pos`, and the offset behind the line of
/// its terminator. The content is what stands between the header line and
/// the terminator line, unescaped.
pub open spec fn chunk_at(s: Seq<u8>, pos: int) -> Result<(ChunkView, int), ParseFailure> {
    match header_at(s, pos) {
        Err(f) => Err(f),
        Ok((path, start_line, num_lines)) => {
            let body = next_line(s, pos);
            match content_end(s, body) {
                None => Err(
                    ParseFailure::MissingEndDelimiter {
                        start_span: span_of(pos, body - pos),
                        eof_span: span_of(s.len() - 1, 1),
                    },
                ),
                Some(end) => Ok(
                    (
                        ChunkView {
                            path,
                            start_line: start_line as int,
                            num_lines: num_lines as int,
                            content: unescaped(s.subrange(body, end)),
                        },
                        next_line(s, end),
                    ),
                ),
            }
        },
    }
}

/// The offset of the first line, from the line at `pos` on, that begins with
/// `@` or has no line feed: the lines before it are comments.
pub open spec fn skip_comments(s: Seq<u8>, pos: int) -> int
    decreases s.len() - pos,
    via skip_comments_decreases
{
    if 0 <= pos < s.len() && s[pos] != 0x40 && line_end(s, pos) < s.len() {
        skip_comments(s, line_end(s, pos) + 1)
    } else {
        pos
    }
}

#[via_fn]
proof fn skip_comments_decreases(s: Seq<u8>, pos: int) {
    if 0 <= pos < s.len() {
        lemma_line_end(s, pos);
    }
}

/// Where reading comments ends: not before `pos`, and inside the text.
pub proof fn lemma_skip_comments(s: Seq<u8>, pos: int)
    requires
        0 <= pos <= s.len(),
    ensures
        pos <= skip_comments(s, pos) <= s.len(),
    decreases s.len() - pos,
{
    if pos < s.len() && s[pos] != 0x40 && line_end(s, pos) < s.len() {
        lemma_line_end(s, pos);
        lemma_skip_comments(s, line_end(s, pos) + 1);
    }
}

/// Where the content of a chunk ends: not before `pos`, inside the text, at
/// a terminator.
pub proof fn lemma_content_end(s: Seq<u8>, pos: int)
    requires
        0 <= pos <= s.len(),
    ensures
        content_end(s, pos) matches Some(end) ==> pos <= end && end + 3 <= s.len() && at_terminator(
            s,
            end,
        ),
    decreases s.len() - pos,
{
    if !at_terminator(s, pos) && pos < s.len() {
        lemma_line_end(s, pos);
        lemma_content_end(s, next_line(s, pos));
    }
}

/// A chunk that can be read ends behind its first byte, inside the text.
pub proof fn lemma_chunk_at(s: Seq<u8>, pos: int)
    requires
        0 <= pos < s.len(),
    ensures
        chunk_at(s, pos) matches Ok((c, next)) ==> pos < next <= s.len(),
{
    lemma_line_end(s, pos);
    let body = next_line(s, pos);
    lemma_content_end(s, body);
    if let Some(end) = content_end(s, body) {
        lemma_line_end(s, end);
    }
}

/// The chunks from the line at `pos` on: comments are passed over, and each
/// line that begins with `@` must begin a chunk. Reading ends at the end of
/// the text, or at a last line that is a comment without a line feed.
pub open spec fn chunks_from(s: Seq<u8>, pos: int) -> Result<Seq<ChunkView>, ParseFailure>
    decreases s.len() - pos,
    via chunks_from_decreases
{
    let p = skip_comments(s, pos);
    if pos < 0 || pos > s.len() || p >= s.len() || s[p] != 0x40 {
        Ok(Seq::empty())
    } else {
        match chunk_at(s, p) {
            Err(f) => Err(f),
            Ok((chunk, next)) => match chunks_from(s, next) {
                Err(f) => Err(f),
                Ok(rest) => Ok(seq![chunk] + rest),
            },
        }
    }
}

#[via_fn]
proof fn chunks_from_decreases(s: Seq<u8>, pos: int) {
    if 0 <= pos <= s.len() {
        lemma_skip_comments(s, pos);
        let p = skip_comments(s, pos);
        if p < s.len() {
            lemma_chunk_at(s, p);
        }
    }
}

/// What a document says: its chunks, in their order, where it holds one or
/// more and each can be read; the first failure otherwise.
pub open spec fn parsed(s: Seq<u8>) -> Result<Seq<ChunkView>, ParseFailure> {
    match chunks_from(s, 0) {
        Err(f) => Err(f),
        Ok(chunks) => if chunks.len() == 0 {
            Err(ParseFailure::NoChunks)
        } else {
            Ok(chunks)
        },
    }
}

/// The chunks read so far, before what the rest of the text gives.
pub open spec fn after(
    read: Seq<ChunkView>,
    rest: Result<Seq<ChunkView>, ParseFailure>,
) -> Result<Seq<ChunkView>, ParseFailure> {
    match rest {
        Err(f) => Err(f),
        Ok(more) => Ok(read + more),
    }
}

/// The offset of the first `:` or line feed at or behind `pos`.
fn find_field_end(s: &[u8], pos: usize) -> (end: usize)
    requires
        pos <= s@.len(),
    ensures
        end == field_end(s@, pos as int),
        pos <= end <= s@.len(),
        end <= line_end(s@, pos as int),
        end < s@.len() ==> s@[end as int] == 0x3a || s@[end as int] == 0x0a,
        end < line_end(s@, pos as int) ==> s@[end as int] == 0x3a,
{
    let mut i: usize = pos;
    while i < s.len() && s[i] != 0x3a && s[i] != 0x0a
        invariant
            pos <= i <= s@.len(),
            field_end(s@, pos as int) == field_end(s@, i as int),
            line_end(s@, pos as int) == line_end(s@, i as int),
        decreases s@.len() - i,
    {
        i = i + 1;
    }
    proof {
        lemma_line_end(s@, i as int);
    }
    i
}

/// The end of `s[from..to]` without the blanks at its end.
fn find_trimmed_end(s: &[u8], from: usize, to: usize) -> (end: usize)
    requires
        from <= to <= s@.len(),
    ensures
        end == trimmed_end(s@, from as int, to as int),
        from <= end <= to,
        end < to ==> is_blank(s@[end as int]),
{
    let mut i: usize = to;
    while from < i && (s[i - 1] == 0x20 || s[i - 1] == 0x09 || s[i - 1] == 0x0d)
        invariant
            from <= i <= to <= s@.len(),
            trimmed_end(s@, from as int, to as int) == trimmed_end(s@, from as int, i as int),
            i < to ==> is_blank(s@[i as int]),
        decreases i,
    {
        i = i - 1;
    }
    i
}

/// Reads a number field that must hold a positive number.
fn parse_positive(field: &[u8]) -> (r: Option<usize>)
    ensures
        r == positive_in(field@),
{
    match parse_number(field) {
        Some(n) => if n > 0 {
            Some(n)
        } else {
            None
        },
        None => None,
    }
}

/// A header as the parser holds it: where the path lies, and the two numbers.
struct Header {
    path_from: usize,
    path_to: usize,
    start_line: usize,
    num_lines: usize,
}

/// The spans of a failure lie inside the text, between clean cuts.
pub open spec fn spans_inside(s: Seq<u8>, f: ParseFailure) -> bool {
    match f {
        ParseFailure::InvalidLineNumber { span } => span.offset + span.len <= s.len() && clean_cut(
            s,
            span.offset as int,
        ) && clean_cut(s, span.offset + span.len),
        ParseFailure::InvalidNumLines { span } => span.offset + span.len <= s.len() && clean_cut(
            s,
            span.offset as int,
        ) && clean_cut(s, span.offset + span.len),
        _ => true,
    }
}

/// Reads the header that begins at `pos`.
fn read_header(s: &[u8], pos: usize) -> (r: Result<Header, ParseFailure>)
    requires
        pos < s@.len(),
        s@[pos as int] == 0x40,
    ensures
        match r {
            Ok(h) => header_at(s@, pos as int) == Ok::<(Seq<u8>, usize, usize), ParseFailure>(
                (s@.subrange(h.path_from as int, h.path_to as int), h.start_line, h.num_lines),
            ) && h.path_from <= h.path_to <= s@.len() && clean_cut(s@, h.path_from as int)
                && clean_cut(s@, h.path_to as int),
            Err(f) => header_at(s@, pos as int) == Err::<(Seq<u8>, usize, usize), ParseFailure>(f)
                && spans_inside(s@, f),
        },
{
    let eol = find_line_end(s, pos);
    proof {
        lemma_line_end(s@, pos as int);
        assert(line_end(s@, pos as int) == line_end(s@, pos + 1));
    }
    let bad = ParseFailure::InvalidDelimiter { span: Span { offset: pos, len: eol - pos } };
    let path_from: usize = pos + 1;
    let path_to = find_field_end(s, path_from);
    if path_to == path_from || path_to >= eol {
        return Err(bad);
    }
    let line_from: usize = path_to + 1;
    proof {
        assert(line_end(s@, path_from as int) == line_end(s@, line_from as int)) by {
            lemma_line_end_from(s@, path_from as int, line_from as int);
        }
    }
    let line_to = find_field_end(s, line_from);
    if line_to == line_from || line_to >= eol {
        return Err(bad);
    }
    let start_line = match parse_positive(vstd::slice::slice_subrange(s, line_from, line_to)) {
        Some(n) => n,
        None => {
            return Err(
                ParseFailure::InvalidLineNumber { span: Span { offset: line_from, len: line_to - line_from } },
            );
        },
    };
    let count_from: usize = line_to + 1;
    let count_to = find_trimmed_end(s, count_from, eol);
    if count_to == count_from {
        return Err(bad);
    }
    let num_lines = match parse_positive(vstd::slice::slice_subrange(s, count_from, count_to)) {
        Some(n) => n,
        None => {
            return Err(ParseFailure::InvalidNumLines { span: Span { offset: count_from, len: count_to - count_from } });
        },
    };
    Ok(Header { path_from: path_from, path_to: path_to, start_line, num_lines })
}

/// The line feed that ends the line at `a` also ends it at every offset of
/// the line behind `a`.
pub proof fn lemma_line_end_from(s: Seq<u8>, a: int, b: int)
    requires
        0 <= a <= b <= line_end(s, a),
        a <= s.len(),
    ensures
        line_end(s, b) == line_end(s, a),
    decreases b - a,
{
    lemma_line_end(s, a);
    if a < b {
        assert(s[a] != 0x0a);
        lemma_line_end(s, a + 1);
        lemma_line_end_from(s, a + 1, b);
    }
}

/// The offset of the first line, from the line at `pos` on, that begins with
/// a terminator.
fn find_content_end(s: &[u8], pos: usize) -> (r: Option<usize>)
    requires
        pos <= s@.len(),
        clean_cut(s@, pos as int),
    ensures
        match r {
            Some(end) => content_end(s@, pos as int) == Some(end as int) && pos <= end && end + 3
                <= s@.len() && clean_cut(s@, end as int),
            None => content_end(s@, pos as int) is None,
        },
{
    let mut at: usize = pos;
    loop
        invariant
            pos <= at <= s@.len(),
            content_end(s@, pos as int) == content_end(s@, at as int),
        decreases s@.len() - at,
    {
        if s.len() - at >= 3 && s[at] == 0x40 && s[at + 1] == 0x40 && s[at + 2] == 0x40 {
            return Some(at);
        }
        if at >= s.len() {
            return None;
        }
        at = find_next_line(s, at);
    }
}

/// The offset of the first line, from the line at `pos` on, that is no
/// comment.
fn find_comments_end(s: &[u8], pos: usize) -> (p: usize)
    requires
        pos <= s@.len(),
    ensures
        p == skip_comments(s@, pos as int),
        pos <= p <= s@.len(),
{
    let mut at: usize = pos;
    loop
        invariant
            pos <= at <= s@.len(),
            skip_comments(s@, pos as int) == skip_comments(s@, at as int),
        decreases s@.len() - at,
    {
        if at >= s.len() || s[at] == 0x40 {
            return at;
        }
        let end = find_line_end(s, at);
        if end >= s.len() {
            return at;
        }
        proof {
            lemma_line_end(s@, at as int);
        }
        at = end + 1;
    }
}

/// Reads the chunk whose header begins at `pos`.
fn read_chunk(s: &[u8], pos: usize) -> (r: Result<(Chunk, usize), ParseFailure>)
    requires
        valid_utf8(s@),
        pos < s@.len(),
        s@[pos as int] == 0x40,
    ensures
        match r {
            Ok((chunk, next)) => chunk_at(s@, pos as int) == Ok::<(ChunkView, int), ParseFailure>(
                (chunk@, next as int),
            ) && pos < next <= s@.len(),
            Err(f) => chunk_at(s@, pos as int) == Err::<(ChunkView, int), ParseFailure>(f)
                && spans_inside(s@, f),
        },
{
    let header = match read_header(s, pos) {
        Ok(h) => h,
        Err(f) => {
            return Err(f);
        },
    };
    let body = find_next_line(s, pos);
    proof {
        lemma_line_end(s@, pos as int);
    }
    let end = match find_content_end(s, body) {
        Some(end) => end,
        None => {
            return Err(
                ParseFailure::MissingEndDelimiter {
                    start_span: Span { offset: pos, len: body - pos },
                    eof_span: Span { offset: s.len() - 1, len: 1 },
                },
            );
        },
    };
    let next = find_next_line(s, end);
    let path = string_between(s, header.path_from, header.path_to);
    proof {
        lemma_cut_valid(s@, body as int, end as int);
    }
    let content = make_string(unescape_bytes(vstd::slice::slice_subrange(s, body, end)));
    Ok(
        (
            Chunk {
                path,
                start_line: header.start_line,
                num_lines: header.num_lines,
                content,
            },
            next,
        ),
    )
}

/// The error that tells of the failure `f` in the document `src`.
fn describe(src: &str, f: ParseFailure) -> (e: FormatError)
    requires
        spans_inside(bytes_of(src@), f),
    ensures
        e.failure() == f,
        e.source() == src@,
        tells_field(e, bytes_of(src@)),
{
    let s = str_bytes(src);
    let total: usize = s.len();
    match f {
        ParseFailure::InvalidDelimiter { span } => FormatError::InvalidDelimiter {
            src: src.to_owned(),
            span,
        },
        ParseFailure::InvalidLineNumber { span } => FormatError::InvalidLineNumber {
            value: string_between(s, span.offset, span.offset + span.len),
            src: src.to_owned(),
            span,
        },
        ParseFailure::InvalidNumLines { span } => FormatError::InvalidNumLines {
            value: string_between(s, span.offset, span.offset + span.len),
            src: src.to_owned(),
            span,
        },
        ParseFailure::MissingEndDelimiter { start_span, eof_span } => {
            FormatError::MissingEndDelimiter { src: src.to_owned(), start_span, eof_span }
        },
        ParseFailure::NoChunks => FormatError::NoChunks { src: src.to_owned() },
    }
}

/// The field text that an error carries is the text at its span.
pub open spec fn tells_field(e: FormatError, s: Seq<u8>) -> bool {
    match e.failure() {
        ParseFailure::InvalidLineNumber { span } => e.value_bytes() == s.subrange(
            span.offset as int,
            span.offset + span.len,
        ),
        ParseFailure::InvalidNumLines { span } => e.value_bytes() == s.subrange(
            span.offset as int,
            span.offset + span.len,
        ),
        _ => true,
    }
}

/// Reads a chunk document. The result holds the chunks of the document in
/// their order where `parsed` gives them, and otherwise the failure that
/// `parsed` gives, with the document and the text of the offending field.
pub fn parse_format(src: &str) -> (r: Result<Format, FormatError>)
    ensures
        match parsed(bytes_of(src@)) {
            Ok(chunks) => r is Ok && r->Ok_0@ == chunks,
            Err(f) => r is Err && r->Err_0.failure() == f && r->Err_0.source() == src@
                && tells_field(r->Err_0, bytes_of(src@)),
        },
{
    let s = str_bytes(src);
    let mut chunks: Vec<Chunk> = Vec::new();
    let ghost mut from: int = 0;
    let mut p = find_comments_end(s, 0);
    assert(views(chunks@) + Seq::<ChunkView>::empty() =~= Seq::<ChunkView>::empty());
    assert(forall|r: Seq<ChunkView>| #[trigger] (Seq::<ChunkView>::empty() + r) =~= r);
    while p < s.len() && s[p] == 0x40
        invariant
            s@ == bytes_of(src@),
            valid_utf8(s@),
            0 <= from <= s@.len(),
            p == skip_comments(s@, from),
            p <= s@.len(),
            after(views(chunks@), chunks_from(s@, from)) == chunks_from(s@, 0),
        decreases s@.len() - p,
    {
        let ghost read = views(chunks@);
        match read_chunk(s, p) {
            Err(f) => {
                return Err(describe(src, f));
            },
            Ok((chunk, next)) => {
                proof {
                    let rest = chunks_from(s@, next as int);
                    assert(chunks_from(s@, from) == after(seq![chunk@], rest));
                    assert(views(chunks@.push(chunk)) =~= read + seq![chunk@]);
                    if let Ok(more) = rest {
                        assert((read + seq![chunk@]) + more =~= read + (seq![chunk@] + more));
                    }
                    from = next as int;
                }
                chunks.push(chunk);
                p = find_comments_end(s, next);
            },
        }
    }
    proof {
        assert(chunks_from(s@, from) == Ok::<Seq<ChunkView>, ParseFailure>(Seq::empty()));
        assert(views(chunks@) + Seq::<ChunkView>::empty() =~= views(chunks@));
    }
    if chunks.len() == 0 {
        return Err(describe(src, ParseFailure::NoChunks));
    }
    Ok(Format(chunks))
}

impl Format {
    /// Reads a chunk document: `parse_format` under the name that callers
    /// of string parsing expect.
    pub fn from_str(src: &str) -> (r: Result<Format, FormatError>)
        ensures
            match parsed(bytes_of(src@)) {
                Ok(chunks) => r is Ok && r->Ok_0@ == chunks,
                Err(f) => r is Err && r->Err_0.failure() == f && r->Err_0.source() == src@
                    && tells_field(r->Err_0, bytes_of(src@)),
            },
    {
        parse_format(src)
    }
}

} // verus!
