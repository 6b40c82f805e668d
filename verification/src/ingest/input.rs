//! The formats in which lines to look up are handed in.

use vstd::prelude::*;
use vstd::utf8::*;
use crate::text::{all_digits, bytes_of, is_digit, number_in, parse_number, str_bytes, string_between};
use crate::types::IngestInput;

verus! {

/// A format of the list of lines to look up.
#[derive(Debug, Clone, Copy, PartialEq, Eq, Structural)]
pub enum Format {
    /// One JSON record on each line.
    Jsonl,
    /// One JSON array of records.
    Json,
    /// Comma-separated values with a header line.
    Csv,
    /// The output of grep with line numbers: `path:line:text`.
    Grep,
}

/// The format that the first `,` or `:` from offset `i` on stands for:
/// comma-separated values for a `,`, the output of grep for a `:`, and for
/// neither.
pub open spec fn guessed_from(text: Seq<u8>, i: int) -> Format
    decreases text.len() - i,
{
    if i < 0 || i >= text.len() {
        Format::Grep
    } else if text[i] == 0x2c {
        Format::Csv
    } else if text[i] == 0x3a {
        Format::Grep
    } else {
        guessed_from(text, i + 1)
    }
}

/// The format that the beginning of an input stands for: a JSON array for
/// `[{`, JSON lines for `{`, and otherwise what the first `,` or `:` says.
pub open spec fn guessed(text: Seq<u8>) -> Format {
    if text.len() >= 2 && text[0] == 0x5b && text[1] == 0x7b {
        Format::Json
    } else if text.len() >= 1 && text[0] == 0x7b {
        Format::Jsonl
    } else {
        guessed_from(text, 0)
    }
}

impl Format {
    /// Guesses the format of an input from its beginning.
    pub fn guess(line: &[u8]) -> (format: Format)
        ensures
            format == guessed(line@),
    {
        if line.len() >= 2 && line[0] == 0x5b && line[1] == 0x7b {
            return Format::Json;
        }
        if line.len() >= 1 && line[0] == 0x7b {
            return Format::Jsonl;
        }
        let mut i: usize = 0;
        while i < line.len()
            invariant
                i <= line@.len(),
                guessed(line@) == guessed_from(line@, 0),
                guessed_from(line@, 0) == guessed_from(line@, i as int),
            decreases line@.len() - i,
        {
            if line[i] == 0x2c {
                return Format::Csv;
            }
            if line[i] == 0x3a {
                return Format::Grep;
            }
            i = i + 1;
        }
        Format::Grep
    }
}

/// The offset of the first `:` at or behind `pos`, or the length of `s`.
pub open spec fn colon_at(s: Seq<u8>, pos: int) -> int
    decreases s.len() - pos,
{
    if pos < 0 || pos >= s.len() {
        s.len() as int
    } else if s[pos] == 0x3a {
        pos
    } else {
        colon_at(s, pos + 1)
    }
}

/// The number of bytes of the character that begins with the byte `b`.
pub open spec fn char_width(b: u8) -> int {
    if b < 0x80 {
        1
    } else if b < 0xe0 {
        2
    } else if b < 0xf0 {
        3
    } else {
        4
    }
}

/// The piece that begins at `p` and ends with the next `:` holds a decimal
/// digit as its second character.
pub open spec fn second_is_digit(s: Seq<u8>, p: int) -> bool {
    0 <= p < s.len() && p + char_width(s[p]) <= colon_at(s, p) && p + char_width(s[p]) < s.len()
        && is_digit(s[p + char_width(s[p])])
}

/// The beginning of the first piece, of those that begin at `p` or behind
/// it, whose second character is a decimal digit. The pieces of a line are
/// what stands between its colons, each with the colon behind it.
pub open spec fn numbered_piece(s: Seq<u8>, p: int) -> Option<int>
    decreases s.len() - p,
    via numbered_piece_decreases
{
    if p < 0 || p >= s.len() {
        None
    } else if second_is_digit(s, p) {
        Some(p)
    } else if colon_at(s, p) >= s.len() {
        None
    } else {
        numbered_piece(s, colon_at(s, p) + 1)
    }
}

#[via_fn]
proof fn numbered_piece_decreases(s: Seq<u8>, p: int) {
    if 0 <= p < s.len() {
        lemma_colon_at(s, p);
    }
}

/// The end of the decimal digits that begin at `pos`.
pub open spec fn digits_end(s: Seq<u8>, pos: int) -> int
    decreases s.len() - pos,
{
    if pos < 0 || pos >= s.len() || !is_digit(s[pos]) {
        pos
    } else {
        digits_end(s, pos + 1)
    }
}

/// What a line of grep output names: the path before the first piece whose
/// second character is a decimal digit, and the number that the decimal
/// digits at the beginning of that piece write. Nothing where no piece is
/// such, where the first piece is, where no digits stand there or the
/// number does not fit, and where the digits end the line or a byte
/// beyond ASCII follows them.
pub open spec fn grep_record(s: Seq<u8>) -> Option<(Seq<u8>, usize)> {
    match numbered_piece(s, 0) {
        None => None,
        Some(pos) => {
            let end = digits_end(s, pos);
            if pos == 0 || end == pos || end >= s.len() || s[end] >= 0x80 {
                None
            } else {
                match number_in(s.subrange(pos, end)) {
                    None => None,
                    Some(line) => Some((s.subrange(0, pos - 1), line)),
                }
            }
        },
    }
}

/// Where `colon_at` lands.
proof fn lemma_colon_at(s: Seq<u8>, pos: int)
    requires
        0 <= pos <= s.len(),
    ensures
        pos <= colon_at(s, pos) <= s.len(),
        colon_at(s, pos) < s.len() ==> s[colon_at(s, pos)] == 0x3a,
    decreases s.len() - pos,
{
    if pos < s.len() && s[pos] != 0x3a {
        lemma_colon_at(s, pos + 1);
    }
}

/// Where `digits_end` lands.
proof fn lemma_digits_end(s: Seq<u8>, pos: int)
    requires
        0 <= pos <= s.len(),
    ensures
        pos <= digits_end(s, pos) <= s.len(),
        all_digits(s.subrange(pos, digits_end(s, pos))),
        digits_end(s, pos) < s.len() ==> !is_digit(s[digits_end(s, pos)]),
    decreases s.len() - pos,
{
    if pos < s.len() && is_digit(s[pos]) {
        lemma_digits_end(s, pos + 1);
        let end = digits_end(s, pos);
        assert forall|i: int| 0 <= i < end - pos implies is_digit(
            #[trigger] s.subrange(pos, end)[i],
        ) by {
            if i > 0 {
                assert(s.subrange(pos + 1, end)[i - 1] == s[pos + i]);
            }
        }
    }
}

/// The offset of the first `:` at or behind `pos`.
fn find_colon(s: &[u8], pos: usize) -> (at: usize)
    requires
        pos <= s@.len(),
    ensures
        at == colon_at(s@, pos as int),
        pos <= at <= s@.len(),
{
    let mut i: usize = pos;
    while i < s.len() && s[i] != 0x3a
        invariant
            pos <= i <= s@.len(),
            colon_at(s@, pos as int) == colon_at(s@, i as int),
        decreases s@.len() - i,
    {
        i = i + 1;
    }
    i
}

/// Reads a line of grep output.
pub fn parse_grep_line(line: &str) -> (r: Option<IngestInput>)
    ensures
        match grep_record(bytes_of(line@)) {
            None => r is None,
            Some((path, number)) => r matches Some(input) && bytes_of(input.file_path@) == path
                && input.line_number == number,
        },
{
    let s = str_bytes(line);
    let mut p: usize = 0;
    let mut found: Option<usize> = None;
    while p < s.len()
        invariant_except_break
            found is None,
        invariant
            p <= s@.len(),
            numbered_piece(s@, 0) == numbered_piece(s@, p as int),
        ensures
            match found {
                Some(pos) => numbered_piece(s@, 0) == Some(pos as int) && pos < s@.len(),
                None => numbered_piece(s@, 0) is None,
            },
        decreases s@.len() - p,
    {
        let colon = find_colon(s, p);
        let first: u8 = s[p];
        let width: usize = if first < 0x80 {
            1
        } else if first < 0xe0 {
            2
        } else if first < 0xf0 {
            3
        } else {
            4
        };
        if width <= colon - p && width < s.len() - p && s[p + width] >= 0x30 && s[p + width]
            <= 0x39 {
            found = Some(p);
            break ;
        }
        proof {
            lemma_colon_at(s@, p as int);
        }
        if colon >= s.len() {
            p = s.len();
        } else {
            p = colon + 1;
        }
    }
    let pos = match found {
        None => {
            return None;
        },
        Some(pos) => pos,
    };
    let mut end: usize = pos;
    while end < s.len() && s[end] >= 0x30 && s[end] <= 0x39
        invariant
            pos <= end <= s@.len(),
            digits_end(s@, pos as int) == digits_end(s@, end as int),
        decreases s@.len() - end,
    {
        end = end + 1;
    }
    if pos == 0 || end == pos || end >= s.len() || s[end] >= 0x80 {
        return None;
    }
    let line_number = match parse_number(vstd::slice::slice_subrange(s, pos, end)) {
        None => {
            return None;
        },
        Some(n) => n,
    };
    proof {
        assert(pos >= 1);
        lemma_piece_follows_colon(s@, 0, pos as int);
    }
    let file_path = string_between(s, 0, pos - 1);
    Some(IngestInput { file_path, line_number })
}

/// A piece that is found behind the first begins behind a `:`.
proof fn lemma_piece_follows_colon(s: Seq<u8>, p: int, pos: int)
    requires
        0 <= p <= s.len(),
        numbered_piece(s, p) == Some(pos),
        pos > p,
    ensures
        pos >= 1,
        s[pos - 1] == 0x3a,
    decreases s.len() - p,
{
    lemma_colon_at(s, p);
    lemma_piece_not_before(s, p, pos);
    let next = colon_at(s, p) + 1;
    assert(numbered_piece(s, next) == Some(pos));
    lemma_piece_not_before(s, next, pos);
    if next < pos {
        lemma_piece_follows_colon(s, next, pos);
    }
}

/// A piece is found at the place where the search began, or behind it.
proof fn lemma_piece_not_before(s: Seq<u8>, p: int, pos: int)
    requires
        0 <= p,
        numbered_piece(s, p) == Some(pos),
    ensures
        p <= pos < s.len(),
    decreases s.len() - p,
{
    if p < s.len() && !second_is_digit(s, p) {
        lemma_colon_at(s, p);
        if colon_at(s, p) < s.len() {
            lemma_piece_not_before(s, colon_at(s, p) + 1, pos);
        }
    }
}

/// What a column of a table of lines holds.
#[derive(Debug, Clone, Copy, PartialEq, Eq, Structural)]
pub enum Column {
    /// The path of a file.
    FilePath,
    /// The number of a line.
    LineNumber,
}

/// A byte of a header as it counts for the comparison: an ASCII capital as
/// the small letter; nothing for ASCII white space, `-` and `_`.
pub open spec fn folded_byte(b: u8) -> Option<u8> {
    if b == 0x20 || (0x09 <= b <= 0x0d) || b == 0x2d || b == 0x5f {
        None
    } else if 0x41 <= b <= 0x5a {
        Some((b + 0x20) as u8)
    } else {
        Some(b)
    }
}

/// A header as it counts for the comparison.
pub open spec fn folded(h: Seq<u8>) -> Seq<u8>
    decreases h.len(),
{
    if h.len() == 0 {
        Seq::empty()
    } else {
        match folded_byte(h.last()) {
            None => folded(h.drop_last()),
            Some(b) => folded(h.drop_last()).push(b),
        }
    }
}

/// The names of a column that holds paths.
pub open spec fn is_path_name(name: Seq<u8>) -> bool {
    name == bytes_of("filepath"@) || name == bytes_of("file"@) || name == bytes_of("path"@)
}

/// The names of a column that holds line numbers.
pub open spec fn is_line_name(name: Seq<u8>) -> bool {
    name == bytes_of("linenumber"@) || name == bytes_of("line"@) || name == bytes_of("linenum"@)
        || name == bytes_of("lineno"@) || name == bytes_of("ln"@)
}

/// What a header says its column holds: the header, folded, is one of the
/// names of the column, or one of them with one more ASCII byte behind it.
pub open spec fn column_of(header: Seq<u8>) -> Option<Column> {
    let name = folded(header);
    if name.len() == 0 {
        None
    } else if is_path_name(name) || (name.last() < 0x80 && is_path_name(name.drop_last())) {
        Some(Column::FilePath)
    } else if is_line_name(name) || (name.last() < 0x80 && is_line_name(name.drop_last())) {
        Some(Column::LineNumber)
    } else {
        None
    }
}

/// The last of the first `n` columns that holds `column`, if one does.
pub open spec fn last_column(headers: Seq<Seq<u8>>, n: int, column: Column) -> Option<int>
    decreases n,
{
    if n <= 0 || n > headers.len() {
        None
    } else if column_of(headers[n - 1]) == Some(column) {
        Some(n - 1)
    } else {
        last_column(headers, n - 1, column)
    }
}

/// The bytes of each text.
pub open spec fn all_bytes(texts: Seq<String>) -> Seq<Seq<u8>> {
    texts.map_values(|t: String| bytes_of(t@))
}

/// Where the paths and the line numbers stand in the rows of a table.
#[derive(Debug, Clone, Copy, PartialEq, Eq, Structural)]
pub struct HeaderLocs {
    pub file_path: usize,
    pub line_number: usize,
}

/// Why a row of a table names no line.
#[derive(Debug, Clone, Copy, PartialEq, Eq, Structural)]
pub enum RowError {
    /// The row has no field in the column.
    MissingField(Column),
    /// The field is no line number.
    CouldNotParse(Column),
}

/// The header, folded.
fn fold_header(header: &[u8]) -> (name: Vec<u8>)
    ensures
        name@ == folded(header@),
{
    let mut name: Vec<u8> = Vec::new();
    let mut i: usize = 0;
    assert(header@.subrange(0, 0) =~= Seq::<u8>::empty());
    while i < header.len()
        invariant
            i <= header@.len(),
            name@ == folded(header@.subrange(0, i as int)),
        decreases header@.len() - i,
    {
        let b: u8 = header[i];
        proof {
            let next = header@.subrange(0, i + 1);
            assert(next.drop_last() =~= header@.subrange(0, i as int));
            assert(next.last() == b);
        }
        if b == 0x20 || (0x09 <= b && b <= 0x0d) || b == 0x2d || b == 0x5f {
        } else if 0x41 <= b && b <= 0x5a {
            name.push(b + 0x20);
        } else {
            name.push(b);
        }
        i = i + 1;
    }
    assert(header@.subrange(0, header@.len() as int) =~= header@);
    name
}

/// True when `name[..len]` is the text `word`.
fn is_word(name: &[u8], len: usize, word: &str) -> (r: bool)
    requires
        len <= name@.len(),
    ensures
        r == (name@.subrange(0, len as int) == bytes_of(word@)),
{
    let w = str_bytes(word);
    if w.len() != len {
        return false;
    }
    let mut i: usize = 0;
    while i < len
        invariant
            i <= len <= name@.len(),
            w@.len() == len,
            w@ == bytes_of(word@),
            forall|j: int| 0 <= j < i ==> name@[j] == w@[j],
        decreases len - i,
    {
        if name[i] != w[i] {
            assert(name@.subrange(0, len as int)[i as int] != w@[i as int]);
            return false;
        }
        i = i + 1;
    }
    assert(name@.subrange(0, len as int) =~= w@);
    true
}

/// True when `name[..len]` names a column of paths.
fn names_path(name: &[u8], len: usize) -> (r: bool)
    requires
        len <= name@.len(),
    ensures
        r == is_path_name(name@.subrange(0, len as int)),
{
    is_word(name, len, "filepath") || is_word(name, len, "file") || is_word(name, len, "path")
}

/// True when `name[..len]` names a column of line numbers.
fn names_line(name: &[u8], len: usize) -> (r: bool)
    requires
        len <= name@.len(),
    ensures
        r == is_line_name(name@.subrange(0, len as int)),
{
    is_word(name, len, "linenumber") || is_word(name, len, "line") || is_word(name, len, "linenum")
        || is_word(name, len, "lineno") || is_word(name, len, "ln")
}

/// What a header says its column holds.
pub fn column_for(header: &str) -> (r: Option<Column>)
    ensures
        r == column_of(bytes_of(header@)),
{
    let name = fold_header(str_bytes(header));
    let n = name.len();
    if n == 0 {
        return None;
    }
    let ascii_end: bool = name[n - 1] < 0x80;
    proof {
        assert(name@.subrange(0, n as int) =~= name@);
        assert(name@.subrange(0, n - 1) =~= name@.drop_last());
    }
    if names_path(name.as_slice(), n) || (ascii_end && names_path(name.as_slice(), n - 1)) {
        Some(Column::FilePath)
    } else if names_line(name.as_slice(), n) || (ascii_end && names_line(name.as_slice(), n - 1)) {
        Some(Column::LineNumber)
    } else {
        None
    }
}

/// Finds the columns of the paths and of the line numbers from the headers
/// of a table: for each, the last column whose header names it. Nothing
/// where one of the two is missing.
pub fn locate_headers(headers: &Vec<String>) -> (r: Option<HeaderLocs>)
    ensures
        match (
            last_column(all_bytes(headers@), headers@.len() as int, Column::FilePath),
            last_column(all_bytes(headers@), headers@.len() as int, Column::LineNumber),
        ) {
            (Some(file_path), Some(line_number)) => r == Some(
                HeaderLocs { file_path: file_path as usize, line_number: line_number as usize },
            ),
            _ => r is None,
        },
{
    let ghost all = all_bytes(headers@);
    let mut file_path: Option<usize> = None;
    let mut line_number: Option<usize> = None;
    let mut i: usize = 0;
    while i < headers.len()
        invariant
            i <= headers@.len(),
            all == all_bytes(headers@),
            match file_path {
                Some(at) => last_column(all, i as int, Column::FilePath) == Some(at as int),
                None => last_column(all, i as int, Column::FilePath) is None,
            },
            match line_number {
                Some(at) => last_column(all, i as int, Column::LineNumber) == Some(at as int),
                None => last_column(all, i as int, Column::LineNumber) is None,
            },
        decreases headers@.len() - i,
    {
        assert(all[i as int] == bytes_of(headers@[i as int]@));
        match column_for(headers[i].as_str()) {
            Some(Column::FilePath) => {
                file_path = Some(i);
            },
            Some(Column::LineNumber) => {
                line_number = Some(i);
            },
            None => {},
        }
        i = i + 1;
    }
    match (file_path, line_number) {
        (Some(file_path), Some(line_number)) => Some(HeaderLocs { file_path, line_number }),
        _ => None,
    }
}

/// What a row names, given where the paths and the line numbers stand.
pub open spec fn row_record(row: Seq<String>, locs: HeaderLocs) -> Result<
    (Seq<char>, usize),
    RowError,
> {
    if locs.file_path >= row.len() {
        Err(RowError::MissingField(Column::FilePath))
    } else if locs.line_number >= row.len() {
        Err(RowError::MissingField(Column::LineNumber))
    } else {
        match number_in(bytes_of(row[locs.line_number as int]@)) {
            None => Err(RowError::CouldNotParse(Column::LineNumber)),
            Some(line) => Ok((row[locs.file_path as int]@, line)),
        }
    }
}

/// Reads the line that a row of a table names: the path from the one
/// column, the line number from the other.
pub fn parse_row(row: &Vec<String>, locs: HeaderLocs) -> (r: Result<IngestInput, RowError>)
    ensures
        match row_record(row@, locs) {
            Err(e) => r == Err::<IngestInput, RowError>(e),
            Ok((path, line)) => r matches Ok(input) && input.file_path@ == path
                && input.line_number == line,
        },
{
    if locs.file_path >= row.len() {
        return Err(RowError::MissingField(Column::FilePath));
    }
    if locs.line_number >= row.len() {
        return Err(RowError::MissingField(Column::LineNumber));
    }
    match parse_number(str_bytes(row[locs.line_number].as_str())) {
        None => Err(RowError::CouldNotParse(Column::LineNumber)),
        Some(line_number) => Ok(
            IngestInput { file_path: row[locs.file_path].clone(), line_number },
        ),
    }
}

} // verus!
