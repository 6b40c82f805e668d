//! The data model: a chunk, its lookup key, and a document of chunks.

use vstd::prelude::*;
use vstd::utf8::*;
use crate::text::{append_range, bytes_of, clean_cut, lemma_ascii_valid, lemma_cut_valid, lemma_line_end, line_end, make_string, str_bytes, find_line_end};

verus! {

/// What a chunk says: the file it edits, the first line it covers (counted
/// from 1), how many lines of the file it replaces, and the replacement text.
pub struct ChunkView {
    pub path: Seq<u8>,
    pub start_line: int,
    pub num_lines: int,
    pub content: Seq<u8>,
}

/// One edit: `num_lines` lines of the file `path`, from line `start_line`
/// on, are to be replaced by `content`.
#[derive(Debug, Clone)]
pub struct Chunk {
    pub path: String,
    pub start_line: usize,
    pub num_lines: usize,
    pub content: String,
}

impl View for Chunk {
    type V = ChunkView;

    open spec fn view(&self) -> ChunkView {
        ChunkView {
            path: bytes_of(self.path@),
            start_line: self.start_line as int,
            num_lines: self.num_lines as int,
            content: bytes_of(self.content@),
        }
    }
}

/// The views of a run of chunks.
pub open spec fn views(chunks: Seq<Chunk>) -> Seq<ChunkView> {
    chunks.map_values(|c: Chunk| c@)
}

/// The key of a chunk: where it lies, without what it holds. Two chunks with
/// equal keys cover the same lines of the same file.
#[derive(Debug, Clone, Copy)]
pub struct ChunkRef<'a> {
    pub path: &'a str,
    pub start_line: usize,
    pub num_lines: usize,
}

/// The outcome of comparing two values that are totally ordered.
#[derive(Debug, Clone, Copy, PartialEq, Eq, Structural)]
pub enum Rank {
    Before,
    Same,
    After,
}

/// `a` comes before `b` in the order of a dictionary, byte by byte.
pub open spec fn lex_lt(a: Seq<u8>, b: Seq<u8>) -> bool
    decreases a.len(),
{
    if b.len() == 0 {
        false
    } else if a.len() == 0 {
        true
    } else if a[0] != b[0] {
        a[0] < b[0]
    } else {
        lex_lt(a.drop_first(), b.drop_first())
    }
}

/// The key of `a` comes before the key of `b`: by path, then by first line,
/// then by number of lines.
pub open spec fn key_lt(a: ChunkView, b: ChunkView) -> bool {
    ||| lex_lt(a.path, b.path)
    ||| (a.path == b.path && a.start_line < b.start_line)
    ||| (a.path == b.path && a.start_line == b.start_line && a.num_lines < b.num_lines)
}

/// `a` and `b` have the same key.
pub open spec fn key_eq(a: ChunkView, b: ChunkView) -> bool {
    a.path == b.path && a.start_line == b.start_line && a.num_lines == b.num_lines
}

/// Two byte strings are equal, or one comes before the other, never both.
pub proof fn lemma_lex_trichotomy(a: Seq<u8>, b: Seq<u8>)
    ensures
        lex_lt(a, b) || a == b || lex_lt(b, a),
        !(lex_lt(a, b) && lex_lt(b, a)),
        !(lex_lt(a, b) && a == b),
    decreases a.len(),
{
    if a.len() > 0 && b.len() > 0 {
        lemma_lex_trichotomy(a.drop_first(), b.drop_first());
        if a[0] == b[0] && a.drop_first() == b.drop_first() {
            assert(a =~= seq![a[0]] + a.drop_first());
            assert(b =~= seq![b[0]] + b.drop_first());
        }
    } else if a.len() == 0 && b.len() == 0 {
        assert(a =~= b);
    }
}

/// The dictionary order is transitive.
pub proof fn lemma_lex_transitive(a: Seq<u8>, b: Seq<u8>, c: Seq<u8>)
    requires
        lex_lt(a, b),
        lex_lt(b, c),
    ensures
        lex_lt(a, c),
    decreases a.len(),
{
    if a.len() > 0 && b.len() > 0 && c.len() > 0 {
        if a[0] == b[0] && b[0] == c[0] {
            lemma_lex_transitive(a.drop_first(), b.drop_first(), c.drop_first());
        }
    }
}

/// Compares two byte strings in the order of a dictionary.
pub fn rank_bytes(a: &[u8], b: &[u8]) -> (r: Rank)
    ensures
        r == Rank::Before <==> lex_lt(a@, b@),
        r == Rank::Same <==> a@ == b@,
        r == Rank::After <==> lex_lt(b@, a@),
{
    let mut i: usize = 0;
    assert(a@.subrange(0, a@.len() as int) =~= a@);
    assert(b@.subrange(0, b@.len() as int) =~= b@);
    while i < a.len() && i < b.len() && a[i] == b[i]
        invariant
            i <= a@.len(),
            i <= b@.len(),
            a@.subrange(0, i as int) == b@.subrange(0, i as int),
            lex_lt(a@, b@) == lex_lt(
                a@.subrange(i as int, a@.len() as int),
                b@.subrange(i as int, b@.len() as int),
            ),
            lex_lt(b@, a@) == lex_lt(
                b@.subrange(i as int, b@.len() as int),
                a@.subrange(i as int, a@.len() as int),
            ),
        decreases a@.len() - i,
    {
        proof {
            let ra = a@.subrange(i as int, a@.len() as int);
            let rb = b@.subrange(i as int, b@.len() as int);
            assert(ra[0] == a@[i as int] && rb[0] == b@[i as int]);
            assert(ra.drop_first() =~= a@.subrange(i + 1, a@.len() as int));
            assert(rb.drop_first() =~= b@.subrange(i + 1, b@.len() as int));
            assert(a@.subrange(0, i + 1) =~= a@.subrange(0, i as int).push(a@[i as int]));
            assert(b@.subrange(0, i + 1) =~= b@.subrange(0, i as int).push(b@[i as int]));
        }
        i = i + 1;
    }
    proof {
        let ra = a@.subrange(i as int, a@.len() as int);
        let rb = b@.subrange(i as int, b@.len() as int);
        lemma_lex_trichotomy(a@, b@);
        if i < a.len() {
            assert(ra[0] == a@[i as int]);
        }
        if i < b.len() {
            assert(rb[0] == b@[i as int]);
        }
        if i == a.len() && i == b.len() {
            assert(a@ =~= a@.subrange(0, i as int));
            assert(b@ =~= b@.subrange(0, i as int));
        }
    }
    if i == b.len() {
        if i == a.len() {
            Rank::Same
        } else {
            Rank::After
        }
    } else if i == a.len() {
        Rank::Before
    } else if a[i] < b[i] {
        Rank::Before
    } else {
        Rank::After
    }
}

/// One line feed.
pub open spec fn line_feed() -> Seq<u8> {
    seq![0x0au8]
}

/// The offset in `s` behind its `k`-th line feed from `pos` on, where `s`
/// has that many.
pub open spec fn behind_line_feeds(s: Seq<u8>, pos: int, k: nat) -> Option<int>
    decreases k,
{
    if k == 0 {
        Some(pos)
    } else if line_end(s, pos) >= s.len() {
        None
    } else {
        behind_line_feeds(s, line_end(s, pos) + 1, (k - 1) as nat)
    }
}

/// The line behind the last line that a chunk covers.
pub open spec fn span_end(c: ChunkView) -> int {
    c.start_line + c.num_lines
}

/// Two chunks can become one: they edit the same file, and their line ranges
/// overlap or touch.
pub open spec fn mergeable(a: ChunkView, b: ChunkView) -> bool {
    a.path == b.path && span_end(a) >= b.start_line && span_end(b) >= a.start_line
}

/// The content of two mergeable chunks as one, `first` being the chunk that
/// does not begin behind the other. Where `second` ends inside `first`,
/// that of `first`. Where `second` begins at the line behind `first`, both,
/// with a line feed between. Otherwise that of `first`, a line feed, and
/// what `second` holds behind as many line feeds as lines overlap; where it
/// holds fewer, that of `first` alone.
pub open spec fn merged_content(first: ChunkView, second: ChunkView) -> Seq<u8> {
    if span_end(second) <= span_end(first) {
        first.content
    } else if span_end(first) == second.start_line {
        first.content + line_feed() + second.content
    } else {
        let overlap = (span_end(first) - second.start_line) as nat;
        match behind_line_feeds(second.content, 0, overlap) {
            Some(at) => first.content + line_feed() + second.content.subrange(
                at,
                second.content.len() as int,
            ),
            None => first.content,
        }
    }
}

/// Two mergeable chunks as one: from the first line of either to the last
/// line of either. A chunk that begins at the same line as `b` counts as the
/// first when it is `a`.
pub open spec fn merged(a: ChunkView, b: ChunkView) -> ChunkView {
    let first = if a.start_line <= b.start_line { a } else { b };
    let second = if a.start_line <= b.start_line { b } else { a };
    let end = if span_end(a) >= span_end(b) { span_end(a) } else { span_end(b) };
    ChunkView {
        path: a.path,
        start_line: first.start_line,
        num_lines: end - first.start_line,
        content: merged_content(first, second),
    }
}

/// Finds the offset behind the `k`-th line feed of `s`.
fn find_behind_line_feeds(s: &[u8], k: usize) -> (r: Option<usize>)
    ensures
        match r {
            Some(at) => behind_line_feeds(s@, 0, k as nat) == Some(at as int) && at <= s@.len()
                && clean_cut(s@, at as int),
            None => behind_line_feeds(s@, 0, k as nat) is None,
        },
{
    let mut at: usize = 0;
    let mut left: usize = k;
    while left > 0
        invariant
            at <= s@.len(),
            clean_cut(s@, at as int),
            behind_line_feeds(s@, 0, k as nat) == behind_line_feeds(s@, at as int, left as nat),
        decreases left,
    {
        let end = find_line_end(s, at);
        proof {
            lemma_line_end(s@, at as int);
        }
        if end >= s.len() {
            return None;
        }
        at = end + 1;
        left = left - 1;
    }
    Some(at)
}

/// Joins the content of `first` with what `second` adds to it.
fn merge_content(
    first: &str,
    first_end: u128,
    second: &str,
    second_start: u128,
    second_end: u128,
) -> (out: String)
    requires
        second_start <= first_end,
        first_end - second_start <= usize::MAX,
    ensures
        bytes_of(out@) == merged_content(
            ChunkView {
                path: Seq::empty(),
                start_line: 0,
                num_lines: first_end as int,
                content: bytes_of(first@),
            },
            ChunkView {
                path: Seq::empty(),
                start_line: second_start as int,
                num_lines: second_end - second_start,
                content: bytes_of(second@),
            },
        ),
{
    let a = str_bytes(first);
    let b = str_bytes(second);
    let mut out: Vec<u8> = Vec::new();
    append_range(&mut out, a, 0, a.len());
    assert(out@ =~= a@);
    if second_end <= first_end {
        return make_string(out);
    }
    let from: usize = if first_end == second_start {
        0
    } else {
        let overlap: usize = (first_end - second_start) as usize;
        match find_behind_line_feeds(b, overlap) {
            Some(at) => at,
            None => {
                return make_string(out);
            },
        }
    };
    out.push(0x0a);
    append_range(&mut out, b, from, b.len());
    proof {
        let lf = line_feed();
        let tail = b@.subrange(from as int, b@.len() as int);
        assert(out@ =~= a@ + lf + tail);
        assert(b@.subrange(0, b@.len() as int) =~= b@);
        lemma_ascii_valid(lf);
        lemma_cut_valid(b@, from as int, b@.len() as int);
        valid_utf8_concat(a@, lf);
        valid_utf8_concat(a@ + lf, tail);
    }
    make_string(out)
}

impl Chunk {
    /// A chunk of the given file, line range and content.
    #[must_use]
    pub fn new(path: String, start_line: usize, num_lines: usize, content: String) -> (c: Chunk)
        ensures
            c.path == path,
            c.start_line == start_line,
            c.num_lines == num_lines,
            c.content == content,
    {
        Chunk { path, start_line, num_lines, content }
    }

    /// The first line that the chunk covers.
    #[must_use]
    pub fn line_number(&self) -> (n: usize)
        ensures
            n == self.start_line,
    {
        self.start_line
    }

    /// The replacement text.
    #[must_use]
    pub fn content(&self) -> (text: &str)
        ensures
            text@ == self.content@,
    {
        self.content.as_str()
    }

    /// The key of this chunk.
    #[must_use]
    pub fn as_ref(&self) -> (r: ChunkRef<'_>)
        ensures
            r.path@ == self.path@,
            r.start_line == self.start_line,
            r.num_lines == self.num_lines,
    {
        ChunkRef {
            path: self.path.as_str(),
            start_line: self.start_line,
            num_lines: self.num_lines,
        }
    }

    /// True when this chunk and `other` edit the same file and their line
    /// ranges overlap or touch, with no line between them.
    #[must_use]
    pub fn can_merge(&self, other: &Chunk) -> (b: bool)
        ensures
            b == mergeable(self@, other@),
    {
        proof {
            lemma_same_bytes(self.path@, other.path@);
        }
        if self.path != other.path {
            return false;
        }
        let self_end: u128 = self.start_line as u128 + self.num_lines as u128;
        let other_end: u128 = other.start_line as u128 + other.num_lines as u128;
        self_end >= other.start_line as u128 && other_end >= self.start_line as u128
    }

    /// Merges `other` into this chunk where the two can merge, and hands
    /// `other` back where they cannot.
    pub fn merge(&mut self, other: Chunk) -> (r: Result<(), Chunk>)
        requires
            span_end(old(self)@) <= usize::MAX,
            span_end(other@) <= usize::MAX,
        ensures
            mergeable(old(self)@, other@) ==> r is Ok && final(self)@ == merged(
                old(self)@,
                other@,
            ),
            !mergeable(old(self)@, other@) ==> r == Err::<(), Chunk>(other) && *final(self)
                == *old(self),
            span_end(final(self)@) <= usize::MAX,
    {
        if !self.can_merge(&other) {
            return Err(other);
        }
        let self_end: usize = self.start_line + self.num_lines;
        let other_end: usize = other.start_line + other.num_lines;
        let end: usize = if self_end >= other_end { self_end } else { other_end };
        if self.start_line <= other.start_line {
            let content = merge_content(
                self.content.as_str(),
                self_end as u128,
                other.content.as_str(),
                other.start_line as u128,
                other_end as u128,
            );
            self.num_lines = end - self.start_line;
            self.content = content;
        } else {
            let content = merge_content(
                other.content.as_str(),
                other_end as u128,
                self.content.as_str(),
                self.start_line as u128,
                self_end as u128,
            );
            self.num_lines = end - other.start_line;
            self.start_line = other.start_line;
            self.content = content;
        }
        Ok(())
    }
}

/// An ordered run of chunks: the in-memory form of one chunk document.
/// Nothing orders the chunks but `sort` and what calls it.
#[derive(Debug)]
pub struct Format(pub Vec<Chunk>);

impl View for Format {
    type V = Seq<ChunkView>;

    open spec fn view(&self) -> Seq<ChunkView> {
        views(self.0@)
    }
}

impl Format {
    /// A document of the given chunks, in the given order.
    #[must_use]
    pub fn new(chunks: Vec<Chunk>) -> (f: Format)
        ensures
            f.0 == chunks,
    {
        Format(chunks)
    }

    /// The number of chunks.
    #[must_use]
    pub fn len(&self) -> (n: usize)
        ensures
            n == self@.len(),
    {
        self.0.len()
    }

    /// True when the document holds no chunk.
    #[must_use]
    pub fn is_empty(&self) -> (b: bool)
        ensures
            b == (self@.len() == 0),
    {
        self.0.len() == 0
    }
}

/// Strings with the same characters have the same bytes, and the other way
/// round.
pub proof fn lemma_same_bytes(a: Seq<char>, b: Seq<char>)
    ensures
        (a == b) <==> (bytes_of(a) == bytes_of(b)),
{
    encode_utf8_decode_utf8(a);
    encode_utf8_decode_utf8(b);
}

} // verus!
