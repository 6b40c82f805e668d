//! The writer of chunk documents, and the law that reading undoes writing.

use vstd::prelude::*;
use vstd::utf8::*;
use crate::format::escaping::{escape_bytes, escaped, is_special, lemma_escaped_at_follows_backslash, lemma_unescape_escape};
use crate::format::parse::{ParseFailure, at_terminator, chunk_at, chunks_from, content_end, field_end, header_at, is_blank, parsed, positive_in, skip_comments, trimmed_end};
use crate::format::types::{Chunk, ChunkView, Format, views};
use crate::text::{append_range, bytes_of, decimal, is_digit, lemma_ascii_valid, lemma_decimal, lemma_line_end, lemma_number_in_decimal, line_end, make_string, next_line, push_decimal, str_bytes};

verus! {

/// The header line of a chunk: `@`, the path, `:`, the first line, `:`, the
/// line count, and a line feed.
pub open spec fn header_line(c: ChunkView) -> Seq<u8> {
    seq![0x40u8] + c.path + seq![0x3au8] + decimal(c.start_line as nat) + seq![0x3au8] + decimal(
        c.num_lines as nat,
    ) + seq![0x0au8]
}

/// `text` with a line feed behind it, unless it is empty or ends with one:
/// what follows then begins a line.
pub open spec fn on_own_lines(text: Seq<u8>) -> Seq<u8> {
    if text.len() == 0 || text.last() == 0x0a {
        text
    } else {
        text.push(0x0a)
    }
}

/// The line that ends a chunk.
pub open spec fn terminator_line() -> Seq<u8> {
    seq![0x40u8, 0x40u8, 0x40u8, 0x0au8]
}

/// A chunk as text: its header line, its content, escaped and on lines of
/// its own, and the terminator line.
pub open spec fn chunk_text(c: ChunkView) -> Seq<u8> {
    header_line(c) + on_own_lines(escaped(c.content)) + terminator_line()
}

/// A document as text: its chunks in their order, with an empty line
/// between one chunk and the next.
pub open spec fn document(chunks: Seq<ChunkView>) -> Seq<u8>
    decreases chunks.len(),
{
    if chunks.len() == 0 {
        Seq::empty()
    } else if chunks.len() == 1 {
        chunk_text(chunks[0])
    } else {
        chunk_text(chunks[0]) + seq![0x0au8] + document(chunks.drop_first())
    }
}

/// A chunk that can be written and read back as it is: its path is not
/// empty and holds no `:` and no line feed, its first line and its line
/// count are positive numbers that `usize` holds, and its content is empty
/// or ends with a line feed.
pub open spec fn writable(c: ChunkView) -> bool {
    &&& c.path.len() > 0
    &&& forall|i: int| 0 <= i < c.path.len() ==> #[trigger] c.path[i] != 0x3a && c.path[i] != 0x0a
    &&& 1 <= c.start_line <= usize::MAX
    &&& 1 <= c.num_lines <= usize::MAX
    &&& (c.content.len() == 0 || c.content.last() == 0x0a)
}

/// Where `field_end` lands: on the first `:` or line feed, or at the end.
pub proof fn lemma_field_end(s: Seq<u8>, pos: int)
    requires
        0 <= pos <= s.len(),
    ensures
        pos <= field_end(s, pos) <= s.len(),
        field_end(s, pos) < s.len() ==> s[field_end(s, pos)] == 0x3a || s[field_end(s, pos)]
            == 0x0a,
        forall|j: int| pos <= j < field_end(s, pos) ==> s[j] != 0x3a && s[j] != 0x0a,
    decreases s.len() - pos,
{
    if pos < s.len() && s[pos] != 0x3a && s[pos] != 0x0a {
        lemma_field_end(s, pos + 1);
    }
}

/// A stretch without `:` and line feed, with one of them behind it, is a field.
proof fn lemma_field_end_is(s: Seq<u8>, a: int, b: int)
    requires
        0 <= a <= b < s.len(),
        forall|j: int| a <= j < b ==> s[j] != 0x3a && s[j] != 0x0a,
        s[b] == 0x3a || s[b] == 0x0a,
    ensures
        field_end(s, a) == b,
{
    lemma_field_end(s, a);
}

/// A stretch without line feed, with a line feed behind it, is a line.
proof fn lemma_line_end_is(s: Seq<u8>, a: int, b: int)
    requires
        0 <= a <= b < s.len(),
        forall|j: int| a <= j < b ==> s[j] != 0x0a,
        s[b] == 0x0a,
    ensures
        line_end(s, a) == b,
        next_line(s, a) == b + 1,
{
    lemma_line_end(s, a);
}

/// Escaping keeps the last byte of a text that ends with a line feed.
proof fn lemma_escaped_last(x: Seq<u8>)
    requires
        x.len() > 0,
        x.last() == 0x0a,
    ensures
        escaped(x).len() > 0,
        escaped(x).last() == 0x0a,
    decreases x.len(),
{
    let r = x.drop_first();
    if r.len() > 0 {
        assert(r.last() == x.last());
        lemma_escaped_last(r);
        let e = escaped(r);
        if is_special(x[0]) {
            assert((seq![0x5cu8, x[0]] + e).last() == e.last());
        } else {
            assert((seq![x[0]] + e).last() == e.last());
        }
    } else {
        assert(x[0] == 0x0a);
        assert(escaped(r) =~= Seq::<u8>::empty());
        assert(escaped(x) =~= seq![0x0au8]);
    }
}

/// In a text that holds the escaped content of a chunk and a terminator
/// behind it, the content ends where the terminator begins: no line of
/// escaped text begins with `@`.
proof fn lemma_content_end_escaped(s: Seq<u8>, body: int, x: Seq<u8>, q: int)
    requires
        0 <= body <= q <= body + escaped(x).len(),
        body + escaped(x).len() + 3 <= s.len(),
        s.subrange(body, body + escaped(x).len()) == escaped(x),
        at_terminator(s, body + escaped(x).len()),
        x.len() == 0 || x.last() == 0x0a,
        q == body || s[q - 1] == 0x0a,
    ensures
        content_end(s, q) == Some(body + escaped(x).len()),
    decreases body + escaped(x).len() - q,
{
    let e = escaped(x);
    let end = body + e.len();
    if q < end {
        assert(s[q] == e[q - body]);
        if s[q] == 0x40 {
            lemma_escaped_at_follows_backslash(x, q - body);
            assert(s[q - 1] == e[q - body - 1]);
        }
        assert(!at_terminator(s, q));
        lemma_escaped_last(x);
        assert(s[end - 1] == e[e.len() - 1]);
        lemma_line_end(s, q);
        let le = line_end(s, q);
        assert(le <= end - 1);
        lemma_content_end_escaped(s, body, x, le + 1);
    }
}

/// The bytes of a header line, one part behind the other.
proof fn lemma_header_layout(s: Seq<u8>, p: int, c: ChunkView)
    requires
        0 <= p,
        p + header_line(c).len() <= s.len(),
        s.subrange(p, p + header_line(c).len()) == header_line(c),
    ensures
        ({
            let a = decimal(c.start_line as nat);
            let b = decimal(c.num_lines as nat);
            let path_to = p + 1 + c.path.len();
            let line_to = path_to + 1 + a.len();
            let count_to = line_to + 1 + b.len();
            &&& header_line(c).len() == c.path.len() + a.len() + b.len() + 4
            &&& s[p] == 0x40
            &&& s.subrange(p + 1, path_to) == c.path
            &&& s[path_to] == 0x3a
            &&& s.subrange(path_to + 1, line_to) == a
            &&& s[line_to] == 0x3a
            &&& s.subrange(line_to + 1, count_to) == b
            &&& s[count_to] == 0x0a
        }),
{
    let h = header_line(c);
    let a = decimal(c.start_line as nat);
    let b = decimal(c.num_lines as nat);
    let path_to = p + 1 + c.path.len();
    let line_to = path_to + 1 + a.len();
    let count_to = line_to + 1 + b.len();
    assert forall|j: int| 0 <= j < h.len() implies s[p + j] == h[j] by {
        assert(s.subrange(p, p + h.len())[j] == s[p + j]);
    }
    assert(h[0] == 0x40);
    assert(h[c.path.len() + 1int] == 0x3a);
    assert(h[path_to - p + 1 + a.len()] == 0x3a);
    assert(h[count_to - p] == 0x0a);
    assert(s.subrange(p + 1, path_to) =~= c.path) by {
        assert forall|j: int| 0 <= j < c.path.len() implies s[p + 1 + j] == c.path[j] by {
            assert(h[1 + j] == c.path[j]);
        }
    }
    assert(s.subrange(path_to + 1, line_to) =~= a) by {
        assert forall|j: int| 0 <= j < a.len() implies s[path_to + 1 + j] == a[j] by {
            assert(h[path_to - p + 1 + j] == a[j]);
        }
    }
    assert(s.subrange(line_to + 1, count_to) =~= b) by {
        assert forall|j: int| 0 <= j < b.len() implies s[line_to + 1 + j] == b[j] by {
            assert(h[line_to - p + 1 + j] == b[j]);
        }
    }
}

/// The header line of a writable chunk reads as the header of that chunk.
proof fn lemma_header_reads_back(s: Seq<u8>, p: int, c: ChunkView)
    requires
        writable(c),
        0 <= p,
        p + header_line(c).len() <= s.len(),
        s.subrange(p, p + header_line(c).len()) == header_line(c),
    ensures
        header_at(s, p) == Ok::<(Seq<u8>, usize, usize), ParseFailure>(
            (c.path, c.start_line as usize, c.num_lines as usize),
        ),
        next_line(s, p) == p + header_line(c).len(),
{
    lemma_header_layout(s, p, c);
    let a = decimal(c.start_line as nat);
    let b = decimal(c.num_lines as nat);
    let path_from = p + 1;
    let path_to = p + 1 + c.path.len();
    let line_from = path_to + 1;
    let line_to = path_to + 1 + a.len();
    let count_from = line_to + 1;
    let count_to = line_to + 1 + b.len();
    lemma_decimal(c.start_line as nat);
    lemma_decimal(c.num_lines as nat);
    lemma_number_in_decimal(c.start_line as usize);
    lemma_number_in_decimal(c.num_lines as usize);
    assert forall|j: int| path_from <= j < path_to implies s[j] != 0x3a && s[j] != 0x0a by {
        assert(s.subrange(path_from, path_to)[j - path_from] == s[j]);
        assert(c.path[j - path_from] != 0x3a && c.path[j - path_from] != 0x0a);
    }
    assert forall|j: int| line_from <= j < line_to implies s[j] != 0x3a && s[j] != 0x0a by {
        assert(s.subrange(line_from, line_to)[j - line_from] == s[j]);
        assert(is_digit(a[j - line_from]));
    }
    assert forall|j: int| count_from <= j < count_to implies s[j] != 0x3a && s[j] != 0x0a && !is_blank(
        s[j],
    ) by {
        assert(s.subrange(count_from, count_to)[j - count_from] == s[j]);
        assert(is_digit(b[j - count_from]));
    }
    lemma_line_end_is(s, p, count_to);
    lemma_field_end_is(s, path_from, path_to);
    lemma_field_end_is(s, line_from, line_to);
    assert(!is_blank(s[count_to - 1]));
    assert(trimmed_end(s, count_from, count_to) == count_to);
    assert(positive_in(a) == Some(c.start_line as usize));
    assert(positive_in(b) == Some(c.num_lines as usize));
}

/// The text of a writable chunk reads as that chunk.
proof fn lemma_chunk_reads_back(s: Seq<u8>, p: int, c: ChunkView)
    requires
        writable(c),
        0 <= p,
        p + chunk_text(c).len() <= s.len(),
        s.subrange(p, p + chunk_text(c).len()) == chunk_text(c),
    ensures
        chunk_at(s, p) == Ok::<(ChunkView, int), ParseFailure>((c, p + chunk_text(c).len())),
{
    let h = header_line(c);
    let e = escaped(c.content);
    let t = terminator_line();
    let text = chunk_text(c);
    if c.content.len() > 0 {
        lemma_escaped_last(c.content);
    } else {
        assert(e =~= Seq::<u8>::empty());
    }
    assert(on_own_lines(e) == e);
    assert(text == h + e + t);
    let body = p + h.len();
    let end = body + e.len();
    assert forall|j: int| 0 <= j < text.len() implies s[p + j] == text[j] by {
        assert(s.subrange(p, p + text.len())[j] == s[p + j]);
    }
    assert(s.subrange(p, p + h.len()) =~= h) by {
        assert forall|j: int| 0 <= j < h.len() implies s[p + j] == h[j] by {
            assert(text[j] == h[j]);
        }
    }
    assert(s.subrange(body, end) =~= e) by {
        assert forall|j: int| 0 <= j < e.len() implies s[body + j] == e[j] by {
            assert(text[h.len() + j] == e[j]);
        }
    }
    assert(at_terminator(s, end) && s[end + 3] == 0x0a) by {
        assert(text[end - p] == t[0]);
        assert(text[end - p + 1] == t[1]);
        assert(text[end - p + 2] == t[2]);
        assert(text[end - p + 3] == t[3]);
    }
    lemma_header_reads_back(s, p, c);
    lemma_content_end_escaped(s, body, c.content, body);
    lemma_unescape_escape(c.content);
    lemma_line_end_is(s, end, end + 3);
}

/// Reading a text that holds, from `p` on, the document of writable chunks
/// gives those chunks.
proof fn lemma_document_reads_back(s: Seq<u8>, p: int, chunks: Seq<ChunkView>)
    requires
        0 <= p <= s.len(),
        chunks.len() > 0,
        forall|i: int| 0 <= i < chunks.len() ==> writable(#[trigger] chunks[i]),
        s.subrange(p, s.len() as int) == document(chunks),
    ensures
        chunks_from(s, p) == Ok::<Seq<ChunkView>, ParseFailure>(chunks),
    decreases chunks.len(),
{
    let c = chunks[0];
    let text = chunk_text(c);
    let doc = document(chunks);
    let rest = chunks.drop_first();
    assert(writable(c));
    assert(text.len() > 0);
    assert(text[0] == 0x40);
    assert(doc.len() >= text.len() && doc[0] == text[0]) by {
        if chunks.len() > 1 {
            assert(doc == text + seq![0x0au8] + document(rest));
        }
    }
    assert(s.subrange(p, s.len() as int).len() == doc.len());
    assert(s.subrange(p, s.len() as int)[0] == s[p]);
    assert(skip_comments(s, p) == p);
    assert forall|j: int| 0 <= j < doc.len() implies s[p + j] == doc[j] by {
        assert(s.subrange(p, s.len() as int)[j] == s[p + j]);
    }
    assert(s.subrange(p, p + text.len()) =~= text) by {
        assert forall|j: int| 0 <= j < text.len() implies s[p + j] == text[j] by {
            assert(doc[j] == text[j]);
        }
    }
    lemma_chunk_reads_back(s, p, c);
    let next = p + text.len();
    if chunks.len() == 1 {
        assert(next == s.len());
        assert(chunks_from(s, next) == Ok::<Seq<ChunkView>, ParseFailure>(Seq::empty()));
        assert(seq![c] + Seq::<ChunkView>::empty() =~= chunks);
    } else {
        let more = document(rest);
        assert(doc == text + seq![0x0au8] + more);
        assert(rest.len() > 0);
        assert forall|i: int| 0 <= i < rest.len() implies writable(#[trigger] rest[i]) by {
            assert(rest[i] == chunks[i + 1]);
        }
        assert(s[next] == 0x0a) by {
            assert(doc[text.len() as int] == 0x0a);
        }
        assert(s.subrange(next + 1, s.len() as int) =~= more) by {
            assert forall|j: int| 0 <= j < more.len() implies s[next + 1 + j] == more[j] by {
                assert(doc[text.len() + 1 + j] == more[j]);
            }
        }
        assert(writable(rest[0]));
        assert(chunk_text(rest[0])[0] == 0x40);
        assert(more[0] == 0x40);
        assert(s[next + 1] == 0x40) by {
            assert(doc[next - p + 1] == more[0]);
        }
        assert(line_end(s, next) == next);
        assert(skip_comments(s, next + 1) == next + 1);
        assert(skip_comments(s, next) == next + 1);
        lemma_document_reads_back(s, next + 1, rest);
        assert(chunks_from(s, next) == chunks_from(s, next + 1));
        assert(seq![c] + rest =~= chunks);
    }
}

/// Reading undoes writing: the document of one writable chunk or more
/// reads as those chunks, with the same paths, lines, line counts and
/// contents, in the same order.
pub proof fn lemma_round_trip(chunks: Seq<ChunkView>)
    requires
        chunks.len() > 0,
        forall|i: int| 0 <= i < chunks.len() ==> writable(#[trigger] chunks[i]),
    ensures
        parsed(document(chunks)) == Ok::<Seq<ChunkView>, ParseFailure>(chunks),
{
    let doc = document(chunks);
    assert(doc.subrange(0, doc.len() as int) =~= doc);
    lemma_document_reads_back(doc, 0, chunks);
}

/// Appends a byte.
fn push_byte(out: &mut Vec<u8>, b: u8)
    requires
        b < 0x80,
    ensures
        final(out)@ == old(out)@ + seq![b],
        valid_utf8(old(out)@) ==> valid_utf8(final(out)@),
{
    out.push(b);
    proof {
        assert(out@ =~= old(out)@ + seq![b]);
        lemma_ascii_valid(seq![b]);
        if valid_utf8(old(out)@) {
            valid_utf8_concat(old(out)@, seq![b]);
        }
    }
}

/// Appends all of `src`.
fn push_all(out: &mut Vec<u8>, src: &[u8])
    ensures
        final(out)@ == old(out)@ + src@,
        valid_utf8(old(out)@) && valid_utf8(src@) ==> valid_utf8(final(out)@),
{
    append_range(out, src, 0, src.len());
    proof {
        assert(src@.subrange(0, src@.len() as int) =~= src@);
        if valid_utf8(old(out)@) && valid_utf8(src@) {
            valid_utf8_concat(old(out)@, src@);
        }
    }
}

/// Appends the decimal digits of `n`.
fn push_number(out: &mut Vec<u8>, n: usize)
    ensures
        final(out)@ == old(out)@ + decimal(n as nat),
        valid_utf8(old(out)@) ==> valid_utf8(final(out)@),
{
    push_decimal(out, n);
    proof {
        lemma_decimal(n as nat);
        let d = decimal(n as nat);
        assert forall|i: int| 0 <= i < d.len() implies #[trigger] d[i] < 0x80 by {
            assert(is_digit(d[i]));
        }
        lemma_ascii_valid(d);
        if valid_utf8(old(out)@) {
            valid_utf8_concat(old(out)@, d);
        }
    }
}

/// Appends the text of a chunk.
fn push_chunk(out: &mut Vec<u8>, chunk: &Chunk)
    ensures
        final(out)@ == old(out)@ + chunk_text(chunk@),
        valid_utf8(old(out)@) ==> valid_utf8(final(out)@),
{
    let ghost c = chunk@;
    let ghost start = out@;
    push_byte(out, 0x40);
    push_all(out, str_bytes(chunk.path.as_str()));
    push_byte(out, 0x3a);
    push_number(out, chunk.start_line);
    push_byte(out, 0x3a);
    push_number(out, chunk.num_lines);
    push_byte(out, 0x0a);
    assert(out@ =~= start + header_line(c));
    let content = escape_bytes(str_bytes(chunk.content.as_str()));
    push_all(out, content.as_slice());
    if content.len() > 0 && content[content.len() - 1] != 0x0a {
        push_byte(out, 0x0a);
        assert(on_own_lines(content@) =~= content@ + seq![0x0au8]);
    }
    assert(out@ =~= start + header_line(c) + on_own_lines(escaped(c.content)));
    push_byte(out, 0x40);
    push_byte(out, 0x40);
    push_byte(out, 0x40);
    push_byte(out, 0x0a);
    assert(out@ =~= start + chunk_text(c));
}

impl Format {
    /// The document as text: every chunk in its turn, as a header line, the
    /// escaped content and a terminator line, with an empty line between
    /// one chunk and the next.
    pub fn to_string(&self) -> (out: String)
        ensures
            bytes_of(out@) == document(self@),
    {
        let ghost all = self@;
        let n = self.0.len();
        let mut bytes: Vec<u8> = Vec::new();
        let mut i: usize = 0;
        assert(all.subrange(0, n as int) =~= all);
        while i < n
            invariant
                n == self.0@.len(),
                all == views(self.0@),
                i <= n,
                valid_utf8(bytes@),
                i == 0 ==> bytes@.len() == 0,
                bytes@ + (if 0 < i < n {
                    seq![0x0au8]
                } else {
                    Seq::<u8>::empty()
                }) + document(all.subrange(i as int, n as int)) == document(all),
            decreases n - i,
        {
            let ghost before = bytes@;
            let ghost tail = all.subrange(i as int, n as int);
            if i > 0 {
                push_byte(&mut bytes, 0x0a);
            }
            let ghost middle = bytes@;
            push_chunk(&mut bytes, &self.0[i]);
            proof {
                let c = all[i as int];
                assert(tail[0] == c);
                assert(tail.drop_first() =~= all.subrange(i + 1, n as int));
                let later = document(all.subrange(i + 1, n as int));
                if i + 1 < n {
                    assert(document(tail) == chunk_text(c) + seq![0x0au8] + later);
                    assert(bytes@ + seq![0x0au8] + later =~= middle + (chunk_text(c) + seq![0x0au8]
                        + later));
                } else {
                    assert(document(tail) == chunk_text(c));
                    assert(later =~= Seq::<u8>::empty());
                    assert(bytes@ + Seq::<u8>::empty() + later =~= middle + chunk_text(c));
                }
                if i > 0 {
                    assert(middle =~= before + seq![0x0au8]);
                } else {
                    assert(middle =~= before + Seq::<u8>::empty());
                }
            }
            i = i + 1;
        }
        proof {
            assert(all.subrange(n as int, n as int) =~= Seq::<ChunkView>::empty());
            assert(bytes@ + Seq::<u8>::empty() + Seq::<u8>::empty() =~= bytes@);
        }
        make_string(bytes)
    }
}

} // verus!
