//! The chunks of a document, file by file, and chunks made from matches.

use vstd::prelude::*;
use vstd::utf8::*;
use crate::format::sorting::{ordered, sorted_by_key};
use crate::format::types::{Chunk, ChunkView, Format, key_lt, lemma_lex_transitive, lemma_lex_trichotomy, lemma_same_bytes, lex_lt, views};
use crate::text::{append_range, bytes_of, lemma_ascii_valid, make_string, str_bytes};
use crate::types::{ContextLine, MatchResult};

verus! {

/// The chunks of each group, as views.
pub open spec fn group_views(groups: Seq<(&str, &[Chunk])>) -> Seq<Seq<ChunkView>> {
    groups.map_values(|g: (&str, &[Chunk])| views(g.1@))
}

/// The path of each group.
pub open spec fn group_paths(groups: Seq<(&str, &[Chunk])>) -> Seq<Seq<char>> {
    groups.map_values(|g: (&str, &[Chunk])| g.0@)
}

/// Every group holds one chunk or more, and each of its chunks names the
/// file that the group names.
pub open spec fn groups_by_path(groups: Seq<(&str, &[Chunk])>) -> bool {
    forall|i: int|
        0 <= i < groups.len() ==> (#[trigger] groups[i]).1@.len() > 0 && forall|j: int|
            0 <= j < groups[i].1@.len() ==> (#[trigger] groups[i].1@[j]).path@ == groups[i].0@
}

/// No group names the file that the group behind it names: each group is
/// as long as it can be.
pub open spec fn groups_maximal(groups: Seq<(&str, &[Chunk])>) -> bool {
    forall|i: int|
        0 <= i && i + 1 < groups.len() ==> (#[trigger] groups[i]).0@ != groups[i + 1].0@
}

/// The groups come in the order of their paths, and no two name one file.
pub open spec fn groups_rising(groups: Seq<(&str, &[Chunk])>) -> bool {
    forall|a: int, b: int|
        0 <= a < b < groups.len() ==> lex_lt(
            bytes_of((#[trigger] groups[a]).0@),
            bytes_of((#[trigger] groups[b]).0@),
        )
}

impl Format {
    /// Sorts the document and hands out its chunks file by file: each group
    /// is a path and the chunks of that path, one behind the other as the
    /// sorted document holds them. The groups come in the order of their
    /// paths.
    pub fn file_chunks(&mut self) -> (groups: Vec<(&str, &[Chunk])>)
        ensures
            final(self)@ == sorted_by_key(old(self)@),
            group_views(groups@).flatten() == final(self)@,
            groups_by_path(groups@),
            groups_maximal(groups@),
            groups_rising(groups@),
    {
        self.sort();
        let chunks: &[Chunk] = self.0.as_slice();
        let n = chunks.len();
        let mut groups: Vec<(&str, &[Chunk])> = Vec::new();
        assert(group_views(groups@) =~= Seq::<Seq<ChunkView>>::empty());
        assert(views(chunks@).subrange(0, 0) =~= Seq::<ChunkView>::empty());
        if n == 0 {
            assert(views(chunks@) =~= Seq::<ChunkView>::empty());
            return groups;
        }
        let mut start: usize = 0;
        let mut idx: usize = 1;
        while idx < n
            invariant
                n == chunks@.len(),
                0 <= start < idx <= n,
                forall|j: int|
                    start <= j < idx ==> (#[trigger] chunks@[j]).path@ == chunks@[start as int].path@,
                group_views(groups@).flatten() == views(chunks@).subrange(0, start as int),
                groups_by_path(groups@),
                groups_maximal(groups@),
                groups@.len() > 0 ==> groups@.last().0@ != chunks@[start as int].path@,
                ordered(views(chunks@)),
                groups_rising(groups@),
                forall|a: int|
                    0 <= a < groups@.len() ==> lex_lt(
                        bytes_of((#[trigger] groups@[a]).0@),
                        bytes_of(chunks@[start as int].path@),
                    ),
            decreases n - idx,
        {
            if chunks[idx].path != chunks[start].path {
                let ghost before = groups@;
                let group: &[Chunk] = vstd::slice::slice_subrange(chunks, start, idx);
                groups.push((chunks[start].path.as_str(), group));
                proof {
                    group_views(before).lemma_flatten_push(views(group@));
                    assert(group_views(groups@) =~= group_views(before).push(views(group@)));
                    assert(views(chunks@).subrange(0, start as int) + views(group@) =~= views(
                        chunks@,
                    ).subrange(0, idx as int));
                    assert forall|i: int| 0 <= i < groups@.len() implies (#[trigger] groups@[i]).1@.len()
                        > 0 && forall|j: int|
                        0 <= j < groups@[i].1@.len() ==> (#[trigger] groups@[i].1@[j]).path@
                            == groups@[i].0@ by {
                        if i < before.len() {
                            assert(groups@[i] == before[i]);
                        } else {
                            assert forall|j: int| 0 <= j < group@.len() implies (#[trigger] group@[j]).path@
                                == chunks@[start as int].path@ by {
                                assert(group@[j] == chunks@[start + j]);
                            }
                        }
                    }
                    assert forall|i: int| 0 <= i && i + 1 < groups@.len() implies (
                    #[trigger] groups@[i]).0@ != groups@[i + 1].0@ by {
                        if i + 1 < before.len() {
                            assert(groups@[i] == before[i] && groups@[i + 1] == before[i + 1]);
                        } else {
                            assert(groups@[i] == before.last());
                        }
                    }
                    let here = bytes_of(chunks@[start as int].path@);
                    let next = bytes_of(chunks@[idx as int].path@);
                    assert(lex_lt(here, next)) by {
                        let v = views(chunks@);
                        assert(!key_lt(v[idx as int], v[start as int]));
                        lemma_lex_trichotomy(here, next);
                        lemma_same_bytes(chunks@[start as int].path@, chunks@[idx as int].path@);
                    }
                    assert forall|a: int, b: int| 0 <= a < b < groups@.len() implies lex_lt(
                        bytes_of((#[trigger] groups@[a]).0@),
                        bytes_of((#[trigger] groups@[b]).0@),
                    ) by {
                        assert(groups@[a] == before[a]);
                        if b < before.len() {
                            assert(groups@[b] == before[b]);
                        }
                    }
                    assert forall|a: int| 0 <= a < groups@.len() implies lex_lt(
                        bytes_of((#[trigger] groups@[a]).0@),
                        next,
                    ) by {
                        if a < before.len() {
                            assert(groups@[a] == before[a]);
                            lemma_lex_transitive(bytes_of(before[a].0@), here, next);
                        }
                    }
                }
                start = idx;
            }
            idx = idx + 1;
        }
        let ghost before = groups@;
        let group: &[Chunk] = vstd::slice::slice_subrange(chunks, start, n);
        groups.push((chunks[start].path.as_str(), group));
        proof {
            group_views(before).lemma_flatten_push(views(group@));
            assert(group_views(groups@) =~= group_views(before).push(views(group@)));
            assert(views(chunks@).subrange(0, start as int) + views(group@) =~= views(chunks@));
            assert forall|i: int| 0 <= i < groups@.len() implies (#[trigger] groups@[i]).1@.len() > 0
                && forall|j: int|
                0 <= j < groups@[i].1@.len() ==> (#[trigger] groups@[i].1@[j]).path@
                    == groups@[i].0@ by {
                if i < before.len() {
                    assert(groups@[i] == before[i]);
                } else {
                    assert forall|j: int| 0 <= j < group@.len() implies (#[trigger] group@[j]).path@
                        == chunks@[start as int].path@ by {
                        assert(group@[j] == chunks@[start + j]);
                    }
                }
            }
            assert forall|i: int| 0 <= i && i + 1 < groups@.len() implies (#[trigger] groups@[i]).0@
                != groups@[i + 1].0@ by {
                if i + 1 < before.len() {
                    assert(groups@[i] == before[i] && groups@[i + 1] == before[i + 1]);
                } else {
                    assert(groups@[i] == before.last());
                }
            }
            assert forall|a: int, b: int| 0 <= a < b < groups@.len() implies lex_lt(
                bytes_of((#[trigger] groups@[a]).0@),
                bytes_of((#[trigger] groups@[b]).0@),
            ) by {
                assert(groups@[a] == before[a]);
                if b < before.len() {
                    assert(groups@[b] == before[b]);
                }
            }
        }
        groups
    }
}

/// The parts of a text, with a line feed between one part and the next.
pub open spec fn joined(parts: Seq<Seq<u8>>) -> Seq<u8>
    decreases parts.len(),
{
    if parts.len() == 0 {
        Seq::empty()
    } else if parts.len() == 1 {
        parts[0]
    } else {
        parts[0] + seq![0x0au8] + joined(parts.drop_first())
    }
}

/// The texts of context lines.
pub open spec fn contents(lines: Seq<ContextLine>) -> Seq<Seq<u8>> {
    lines.map_values(|l: ContextLine| bytes_of(l.content@))
}

/// The lines of a match: those before it, the matching line, those behind it.
pub open spec fn match_lines(m: MatchResult) -> Seq<Seq<u8>> {
    contents(m.context_before@) + seq![bytes_of(m.line_content@)] + contents(m.context_after@)
}

/// The chunk that stands for a match: it names the file of the match,
/// begins at the first context line, or at the matching line where no
/// context stands before it, covers as many lines as the match has with
/// its context, and holds those lines with a line feed between them.
pub open spec fn chunk_of_match(m: MatchResult) -> ChunkView {
    ChunkView {
        path: bytes_of(m.file_path@),
        start_line: if m.context_before@.len() > 0 {
            m.context_before@[0].line_number as int
        } else {
            m.line_number as int
        },
        num_lines: (m.context_before@.len() + 1 + m.context_after@.len()) as int,
        content: joined(match_lines(m)),
    }
}

/// The chunks that stand for matches.
pub open spec fn chunks_of_matches(matches: Seq<MatchResult>) -> Seq<ChunkView> {
    matches.map_values(|m: MatchResult| chunk_of_match(m))
}

/// A match has no more lines than `usize` counts.
pub open spec fn lines_countable(m: MatchResult) -> bool {
    m.context_before@.len() + 1 + m.context_after@.len() <= usize::MAX
}

/// The chunk that stands for a match.
fn chunk_from_match(m: &MatchResult) -> (c: Chunk)
    requires
        lines_countable(*m),
    ensures
        c@ == chunk_of_match(*m),
{
    let before = &m.context_before;
    let after = &m.context_after;
    let nb = before.len();
    let total: usize = nb + 1 + after.len();
    let ghost parts = match_lines(*m);
    let start_line = if nb > 0 { before[0].line_number } else { m.line_number };
    let mut out: Vec<u8> = Vec::new();
    let mut i: usize = 0;
    assert(parts.subrange(0, total as int) =~= parts);
    while i < total
        invariant
            nb == m.context_before@.len(),
            before == &m.context_before,
            after == &m.context_after,
            total == nb + 1 + m.context_after@.len(),
            parts == match_lines(*m),
            parts.len() == total,
            i <= total,
            valid_utf8(out@),
            out@ + (if 0 < i < total {
                seq![0x0au8]
            } else {
                Seq::<u8>::empty()
            }) + joined(parts.subrange(i as int, total as int)) == joined(parts),
        decreases total - i,
    {
        let ghost start = out@;
        if i > 0 {
            out.push(0x0a);
            proof {
                lemma_ascii_valid(seq![0x0au8]);
                valid_utf8_concat(start, seq![0x0au8]);
                assert(out@ =~= start + seq![0x0au8]);
            }
        }
        let ghost middle = out@;
        let part: &str = if i < nb {
            before[i].content.as_str()
        } else if i == nb {
            m.line_content.as_str()
        } else {
            after[i - nb - 1].content.as_str()
        };
        let bytes = str_bytes(part);
        append_range(&mut out, bytes, 0, bytes.len());
        proof {
            assert(bytes@ == parts[i as int]);
            assert(bytes@.subrange(0, bytes@.len() as int) =~= bytes@);
            valid_utf8_concat(middle, bytes@);
            let tail = parts.subrange(i as int, total as int);
            assert(tail[0] == parts[i as int]);
            assert(tail.drop_first() =~= parts.subrange(i + 1, total as int));
            let later = joined(parts.subrange(i + 1, total as int));
            if i + 1 < total {
                assert(joined(tail) == bytes@ + seq![0x0au8] + later);
                assert(out@ + seq![0x0au8] + later =~= middle + (bytes@ + seq![0x0au8] + later));
            } else {
                assert(joined(tail) == bytes@);
                assert(later =~= Seq::<u8>::empty());
                assert(out@ + Seq::<u8>::empty() + later =~= middle + bytes@);
            }
            if i == 0 {
                assert(middle =~= start + Seq::<u8>::empty());
            }
        }
        i = i + 1;
    }
    proof {
        assert(parts.subrange(total as int, total as int) =~= Seq::<Seq<u8>>::empty());
        assert(out@ + Seq::<u8>::empty() + Seq::<u8>::empty() =~= out@);
    }
    Chunk {
        path: m.file_path.clone(),
        start_line,
        num_lines: total,
        content: make_string(out),
    }
}

impl Format {
    /// The document that stands for the matches of a search: one chunk for
    /// each match, in the order of the matches.
    pub fn from_matches(matches: &[MatchResult]) -> (f: Format)
        requires
            forall|i: int| 0 <= i < matches@.len() ==> lines_countable(#[trigger] matches@[i]),
        ensures
            f@ == chunks_of_matches(matches@),
    {
        let mut chunks: Vec<Chunk> = Vec::new();
        let mut i: usize = 0;
        while i < matches.len()
            invariant
                i <= matches@.len(),
                forall|j: int| 0 <= j < matches@.len() ==> lines_countable(#[trigger] matches@[j]),
                views(chunks@) == chunks_of_matches(matches@).subrange(0, i as int),
            decreases matches@.len() - i,
        {
            let ghost before = views(chunks@);
            let c = chunk_from_match(&matches[i]);
            chunks.push(c);
            proof {
                assert(views(chunks@) =~= before.push(chunk_of_match(matches@[i as int])));
                assert(chunks_of_matches(matches@).subrange(0, i + 1) =~= chunks_of_matches(
                    matches@,
                ).subrange(0, i as int).push(chunk_of_match(matches@[i as int])));
            }
            i = i + 1;
        }
        assert(chunks_of_matches(matches@).subrange(0, matches@.len() as int) =~= chunks_of_matches(
            matches@,
        ));
        Format(chunks)
    }
}

} // verus!
