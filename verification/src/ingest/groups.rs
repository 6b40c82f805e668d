//! The lines asked for, file by file.

use vstd::prelude::*;
use crate::filesystem::FileSystem;
use crate::format::types::{Rank, lemma_lex_transitive, lemma_lex_trichotomy, lemma_same_bytes, lex_lt, rank_bytes};
use crate::ingest::{IngestError, Range, create_ranges, findings_from, lemma_finding_of_ranges, lemma_range_lines, lines_of_text, match_of_ranges, numbered_behind, process_read, ranges_from, reads_ranges};
use crate::text::{bytes_of, count_lines, str_bytes};
use crate::types::{IngestInput, MatchResult};

verus! {

/// Line `line` of the file `path` is asked for by one of the first `n` inputs.
pub open spec fn asked(inputs: Seq<IngestInput>, n: int, path: Seq<char>, line: usize) -> bool {
    exists|i: int|
        0 <= i < n && i < inputs.len() && (#[trigger] inputs[i]).file_path@ == path
            && inputs[i].line_number == line
}

/// A file is asked about by one of the first `n` inputs.
pub open spec fn names(inputs: Seq<IngestInput>, n: int, path: Seq<char>) -> bool {
    exists|i: int| 0 <= i < n && i < inputs.len() && (#[trigger] inputs[i]).file_path@ == path
}

/// Each number is greater than the number before it.
pub open spec fn rising(lines: Seq<usize>) -> bool {
    forall|i: int, j: int| 0 <= i < j < lines.len() ==> lines[i] < lines[j]
}

/// The table holds what the first `n` inputs ask for: its files come in the
/// order of their paths, each once; each file that an input names is
/// there; and each file has the lines asked for of it, in rising order,
/// each once.
#[verifier::opaque]
pub open spec fn holds_asked(table: Seq<(String, Vec<usize>)>, inputs: Seq<IngestInput>, n: int) -> bool {
    &&& forall|a: int, b: int|
        0 <= a < b < table.len() ==> lex_lt(
            bytes_of((#[trigger] table[a]).0@),
            bytes_of((#[trigger] table[b]).0@),
        )
    &&& forall|k: int| 0 <= k < table.len() ==> rising((#[trigger] table[k]).1@)
    &&& forall|k: int, x: usize|
        0 <= k < table.len() ==> ((#[trigger] table[k]).1@.contains(x) <==> #[trigger] asked(
            inputs,
            n,
            table[k].0@,
            x,
        ))
    &&& forall|k: int| 0 <= k < table.len() ==> names(inputs, n, (#[trigger] table[k]).0@)
    &&& forall|i: int|
        0 <= i < n && i < inputs.len() ==> exists|k: int|
            0 <= k < table.len() && (#[trigger] table[k]).0@ == (#[trigger] inputs[i]).file_path@
}

/// Puts a number into rising numbers, unless it is among them.
pub fn insert_line(lines: &mut Vec<usize>, x: usize)
    requires
        rising(old(lines)@),
    ensures
        rising(final(lines)@),
        forall|y: usize| final(lines)@.contains(y) <==> (y == x || old(lines)@.contains(y)),
{
    let mut p: usize = 0;
    while p < lines.len() && lines[p] < x
        invariant
            p <= lines@.len(),
            lines@ == old(lines)@,
            rising(lines@),
            forall|j: int| 0 <= j < p ==> lines@[j] < x,
        decreases lines@.len() - p,
    {
        p = p + 1;
    }
    let ghost before = lines@;
    if p < lines.len() && lines[p] == x {
        assert forall|y: usize| lines@.contains(y) <==> (y == x || before.contains(y)) by {
            assert(before[p as int] == x);
        }
    } else {
        lines.insert(p, x);
        proof {
            let after = lines@;
            assert forall|i: int, j: int| 0 <= i < j < after.len() implies after[i] < after[j] by {
                let bi = if i < p { i } else { i - 1 };
                let bj = if j < p { j } else { j - 1 };
                if i != p && j != p {
                    assert(after[i] == before[bi] && after[j] == before[bj]);
                } else if i == p {
                    assert(after[j] == before[bj]);
                    assert(before[p as int] <= before[bj]) by {
                        if bj > p {
                            assert(before[p as int] < before[bj]);
                        }
                    }
                } else {
                    assert(after[i] == before[bi]);
                }
            }
            assert forall|y: usize| after.contains(y) <==> (y == x || before.contains(y)) by {
                if after.contains(y) {
                    let i = choose|i: int| 0 <= i < after.len() && after[i] == y;
                    if i != p {
                        let bi = if i < p { i } else { i - 1 };
                        assert(before[bi] == y);
                    }
                }
                if before.contains(y) {
                    let i = choose|i: int| 0 <= i < before.len() && before[i] == y;
                    let ai = if i < p { i } else { i + 1 };
                    assert(after[ai] == y);
                }
                if y == x {
                    assert(after[p as int] == y);
                }
            }
        }
    }
}

/// The lines asked for, file by file: the files in the order of their
/// paths, and for each file its lines in rising order, each once.
pub fn group_inputs_by_path(inputs: &Vec<IngestInput>) -> (table: Vec<(String, Vec<usize>)>)
    ensures
        holds_asked(table@, inputs@, inputs@.len() as int),
{
    let mut table: Vec<(String, Vec<usize>)> = Vec::new();
    let mut n: usize = 0;
    proof {
        reveal(holds_asked);
    }
    while n < inputs.len()
        invariant
            n <= inputs@.len(),
            holds_asked(table@, inputs@, n as int),
        decreases inputs@.len() - n,
    {
        let path: &str = inputs[n].file_path.as_str();
        let line: usize = inputs[n].line_number;
        let ghost before = table@;
        let mut k: usize = 0;
        let mut same = false;
        while k < table.len()
            invariant_except_break
                !same,
            invariant
                k <= table@.len(),
                table@ == before,
                holds_asked(before, inputs@, n as int),
                forall|j: int|
                    0 <= j < k ==> lex_lt(bytes_of((#[trigger] table@[j]).0@), bytes_of(path@)),
            ensures
                k <= table@.len(),
                table@ == before,
                forall|j: int|
                    0 <= j < k ==> lex_lt(bytes_of((#[trigger] table@[j]).0@), bytes_of(path@)),
                same ==> k < table@.len() && table@[k as int].0@ == path@,
                !same && k < table@.len() ==> lex_lt(bytes_of(path@), bytes_of(table@[k as int].0@)),
            decreases table@.len() - k,
        {
            proof {
                lemma_same_bytes(table@[k as int].0@, path@);
            }
            match rank_bytes(str_bytes(table[k].0.as_str()), str_bytes(path)) {
                Rank::Before => {
                    k = k + 1;
                },
                Rank::Same => {
                    same = true;
                    break ;
                },
                Rank::After => {
                    break ;
                },
            }
        }
        if same {
            proof {
                reveal(holds_asked);
            }
            let ghost old_lines = table@[k as int].1@;
            let mut entry = table.remove(k);
            insert_line(&mut entry.1, line);
            let ghost new_lines = entry.1@;
            table.insert(k, entry);
            proof {
                let after = table@;
                assert(after.len() == before.len());
                assert forall|j: int| 0 <= j < after.len() implies (#[trigger] after[j]).0@
                    == before[j].0@ && (j != k ==> after[j] == before[j]) by {}
                lemma_table_same(before, after, inputs@, n as int, k as int, old_lines, new_lines);
            }
        } else {
            let mut lines: Vec<usize> = Vec::new();
            lines.push(line);
            table.insert(k, (path.to_owned(), lines));
            proof {
                lemma_table_new(before, table@, inputs@, n as int, k as int);
            }
        }
        n = n + 1;
    }
    table
}

/// The table once a line is put among the lines of a file that it holds.
proof fn lemma_table_same(
    before: Seq<(String, Vec<usize>)>,
    after: Seq<(String, Vec<usize>)>,
    inputs: Seq<IngestInput>,
    n: int,
    k: int,
    old_lines: Seq<usize>,
    new_lines: Seq<usize>,
)
    requires
        0 <= n < inputs.len(),
        0 <= k < before.len(),
        after.len() == before.len(),
        holds_asked(before, inputs, n),
        before[k].0@ == inputs[n].file_path@,
        before[k].1@ == old_lines,
        after[k].1@ == new_lines,
        rising(new_lines),
        forall|y: usize| new_lines.contains(y) <==> (y == inputs[n].line_number
            || old_lines.contains(y)),
        forall|j: int| 0 <= j < after.len() ==> (#[trigger] after[j]).0@ == before[j].0@ && (j != k
            ==> after[j] == before[j]),
    ensures
        holds_asked(after, inputs, n + 1),
{
    reveal(holds_asked);
    let p = inputs[n].file_path@;
    let x = inputs[n].line_number;
    assert forall|a: int, b: int| 0 <= a < b < after.len() implies lex_lt(
        bytes_of((#[trigger] after[a]).0@),
        bytes_of((#[trigger] after[b]).0@),
    ) by {
        assert(after[a].0@ == before[a].0@ && after[b].0@ == before[b].0@);
    }
    assert forall|j: int| 0 <= j < after.len() implies rising((#[trigger] after[j]).1@) by {
        if j != k {
            assert(after[j] == before[j]);
        }
    }
    assert forall|j: int, y: usize| 0 <= j < after.len() implies ((#[trigger] after[j]).1@.contains(
        y,
    ) <==> #[trigger] asked(inputs, n + 1, after[j].0@, y)) by {
        let q = after[j].0@;
        assert(q == before[j].0@);
        assert(before[j].1@.contains(y) <==> asked(inputs, n, q, y));
        if asked(inputs, n + 1, q, y) {
            let i = choose|i: int|
                0 <= i < n + 1 && i < inputs.len() && (#[trigger] inputs[i]).file_path@ == q
                    && inputs[i].line_number == y;
            if i < n {
                assert(asked(inputs, n, q, y));
            }
        }
        if asked(inputs, n, q, y) {
            let i = choose|i: int|
                0 <= i < n && i < inputs.len() && (#[trigger] inputs[i]).file_path@ == q
                    && inputs[i].line_number == y;
            assert(0 <= i < n + 1);
        }
        if j == k {
            if y == x {
                assert(inputs[n].file_path@ == q && inputs[n].line_number == y);
            }
        } else {
            assert(after[j] == before[j]);
            if q == p {
                lemma_lex_trichotomy(bytes_of(before[j].0@), bytes_of(before[k].0@));
                if j < k {
                    assert(lex_lt(bytes_of(before[j].0@), bytes_of(before[k].0@)));
                } else {
                    assert(lex_lt(bytes_of(before[k].0@), bytes_of(before[j].0@)));
                }
            }
        }
    }
    assert forall|j: int| 0 <= j < after.len() implies names(inputs, n + 1, (#[trigger] after[j]).0@) by {
        assert(names(inputs, n, before[j].0@));
        let i = choose|i: int|
            0 <= i < n && i < inputs.len() && (#[trigger] inputs[i]).file_path@ == before[j].0@;
        assert(0 <= i < n + 1);
    }
    assert forall|i: int| 0 <= i < n + 1 && i < inputs.len() implies exists|j: int|
        0 <= j < after.len() && (#[trigger] after[j]).0@ == (#[trigger] inputs[i]).file_path@ by {
        if i < n {
            let j = choose|j: int|
                0 <= j < before.len() && (#[trigger] before[j]).0@ == inputs[i].file_path@;
            assert(after[j].0@ == inputs[i].file_path@);
        } else {
            assert(after[k].0@ == inputs[i].file_path@);
        }
    }
}

/// The table once a file that it did not hold is put in its place.
proof fn lemma_table_new(
    before: Seq<(String, Vec<usize>)>,
    after: Seq<(String, Vec<usize>)>,
    inputs: Seq<IngestInput>,
    n: int,
    k: int,
)
    requires
        0 <= n < inputs.len(),
        0 <= k <= before.len(),
        holds_asked(before, inputs, n),
        after.len() == before.len() + 1,
        after[k].0@ == inputs[n].file_path@,
        after[k].1@ == seq![inputs[n].line_number],
        forall|j: int| 0 <= j < k ==> after[j] == before[j],
        forall|j: int| k < j < after.len() ==> after[j] == before[j - 1],
        forall|j: int|
            0 <= j < k ==> lex_lt(bytes_of((#[trigger] before[j]).0@), bytes_of(inputs[n].file_path@)),
        k < before.len() ==> lex_lt(bytes_of(inputs[n].file_path@), bytes_of(before[k].0@)),
    ensures
        holds_asked(after, inputs, n + 1),
{
    reveal(holds_asked);
    let p = inputs[n].file_path@;
    let x = inputs[n].line_number;
    assert forall|j: int| 0 <= j < before.len() implies (#[trigger] before[j]).0@ != p by {
        lemma_lex_trichotomy(bytes_of(before[j].0@), bytes_of(p));
        if j >= k {
            if j > k {
                assert(lex_lt(bytes_of(before[k].0@), bytes_of(before[j].0@)));
                lemma_lex_transitive(bytes_of(p), bytes_of(before[k].0@), bytes_of(before[j].0@));
            }
            lemma_lex_trichotomy(bytes_of(p), bytes_of(before[j].0@));
        }
    }
    assert(!names(inputs, n, p)) by {
        if names(inputs, n, p) {
            let i = choose|i: int|
                0 <= i < n && i < inputs.len() && (#[trigger] inputs[i]).file_path@ == p;
            let j = choose|j: int|
                0 <= j < before.len() && (#[trigger] before[j]).0@ == inputs[i].file_path@;
            assert(before[j].0@ != p);
        }
    }
    assert forall|a: int, b: int| 0 <= a < b < after.len() implies lex_lt(
        bytes_of((#[trigger] after[a]).0@),
        bytes_of((#[trigger] after[b]).0@),
    ) by {
        let ba = if a < k { a } else { a - 1 };
        let bb = if b < k { b } else { b - 1 };
        if a != k && b != k {
            assert(after[a] == before[ba] && after[b] == before[bb]);
            assert(lex_lt(bytes_of(before[ba].0@), bytes_of(before[bb].0@)));
        } else if a == k {
            assert(after[b] == before[bb]);
            if bb > k {
                assert(lex_lt(bytes_of(before[k].0@), bytes_of(before[bb].0@)));
                lemma_lex_transitive(bytes_of(p), bytes_of(before[k].0@), bytes_of(before[bb].0@));
            }
        } else {
            assert(after[a] == before[ba]);
        }
    }
    assert forall|j: int| 0 <= j < after.len() implies rising((#[trigger] after[j]).1@) by {
        if j != k {
            let bj = if j < k { j } else { j - 1 };
            assert(after[j] == before[bj]);
        }
    }
    assert forall|j: int, y: usize| 0 <= j < after.len() implies ((#[trigger] after[j]).1@.contains(
        y,
    ) <==> #[trigger] asked(inputs, n + 1, after[j].0@, y)) by {
        let q = after[j].0@;
        if asked(inputs, n + 1, q, y) {
            let i = choose|i: int|
                0 <= i < n + 1 && i < inputs.len() && (#[trigger] inputs[i]).file_path@ == q
                    && inputs[i].line_number == y;
            if i < n {
                assert(asked(inputs, n, q, y));
                assert(names(inputs, n, q));
            }
        }
        if j == k {
            if y == x {
                assert(after[k].1@[0] == y);
                assert(inputs[n].file_path@ == q && inputs[n].line_number == y);
            }
            if after[k].1@.contains(y) {
                assert(y == x);
            }
        } else {
            let bj = if j < k { j } else { j - 1 };
            assert(after[j] == before[bj]);
            assert(q != p);
            assert(before[bj].1@.contains(y) <==> asked(inputs, n, q, y));
            if asked(inputs, n, q, y) {
                let i = choose|i: int|
                    0 <= i < n && i < inputs.len() && (#[trigger] inputs[i]).file_path@ == q
                        && inputs[i].line_number == y;
                assert(0 <= i < n + 1);
            }
        }
    }
    assert forall|j: int| 0 <= j < after.len() implies names(inputs, n + 1, (#[trigger] after[j]).0@) by {
        if j == k {
            assert(inputs[n].file_path@ == after[j].0@);
        } else {
            let bj = if j < k { j } else { j - 1 };
            assert(after[j] == before[bj]);
            assert(names(inputs, n, before[bj].0@));
            let i = choose|i: int|
                0 <= i < n && i < inputs.len() && (#[trigger] inputs[i]).file_path@
                    == before[bj].0@;
            assert(0 <= i < n + 1);
        }
    }
    assert forall|i: int| 0 <= i < n + 1 && i < inputs.len() implies exists|j: int|
        0 <= j < after.len() && (#[trigger] after[j]).0@ == (#[trigger] inputs[i]).file_path@ by {
        if i < n {
            let j = choose|j: int|
                0 <= j < before.len() && (#[trigger] before[j]).0@ == inputs[i].file_path@;
            let aj = if j < k { j } else { j + 1 };
            assert(after[aj] == before[j]);
            assert(after[aj].0@ == inputs[i].file_path@);
        } else {
            assert(after[k].0@ == inputs[i].file_path@);
        }
    }
}

/// The ranges of each file follow from the lines asked for of it.
pub open spec fn ranges_of_table(
    groups: Seq<(String, Vec<Range>)>,
    table: Seq<(String, Vec<usize>)>,
    context: int,
) -> bool {
    &&& groups.len() == table.len()
    &&& forall|k: int|
        0 <= k < groups.len() ==> (#[trigger] groups[k]).0@ == table[k].0@ && groups[k].1@
            == ranges_from(table[k].1@, 0, 1, context)
}

/// The ranges to read, file by file: the files in the order of their paths,
/// and for each file the ranges around the lines asked for of it.
pub fn group_inputs_by_path_and_create_ranges(inputs: Vec<IngestInput>, context: usize) -> (groups:
    Vec<(String, Vec<Range>)>)
    ensures
        exists|table: Seq<(String, Vec<usize>)>|
            holds_asked(table, inputs@, inputs@.len() as int) && ranges_of_table(
                groups@,
                table,
                context as int,
            ),
{
    let table = group_inputs_by_path(&inputs);
    let mut groups: Vec<(String, Vec<Range>)> = Vec::new();
    let mut k: usize = 0;
    while k < table.len()
        invariant
            k <= table@.len(),
            groups@.len() == k,
            forall|j: int|
                0 <= j < k ==> (#[trigger] groups@[j]).0@ == table@[j].0@ && groups@[j].1@
                    == ranges_from(table@[j].1@, 0, 1, context as int),
        decreases table@.len() - k,
    {
        let ghost held = groups@;
        let ranges = create_ranges(table[k].1.as_slice(), context);
        groups.push((table[k].0.clone(), ranges));
        proof {
            assert forall|j: int| 0 <= j < k + 1 implies (#[trigger] groups@[j]).0@ == table@[j].0@
                && groups@[j].1@ == ranges_from(table@[j].1@, 0, 1, context as int) by {
                if j < k {
                    assert(groups@[j] == held[j]);
                }
            }
        }
        k = k + 1;
    }
    assert(ranges_of_table(groups@, table@, context as int));
    groups
}

/// The match answers one of the inputs: it names the file and the line of
/// an input, names no part of the line, and holds that line and the lines
/// around it as the file system holds them, numbered one behind the other.
pub open spec fn answers<FS: FileSystem>(fs: FS, m: MatchResult, inputs: Seq<IngestInput>) -> bool {
    &&& asked(inputs, inputs.len() as int, m.file_path@, m.line_number)
    &&& m.line_match is None
    &&& numbered_behind(m)
    &&& fs.readable(m.file_path@)
    &&& lines_of_text(m, fs.holds()[m.file_path@])
}

/// Every file that an input names can be read.
pub open spec fn all_readable<FS: FileSystem>(fs: FS, inputs: Seq<IngestInput>) -> bool {
    forall|i: int| 0 <= i < inputs.len() ==> fs.readable((#[trigger] inputs[i]).file_path@)
}

/// The failure is one that looking up the inputs can end with: a file of
/// an input cannot be read; or the lines of a file cannot be numbered; or
/// a file of an input can be read and ends before a line that must be
/// read.
pub open spec fn fails_on<FS: FileSystem>(fs: FS, e: IngestError, inputs: Seq<IngestInput>) -> bool {
    match e {
        IngestError::FileReadError { .. } => !all_readable(fs, inputs),
        IngestError::LineReadError { .. } => true,
        IngestError::UnexpectedEOF { path, .. } => names(inputs, inputs.len() as int, path@)
            && fs.readable(path@),
    }
}

/// `outcome` is the outcome of looking up `ranges` in the file `path`: the
/// failure to read it, or what `process_file` makes of the text that the
/// file system holds for it.
pub open spec fn lookup_of<FS: FileSystem>(
    fs: FS,
    path: Seq<char>,
    ranges: Seq<Range>,
    outcome: Result<Vec<MatchResult>, IngestError>,
) -> bool {
    if fs.readable(path) {
        reads_ranges(outcome, path, fs.holds()[path], ranges)
    } else {
        outcome matches Err(e) && e is FileReadError
    }
}

/// The matches of all outcomes, those of one file behind those of the file
/// before it.
pub open spec fn all_looked_up(outcomes: Seq<Result<Vec<MatchResult>, IngestError>>) -> Seq<
    MatchResult,
>
    decreases outcomes.len(),
{
    if outcomes.len() == 0 {
        Seq::empty()
    } else {
        all_looked_up(outcomes.drop_last()) + match outcomes.last() {
            Ok(found) => found@,
            Err(_) => Seq::empty(),
        }
    }
}

/// `r` is what looking up the files of the table comes to, and `outcomes`
/// are the outcomes of the files that were read: the files are read in
/// the order of the table until one fails; the failure of that file is the
/// result; where none fails, the result holds the matches of all files.
pub open spec fn ingested<FS: FileSystem>(
    fs: FS,
    table: Seq<(String, Vec<usize>)>,
    context: int,
    outcomes: Seq<Result<Vec<MatchResult>, IngestError>>,
    r: Result<Vec<MatchResult>, IngestError>,
) -> bool {
    &&& outcomes.len() <= table.len()
    &&& forall|k: int|
        0 <= k < outcomes.len() ==> lookup_of(
            fs,
            table[k].0@,
            ranges_from(table[k].1@, 0, 1, context),
            #[trigger] outcomes[k],
        )
    &&& forall|k: int| 0 <= k && k + 1 < outcomes.len() ==> #[trigger] outcomes[k] is Ok
    &&& if outcomes.len() > 0 && outcomes.last() is Err {
        r == Err::<Vec<MatchResult>, IngestError>(outcomes.last()->Err_0)
    } else {
        outcomes.len() == table.len() && (r matches Ok(found) && found@ == all_looked_up(outcomes))
    }
}

/// A match for the line of a range of a file of the table answers an input.
proof fn lemma_match_answers<FS: FileSystem>(
    fs: FS,
    m: MatchResult,
    table: Seq<(String, Vec<usize>)>,
    inputs: Seq<IngestInput>,
    k: int,
    ranges: Seq<Range>,
    context: int,
)
    requires
        holds_asked(table, inputs, inputs.len() as int),
        0 <= k < table.len(),
        ranges == ranges_from(table[k].1@, 0, 1, context),
        fs.readable(table[k].0@),
        match_of_ranges(m, table[k].0@, ranges, fs.holds()[table[k].0@]),
    ensures
        answers(fs, m, inputs),
{
    reveal(holds_asked);
    let j = choose|j: int| 0 <= j < ranges.len() && m.line_number == (#[trigger] ranges[j]).line;
    lemma_range_lines(table[k].1@, 0, 1, context, j);
    let lines = table[k].1@;
    let at = choose|at: int| 0 <= at < lines.len() && ranges[j].line == #[trigger] lines[at];
    assert(lines.contains(m.line_number));
    assert(asked(inputs, inputs.len() as int, table[k].0@, m.line_number));
}

/// Where every file of the table can be read, every file of an input can.
proof fn lemma_all_readable<FS: FileSystem>(
    fs: FS,
    table: Seq<(String, Vec<usize>)>,
    inputs: Seq<IngestInput>,
)
    requires
        holds_asked(table, inputs, inputs.len() as int),
        forall|k: int| 0 <= k < table.len() ==> fs.readable((#[trigger] table[k]).0@),
    ensures
        all_readable(fs, inputs),
{
    reveal(holds_asked);
    assert forall|i: int| 0 <= i < inputs.len() implies fs.readable(
        (#[trigger] inputs[i]).file_path@,
    ) by {
        let k = choose|k: int|
            0 <= k < table.len() && (#[trigger] table[k]).0@ == inputs[i].file_path@;
        assert(fs.readable(table[k].0@));
    }
}

/// A file of the table that cannot be read is a file of an input.
proof fn lemma_not_readable<FS: FileSystem>(
    fs: FS,
    table: Seq<(String, Vec<usize>)>,
    inputs: Seq<IngestInput>,
    k: int,
)
    requires
        holds_asked(table, inputs, inputs.len() as int),
        0 <= k < table.len(),
        !fs.readable(table[k].0@),
    ensures
        !all_readable(fs, inputs),
        names(inputs, inputs.len() as int, table[k].0@),
{
    reveal(holds_asked);
    assert(names(inputs, inputs.len() as int, table[k].0@));
    let i = choose|i: int|
        0 <= i < inputs.len() && (#[trigger] inputs[i]).file_path@ == table[k].0@;
    assert(!fs.readable(inputs[i].file_path@));
}

/// Looks up the lines asked for, each with `context` lines before and
/// behind it: the files are read in the order of their paths, each once.
/// The first file that cannot be read, or that ends before a line that
/// must be read, ends the lookup with its failure: `process_read` says
/// what becomes of each file. Every match that is found answers one of the
/// inputs, with the lines that the file system holds; then every file of
/// an input could be read. With no input, nothing is read and nothing is
/// found.
pub fn ingest<FS: FileSystem>(fs: &FS, inputs: Vec<IngestInput>, context: usize) -> (r: Result<
    Vec<MatchResult>,
    IngestError,
>)
    ensures
        inputs@.len() == 0 ==> (r matches Ok(found) && found@.len() == 0),
        r matches Ok(found) ==> all_readable(*fs, inputs@) && forall|k: int|
            0 <= k < found@.len() ==> answers(*fs, #[trigger] found@[k], inputs@),
        r matches Err(e) ==> fails_on(*fs, e, inputs@),
        exists|table: Seq<(String, Vec<usize>)>, outcomes: Seq<Result<Vec<MatchResult>, IngestError>>|
            holds_asked(table, inputs@, inputs@.len() as int) && ingested(
                *fs,
                table,
                context as int,
                outcomes,
                r,
            ),
{
    let ghost asked_for = inputs@;
    let groups = group_inputs_by_path_and_create_ranges(inputs, context);
    let ghost table = choose|table: Seq<(String, Vec<usize>)>|
        holds_asked(table, asked_for, asked_for.len() as int) && ranges_of_table(
            groups@,
            table,
            context as int,
        );
    proof {
        if asked_for.len() == 0 && table.len() > 0 {
            reveal(holds_asked);
            assert(names(asked_for, 0, table[0].0@));
        }
    }
    let mut matches: Vec<MatchResult> = Vec::new();
    let ghost outcomes = Seq::<Result<Vec<MatchResult>, IngestError>>::empty();
    assert(matches@ =~= all_looked_up(outcomes));
    let mut k: usize = 0;
    while k < groups.len()
        invariant
            k <= groups@.len(),
            outcomes.len() == k,
            forall|j: int|
                0 <= j < k ==> (#[trigger] outcomes[j]) is Ok && lookup_of(
                    *fs,
                    table[j].0@,
                    ranges_from(table[j].1@, 0, 1, context as int),
                    outcomes[j],
                ),
            matches@ == all_looked_up(outcomes),
            asked_for == inputs@,
            holds_asked(table, asked_for, asked_for.len() as int),
            ranges_of_table(groups@, table, context as int),
            asked_for.len() == 0 ==> groups@.len() == 0,
            k == 0 ==> matches@.len() == 0,
            forall|j: int| 0 <= j < k ==> fs.readable((#[trigger] table[j]).0@),
            forall|j: int|
                0 <= j < matches@.len() ==> answers(*fs, #[trigger] matches@[j], asked_for),
        decreases groups@.len() - k,
    {
        let path: &str = groups[k].0.as_str();
        let ranges: &[Range] = groups[k].1.as_slice();
        let read = fs.read_to_string(path);
        let ghost held = matches@;
        let ghost text = read;
        let outcome = process_read(path, read, ranges);
        let ghost given = outcome;
        let ghost before = outcomes;
        proof {
            outcomes = outcomes.push(given);
            assert(outcomes.drop_last() =~= before);
            assert(lookup_of(
                *fs,
                table[k as int].0@,
                ranges_from(table[k as int].1@, 0, 1, context as int),
                given,
            ));
        }
        match outcome {
            Err(e) => {
                proof {
                    assert(ingested(*fs, table, context as int, outcomes, Err(e)));
                    if fs.readable(path@) {
                        reveal(holds_asked);
                        assert(names(asked_for, asked_for.len() as int, table[k as int].0@));
                    } else {
                        lemma_not_readable(*fs, table, asked_for, k as int);
                    }
                }
                return Err(e);
            },
            Ok(mut found) => {
                let ghost added = found@;
                matches.append(&mut found);
                proof {
                    assert(outcomes.last() == given);
                    assert(matches@ == all_looked_up(outcomes));
                    let content = bytes_of(text->Ok_0@);
                    let findings = findings_from(count_lines(content, 0) as int, 1, ranges@, 0)->Some_0;
                    assert forall|j: int| 0 <= j < matches@.len() implies answers(
                        *fs,
                        #[trigger] matches@[j],
                        asked_for,
                    ) by {
                        if j < held.len() {
                            assert(matches@[j] == held[j]);
                        } else {
                            let m = added[j - held.len()];
                            assert(matches@[j] == m);
                            lemma_finding_of_ranges(
                                m,
                                findings[j - held.len()],
                                ranges@,
                                content,
                                path@,
                            );
                            lemma_match_answers(
                                *fs,
                                m,
                                table,
                                asked_for,
                                k as int,
                                ranges@,
                                context as int,
                            );
                        }
                    }
                }
            },
        }
        k = k + 1;
    }
    proof {
        lemma_all_readable(*fs, table, asked_for);
        assert(ingested(*fs, table, context as int, outcomes, Ok(matches)));
    }
    Ok(matches)
}

} // verus!
