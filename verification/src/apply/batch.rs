//! What applying a document to the files of a file system comes to, file
//! by file.

use vstd::prelude::*;
use vstd::utf8::*;
use crate::apply::{ApplyError, applied, apply_failures};
use crate::filesystem::FileSystem;
use crate::format::types::{ChunkView, lemma_same_bytes};
use crate::text::bytes_of;

verus! {

/// The chunks of `doc` that name the file `path`, in the order of the
/// document.
pub open spec fn chunks_for(doc: Seq<ChunkView>, path: Seq<char>) -> Seq<ChunkView>
    decreases doc.len(),
{
    if doc.len() == 0 {
        Seq::empty()
    } else {
        let rest = chunks_for(doc.drop_last(), path);
        if doc.last().path == bytes_of(path) {
            rest.push(doc.last())
        } else {
            rest
        }
    }
}

/// A chunk of `doc` names the file `path`.
pub open spec fn is_named(doc: Seq<ChunkView>, path: Seq<char>) -> bool {
    chunks_for(doc, path).len() > 0
}

/// The files that a document names, in the order of the document; a file
/// that chunks name one behind the other is listed once. In a sorted
/// document that is every file once.
pub open spec fn paths_named(doc: Seq<ChunkView>) -> Seq<Seq<char>>
    decreases doc.len(),
{
    if doc.len() == 0 {
        Seq::empty()
    } else {
        let rest = paths_named(doc.drop_last());
        if doc.len() >= 2 && doc[doc.len() - 2].path == doc.last().path {
            rest
        } else {
            rest.push(decode_utf8(doc.last().path))
        }
    }
}

/// The file `path` can be read, no check finds fault with the chunks that
/// `doc` has for it, and it can be written.
pub open spec fn file_passes<FS: FileSystem>(fs: FS, doc: Seq<ChunkView>, path: Seq<char>) -> bool {
    &&& fs.readable(path)
    &&& apply_failures(chunks_for(doc, path), fs.holds()[path]).len() == 0
    &&& fs.writable(path)
}

/// The files after `doc` is applied to those of `fs`: a file that `doc`
/// names and that passes holds its content with the chunks applied; every
/// other file holds what it held.
pub open spec fn after_batch<FS: FileSystem>(fs: FS, doc: Seq<ChunkView>) -> Map<
    Seq<char>,
    Seq<u8>,
> {
    Map::new(
        |p: Seq<char>| fs.holds().dom().contains(p),
        |p: Seq<char>|
            if is_named(doc, p) && file_passes(fs, doc, p) {
                applied(fs.holds()[p], chunks_for(doc, p))
            } else {
                fs.holds()[p]
            },
    )
}

/// `e` is the failure to read or write the file `path`.
pub open spec fn names_modify(e: ApplyError, path: Seq<char>) -> bool {
    e matches ApplyError::ModifyError { path: p, .. } && p@ == path
}

/// The number of failures that the file `path` adds.
pub open spec fn failure_count<FS: FileSystem>(fs: FS, doc: Seq<ChunkView>, path: Seq<char>) -> nat {
    let found = apply_failures(chunks_for(doc, path), fs.holds()[path]);
    if !fs.readable(path) {
        1
    } else if found.len() > 0 {
        found.len()
    } else if !fs.writable(path) {
        1
    } else {
        0
    }
}

/// `errs` are the failures that the file `path` adds: the failure to read
/// it; or what the checks find on the content that was read; or, where
/// they find nothing, the failure to write it; or nothing.
pub open spec fn file_failures<FS: FileSystem>(
    fs: FS,
    doc: Seq<ChunkView>,
    path: Seq<char>,
    errs: Seq<ApplyError>,
) -> bool {
    let found = apply_failures(chunks_for(doc, path), fs.holds()[path]);
    if !fs.readable(path) {
        errs.len() == 1 && names_modify(errs[0], path)
    } else if found.len() > 0 {
        errs == found
    } else if !fs.writable(path) {
        errs.len() == 1 && names_modify(errs[0], path)
    } else {
        errs.len() == 0
    }
}

/// `errs` are the failures that the files `paths` add, file by file.
pub open spec fn batch_failures<FS: FileSystem>(
    fs: FS,
    doc: Seq<ChunkView>,
    paths: Seq<Seq<char>>,
    errs: Seq<ApplyError>,
) -> bool
    decreases paths.len(),
{
    if paths.len() == 0 {
        errs.len() == 0
    } else {
        let count = failure_count(fs, doc, paths.last());
        &&& count <= errs.len()
        &&& batch_failures(fs, doc, paths.drop_last(), errs.subrange(0, errs.len() - count))
        &&& file_failures(fs, doc, paths.last(), errs.subrange(errs.len() - count, errs.len() as int))
    }
}

/// Every file of `paths` passes.
pub open spec fn all_pass<FS: FileSystem>(fs: FS, doc: Seq<ChunkView>, paths: Seq<Seq<char>>) -> bool {
    forall|k: int| 0 <= k < paths.len() ==> file_passes(fs, doc, #[trigger] paths[k])
}

/// The groups are the chunks of the files `paths`: each holds one chunk or
/// more, all of its file, and no two files are the same.
pub open spec fn grouped(groups: Seq<Seq<ChunkView>>, paths: Seq<Seq<char>>) -> bool {
    &&& groups.len() == paths.len()
    &&& forall|k: int| 0 <= k < groups.len() ==> (#[trigger] groups[k]).len() > 0
    &&& forall|k: int, j: int|
        0 <= k < groups.len() && 0 <= j < groups[k].len() ==> (#[trigger] groups[k][j]).path
            == bytes_of(paths[k])
    &&& forall|a: int, b: int|
        0 <= a < b < paths.len() ==> (#[trigger] paths[a]) != (#[trigger] paths[b])
}

/// The chunks of a file in two runs of chunks, one behind the other.
pub proof fn lemma_chunks_for_add(a: Seq<ChunkView>, b: Seq<ChunkView>, path: Seq<char>)
    ensures
        chunks_for(a + b, path) == chunks_for(a, path) + chunks_for(b, path),
    decreases b.len(),
{
    if b.len() == 0 {
        assert(a + b =~= a);
        assert(chunks_for(a, path) + chunks_for(b, path) =~= chunks_for(a, path));
    } else {
        assert((a + b).drop_last() =~= a + b.drop_last());
        assert((a + b).last() == b.last());
        lemma_chunks_for_add(a, b.drop_last(), path);
        assert(chunks_for(a + b, path) =~= chunks_for(a, path) + chunks_for(b, path));
    }
}

/// Chunks that all name one file are the chunks of that file.
pub proof fn lemma_chunks_for_all(s: Seq<ChunkView>, path: Seq<char>)
    requires
        forall|j: int| 0 <= j < s.len() ==> (#[trigger] s[j]).path == bytes_of(path),
    ensures
        chunks_for(s, path) == s,
    decreases s.len(),
{
    if s.len() > 0 {
        lemma_chunks_for_all(s.drop_last(), path);
        assert(s.drop_last().push(s.last()) =~= s);
    } else {
        assert(s =~= Seq::<ChunkView>::empty());
    }
}

/// Among chunks of which none names a file, the file has no chunks.
pub proof fn lemma_chunks_for_none(s: Seq<ChunkView>, path: Seq<char>)
    requires
        forall|j: int| 0 <= j < s.len() ==> (#[trigger] s[j]).path != bytes_of(path),
    ensures
        chunks_for(s, path) == Seq::<ChunkView>::empty(),
    decreases s.len(),
{
    if s.len() > 0 {
        lemma_chunks_for_none(s.drop_last(), path);
    }
}

/// A file that none of the first `n` groups is for has no chunks in them.
pub proof fn lemma_group_absent(
    groups: Seq<Seq<ChunkView>>,
    paths: Seq<Seq<char>>,
    n: int,
    path: Seq<char>,
)
    requires
        grouped(groups, paths),
        0 <= n <= groups.len(),
        forall|k: int| 0 <= k < n ==> #[trigger] paths[k] != path,
    ensures
        chunks_for(groups.subrange(0, n).flatten(), path) == Seq::<ChunkView>::empty(),
    decreases n,
{
    if n > 0 {
        let front = groups.subrange(0, n - 1);
        assert(groups.subrange(0, n) =~= front.push(groups[n - 1]));
        front.lemma_flatten_push(groups[n - 1]);
        lemma_group_absent(groups, paths, n - 1, path);
        lemma_chunks_for_add(front.flatten(), groups[n - 1], path);
        lemma_same_bytes(paths[n - 1], path);
        lemma_chunks_for_none(groups[n - 1], path);
    } else {
        assert(groups.subrange(0, 0) =~= Seq::<Seq<ChunkView>>::empty());
    }
}

/// The chunks of the file of group `k` are that group.
pub proof fn lemma_group_present(
    groups: Seq<Seq<ChunkView>>,
    paths: Seq<Seq<char>>,
    n: int,
    k: int,
)
    requires
        grouped(groups, paths),
        0 <= k < n <= groups.len(),
    ensures
        chunks_for(groups.subrange(0, n).flatten(), paths[k]) == groups[k],
    decreases n,
{
    let front = groups.subrange(0, n - 1);
    assert(groups.subrange(0, n) =~= front.push(groups[n - 1]));
    front.lemma_flatten_push(groups[n - 1]);
    lemma_chunks_for_add(front.flatten(), groups[n - 1], paths[k]);
    if k == n - 1 {
        lemma_group_absent(groups, paths, n - 1, paths[k]);
        lemma_chunks_for_all(groups[k], paths[k]);
        assert(Seq::<ChunkView>::empty() + groups[k] =~= groups[k]);
    } else {
        lemma_group_present(groups, paths, n - 1, k);
        lemma_same_bytes(paths[n - 1], paths[k]);
        lemma_chunks_for_none(groups[n - 1], paths[k]);
        assert(groups[k] + Seq::<ChunkView>::empty() =~= groups[k]);
    }
}

/// Behind chunks that do not end with the file `path`, a run of chunks of
/// that file adds the file to the files named.
pub proof fn lemma_paths_named_add(a: Seq<ChunkView>, g: Seq<ChunkView>, path: Seq<char>)
    requires
        g.len() > 0,
        forall|j: int| 0 <= j < g.len() ==> (#[trigger] g[j]).path == bytes_of(path),
        a.len() > 0 ==> a.last().path != bytes_of(path),
    ensures
        paths_named(a + g) == paths_named(a).push(path),
    decreases g.len(),
{
    let whole = a + g;
    assert(whole.drop_last() =~= a + g.drop_last());
    assert(whole.last() == g.last());
    encode_utf8_decode_utf8(path);
    if g.len() == 1 {
        assert(a + g.drop_last() =~= a);
        if a.len() > 0 {
            assert(whole[whole.len() - 2] == a.last());
        }
    } else {
        lemma_paths_named_add(a, g.drop_last(), path);
        assert(whole[whole.len() - 2] == g[g.len() - 2]);
    }
}

/// The files that the first `n` groups name are their files.
pub proof fn lemma_paths_of_groups(groups: Seq<Seq<ChunkView>>, paths: Seq<Seq<char>>, n: int)
    requires
        grouped(groups, paths),
        0 <= n <= groups.len(),
    ensures
        paths_named(groups.subrange(0, n).flatten()) == paths.subrange(0, n),
        n > 0 ==> groups.subrange(0, n).flatten().len() > 0 && groups.subrange(
            0,
            n,
        ).flatten().last().path == bytes_of(paths[n - 1]),
    decreases n,
{
    if n > 0 {
        let front = groups.subrange(0, n - 1);
        let g = groups[n - 1];
        assert(groups.subrange(0, n) =~= front.push(g));
        front.lemma_flatten_push(g);
        lemma_paths_of_groups(groups, paths, n - 1);
        if n > 1 {
            lemma_same_bytes(paths[n - 2], paths[n - 1]);
        }
        if front.flatten().len() > 0 {
            assert(n > 1) by {
                if n == 1 {
                    assert(front =~= Seq::<Seq<ChunkView>>::empty());
                }
            }
        }
        lemma_paths_named_add(front.flatten(), g, paths[n - 1]);
        assert((front.flatten() + g).last() == g.last());
        assert(paths.subrange(0, n) =~= paths.subrange(0, n - 1).push(paths[n - 1]));
    } else {
        assert(groups.subrange(0, 0) =~= Seq::<Seq<ChunkView>>::empty());
        assert(paths.subrange(0, 0) =~= Seq::<Seq<char>>::empty());
    }
}

/// `path` is one of the first `n` of `paths`.
pub open spec fn among(paths: Seq<Seq<char>>, n: int, path: Seq<char>) -> bool {
    exists|k: int| 0 <= k < n && k < paths.len() && #[trigger] paths[k] == path
}

/// What one file of the batch comes to: `now` is the file system after the
/// file `path` was tried with `chunks`, `prev` the one before; `added` are
/// the failures that the file added.
pub open spec fn file_done<FS: FileSystem>(
    prev: FS,
    now: FS,
    path: Seq<char>,
    chunks: Seq<ChunkView>,
    added: Seq<ApplyError>,
) -> bool {
    let found = apply_failures(chunks, prev.holds()[path]);
    &&& forall|q: Seq<char>| q != path ==> (#[trigger] now.readable(q)) == prev.readable(q)
    &&& forall|q: Seq<char>| q != path ==> (#[trigger] now.writable(q)) == prev.writable(q)
    &&& prev.readable(path) ==> prev.holds().dom().contains(path)
    &&& if !prev.readable(path) {
        now.holds() == prev.holds() && added.len() == 1 && names_modify(added[0], path)
    } else if found.len() > 0 {
        now.holds() == prev.holds() && added == found
    } else if !prev.writable(path) {
        now.holds() == prev.holds() && added.len() == 1 && names_modify(added[0], path)
    } else {
        now.holds() == prev.holds().insert(path, applied(prev.holds()[path], chunks))
            && added.len() == 0
    }
}

/// What the files hold when the first `n` files are done: `now` is the
/// file system then, `before` the one that the batch began with.
pub open spec fn holds_done<FS: FileSystem>(
    before: FS,
    now: FS,
    doc: Seq<ChunkView>,
    paths: Seq<Seq<char>>,
    n: int,
) -> bool {
    &&& now.holds().dom() == before.holds().dom()
    &&& forall|p: Seq<char>|
        now.holds().dom().contains(p) ==> #[trigger] now.holds()[p] == if among(paths, n, p)
            && file_passes(before, doc, p) {
            applied(before.holds()[p], chunks_for(doc, p))
        } else {
            before.holds()[p]
        }
    &&& forall|p: Seq<char>|
        !among(paths, n, p) ==> (#[trigger] now.readable(p)) == before.readable(p)
    &&& forall|p: Seq<char>|
        !among(paths, n, p) ==> (#[trigger] now.writable(p)) == before.writable(p)
}

/// The failures when the first `n` files are done.
pub open spec fn failures_done<FS: FileSystem>(
    before: FS,
    doc: Seq<ChunkView>,
    paths: Seq<Seq<char>>,
    n: int,
    errs: Seq<ApplyError>,
) -> bool {
    &&& batch_failures(before, doc, paths.subrange(0, n), errs)
    &&& errs.len() == 0 <==> all_pass(before, doc, paths.subrange(0, n))
}

/// Where the batch stands when the first `n` files are done: `now` is the
/// file system then, `before` the one that the batch began with, and
/// `errs` are the failures so far.
pub open spec fn batch_done<FS: FileSystem>(
    before: FS,
    now: FS,
    doc: Seq<ChunkView>,
    paths: Seq<Seq<char>>,
    n: int,
    errs: Seq<ApplyError>,
) -> bool {
    holds_done(before, now, doc, paths, n) && failures_done(before, doc, paths, n, errs)
}

/// A path is among the first `n + 1` when it is among the first `n` or is
/// the one behind them.
proof fn lemma_among_next(paths: Seq<Seq<char>>, n: int, q: Seq<char>)
    requires
        0 <= n < paths.len(),
    ensures
        among(paths, n + 1, q) <==> (among(paths, n, q) || q == paths[n]),
{
    if among(paths, n + 1, q) {
        let k = choose|k: int| 0 <= k < n + 1 && k < paths.len() && #[trigger] paths[k] == q;
        if k < n {
            assert(among(paths, n, q));
        }
    }
    if among(paths, n, q) {
        let k = choose|k: int| 0 <= k < n && k < paths.len() && #[trigger] paths[k] == q;
        assert(0 <= k < n + 1);
    }
    if q == paths[n] {
        assert(paths[n] == q);
    }
}

/// The failures of one more file come behind those of the files before it.
proof fn lemma_failures_step<FS: FileSystem>(
    before: FS,
    doc: Seq<ChunkView>,
    paths: Seq<Seq<char>>,
    n: int,
    errs: Seq<ApplyError>,
    added: Seq<ApplyError>,
)
    requires
        0 <= n < paths.len(),
        failures_done(before, doc, paths, n, errs),
        file_failures(before, doc, paths[n], added),
        added.len() == failure_count(before, doc, paths[n]),
        added.len() == 0 <==> file_passes(before, doc, paths[n]),
    ensures
        failures_done(before, doc, paths, n + 1, errs + added),
{
    let p = paths[n];
    let all = errs + added;
    let done = paths.subrange(0, n);
    let more = paths.subrange(0, n + 1);
    assert(more.last() == p);
    assert(more.drop_last() =~= done);
    assert(all.subrange(0, all.len() - added.len()) =~= errs);
    assert(all.subrange(all.len() - added.len(), all.len() as int) =~= added);
    assert(batch_failures(before, doc, more, all));
    if all_pass(before, doc, more) {
        assert(more[n] == p);
        assert forall|k: int| 0 <= k < done.len() implies file_passes(
            before,
            doc,
            #[trigger] done[k],
        ) by {
            assert(done[k] == more[k]);
        }
    }
    if all_pass(before, doc, done) && file_passes(before, doc, p) {
        assert forall|k: int| 0 <= k < more.len() implies file_passes(
            before,
            doc,
            #[trigger] more[k],
        ) by {
            if k < n {
                assert(more[k] == done[k]);
            }
        }
    }
}

/// What the files hold once one more file is done, where the file was
/// written with `text` or left as it was.
proof fn lemma_holds_step<FS: FileSystem>(
    before: FS,
    prev: FS,
    now: FS,
    doc: Seq<ChunkView>,
    paths: Seq<Seq<char>>,
    n: int,
    text: Seq<u8>,
    wrote: bool,
)
    requires
        0 <= n < paths.len(),
        !among(paths, n, paths[n]),
        holds_done(before, prev, doc, paths, n),
        forall|q: Seq<char>| q != paths[n] ==> (#[trigger] now.readable(q)) == prev.readable(q),
        forall|q: Seq<char>| q != paths[n] ==> (#[trigger] now.writable(q)) == prev.writable(q),
        wrote ==> prev.holds().dom().contains(paths[n]) && now.holds() == prev.holds().insert(
            paths[n],
            text,
        ),
        !wrote ==> now.holds() == prev.holds(),
        wrote == file_passes(before, doc, paths[n]),
        wrote ==> text == applied(before.holds()[paths[n]], chunks_for(doc, paths[n])),
    ensures
        holds_done(before, now, doc, paths, n + 1),
{
    let p = paths[n];
    assert forall|q: Seq<char>| among(paths, n + 1, q) <==> (among(paths, n, q) || q == p) by {
        lemma_among_next(paths, n, q);
    }
    assert(now.holds().dom() =~= before.holds().dom());
    assert forall|q: Seq<char>| now.holds().dom().contains(q) implies #[trigger] now.holds()[q]
        == if among(paths, n + 1, q) && file_passes(before, doc, q) {
        applied(before.holds()[q], chunks_for(doc, q))
    } else {
        before.holds()[q]
    } by {
        if q != p {
            assert(now.holds()[q] == prev.holds()[q]);
        } else if !wrote {
            assert(now.holds()[q] == prev.holds()[q]);
        }
    }
}

/// One more file is done.
pub proof fn lemma_batch_step<FS: FileSystem>(
    before: FS,
    prev: FS,
    now: FS,
    doc: Seq<ChunkView>,
    paths: Seq<Seq<char>>,
    n: int,
    errs: Seq<ApplyError>,
    added: Seq<ApplyError>,
)
    requires
        0 <= n < paths.len(),
        forall|a: int, b: int|
            0 <= a < b < paths.len() ==> (#[trigger] paths[a]) != (#[trigger] paths[b]),
        batch_done(before, prev, doc, paths, n, errs),
        file_done(prev, now, paths[n], chunks_for(doc, paths[n]), added),
    ensures
        batch_done(before, now, doc, paths, n + 1, errs + added),
{
    let p = paths[n];
    let chunks = chunks_for(doc, p);
    assert(!among(paths, n, p));
    assert(prev.readable(p) == before.readable(p));
    assert(prev.writable(p) == before.writable(p));
    assert(prev.readable(p) ==> prev.holds()[p] == before.holds()[p]);
    let wrote = file_passes(before, doc, p);
    lemma_failures_step(before, doc, paths, n, errs, added);
    lemma_holds_step(
        before,
        prev,
        now,
        doc,
        paths,
        n,
        applied(before.holds()[p], chunks),
        wrote,
    );
}

/// When every file is done, the file system holds what the batch says.
pub proof fn lemma_batch_end<FS: FileSystem>(
    before: FS,
    now: FS,
    groups: Seq<Seq<ChunkView>>,
    paths: Seq<Seq<char>>,
    errs: Seq<ApplyError>,
)
    requires
        grouped(groups, paths),
        batch_done(before, now, groups.flatten(), paths, paths.len() as int, errs),
    ensures
        now.holds() == after_batch(before, groups.flatten()),
        paths_named(groups.flatten()) == paths,
        batch_failures(before, groups.flatten(), paths, errs),
        errs.len() == 0 <==> all_pass(before, groups.flatten(), paths),
        forall|p: Seq<char>|
            !is_named(groups.flatten(), p) ==> (#[trigger] now.readable(p)) == before.readable(p)
                && now.writable(p) == before.writable(p),
{
    let doc = groups.flatten();
    let n = paths.len() as int;
    assert(groups.subrange(0, n) =~= groups);
    assert(paths.subrange(0, n) =~= paths);
    lemma_paths_of_groups(groups, paths, n);
    assert forall|p: Seq<char>| among(paths, n, p) <==> is_named(doc, p) by {
        if among(paths, n, p) {
            let k = choose|k: int| 0 <= k < n && k < paths.len() && #[trigger] paths[k] == p;
            lemma_group_present(groups, paths, n, k);
        } else {
            lemma_group_absent(groups, paths, n, p);
        }
    }
    assert(now.holds() =~= after_batch(before, doc));
}

} // verus!
