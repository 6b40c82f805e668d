//! Coalescing a document: chunks of one file that overlap or touch become one.

use vstd::prelude::*;
use crate::format::sorting::{lemma_key_trichotomy, lemma_sorted_by_key, ordered, sorted_by_key};
use crate::format::types::{Chunk, ChunkView, Format, key_eq, key_lt, mergeable, merged, span_end, views};

verus! {

/// One pass over `rest` with `current` in hand: each next chunk that can
/// merge with the chunk in hand is merged into it; one that cannot takes
/// its place, and the chunk that was in hand is written out.
pub open spec fn fold_merge(current: ChunkView, rest: Seq<ChunkView>) -> Seq<ChunkView>
    decreases rest.len(),
{
    if rest.len() == 0 {
        seq![current]
    } else if mergeable(current, rest[0]) {
        fold_merge(merged(current, rest[0]), rest.drop_first())
    } else {
        seq![current] + fold_merge(rest[0], rest.drop_first())
    }
}

/// What one merging pass makes of the chunks of `s`, in their order.
pub open spec fn merged_all(s: Seq<ChunkView>) -> Seq<ChunkView> {
    if s.len() == 0 {
        s
    } else {
        fold_merge(s[0], s.drop_first())
    }
}

/// Every chunk of `s` ends at a line number that `usize` can hold.
pub open spec fn spans_fit(s: Seq<ChunkView>) -> bool {
    forall|i: int| 0 <= i < s.len() ==> span_end(#[trigger] s[i]) <= usize::MAX
}

/// No two chunks of `s` have the same key and differ.
pub open spec fn no_rival_chunks(s: Seq<ChunkView>) -> bool {
    forall|i: int, j: int|
        0 <= i < s.len() && 0 <= j < s.len() && key_eq(#[trigger] s[i], #[trigger] s[j]) ==> s[i]
            == s[j]
}

/// Runs with the same chunks have the same chunks at some place each.
proof fn lemma_same_chunks_member(x: Seq<ChunkView>, y: Seq<ChunkView>, i: int) -> (j: int)
    requires
        x.to_multiset() == y.to_multiset(),
        0 <= i < x.len(),
    ensures
        0 <= j < y.len(),
        y[j] == x[i],
{
    broadcast use vstd::seq_lib::group_to_multiset_ensures;

    assert(x.contains(x[i]));
    assert(y.to_multiset().count(x[i]) > 0);
    assert(y.contains(x[i]));
    choose|j: int| 0 <= j < y.len() && y[j] == x[i]
}

/// Two ordered runs of the same chunks, none of which has a rival, are the
/// same run.
pub proof fn lemma_ordered_unique(x: Seq<ChunkView>, y: Seq<ChunkView>)
    requires
        ordered(x),
        ordered(y),
        x.to_multiset() == y.to_multiset(),
        no_rival_chunks(x),
    ensures
        x == y,
    decreases x.len(),
{
    broadcast use vstd::seq_lib::group_to_multiset_ensures;

    assert(x.len() == y.len()) by {
        assert(x.to_multiset().len() == x.len());
        assert(y.to_multiset().len() == y.len());
    }
    if x.len() > 0 {
        let jy = lemma_same_chunks_member(x, y, 0);
        let jx = lemma_same_chunks_member(y, x, 0);
        assert(!key_lt(x[0], y[0])) by {
            if jy > 0 {
                assert(!key_lt(y[jy], y[0]));
            } else {
                lemma_key_trichotomy(y[0], y[0]);
            }
        }
        assert(!key_lt(y[0], x[0])) by {
            if jx > 0 {
                assert(!key_lt(x[jx], x[0]));
            } else {
                lemma_key_trichotomy(x[0], x[0]);
            }
        }
        lemma_key_trichotomy(x[0], y[0]);
        assert(key_eq(x[0], x[jx]));
        assert(x[0] == y[0]);
        let xr = x.drop_first();
        let yr = y.drop_first();
        assert(x =~= xr.insert(0, x[0]));
        assert(y =~= yr.insert(0, y[0]));
        vstd::seq_lib::to_multiset_insert(xr, 0, x[0]);
        vstd::seq_lib::to_multiset_insert(yr, 0, y[0]);
        assert(xr.to_multiset() =~= x.to_multiset().remove(x[0]));
        assert(yr.to_multiset() =~= y.to_multiset().remove(y[0]));
        assert forall|i: int, j: int| 0 <= i < j < xr.len() implies !key_lt(
            #[trigger] xr[j],
            #[trigger] xr[i],
        ) by {
            assert(xr[i] == x[i + 1] && xr[j] == x[j + 1]);
        }
        assert forall|i: int, j: int| 0 <= i < j < yr.len() implies !key_lt(
            #[trigger] yr[j],
            #[trigger] yr[i],
        ) by {
            assert(yr[i] == y[i + 1] && yr[j] == y[j + 1]);
        }
        assert forall|i: int, j: int|
            0 <= i < xr.len() && 0 <= j < xr.len() && key_eq(
                #[trigger] xr[i],
                #[trigger] xr[j],
            ) implies xr[i] == xr[j] by {
            assert(xr[i] == x[i + 1] && xr[j] == x[j + 1]);
        }
        lemma_ordered_unique(xr, yr);
    }
}

/// Merging does not depend on the order in which the chunks are given: two
/// documents that hold the same chunks, in any order, merge into the same
/// chunks. This holds where no two chunks have the same key and differ in
/// content; of two such chunks the one given first would win.
pub proof fn lemma_merge_order_independent(a: Seq<ChunkView>, b: Seq<ChunkView>)
    requires
        a.to_multiset() == b.to_multiset(),
        no_rival_chunks(a),
    ensures
        sorted_by_key(a) == sorted_by_key(b),
        merged_all(sorted_by_key(a)) == merged_all(sorted_by_key(b)),
{
    lemma_sorted_by_key(a);
    lemma_sorted_by_key(b);
    let x = sorted_by_key(a);
    assert forall|i: int, j: int|
        0 <= i < x.len() && 0 <= j < x.len() && key_eq(#[trigger] x[i], #[trigger] x[j]) implies x[i]
        == x[j] by {
        let ia = lemma_same_chunks_member(x, a, i);
        let ja = lemma_same_chunks_member(x, a, j);
        assert(key_eq(a[ia], a[ja]));
    }
    lemma_ordered_unique(x, sorted_by_key(b));
}

/// No chunk begins before line 0 or covers fewer than 0 lines: what holds
/// of every chunk whose numbers are `usize` numbers.
pub open spec fn counted(s: Seq<ChunkView>) -> bool {
    forall|i: int| 0 <= i < s.len() ==> (#[trigger] s[i]).start_line >= 0 && s[i].num_lines >= 0
}

/// Each chunk comes before the next one, and cannot merge with it.
pub open spec fn separate(s: Seq<ChunkView>) -> bool {
    forall|i: int|
        0 <= i && i + 1 < s.len() ==> key_lt(#[trigger] s[i], s[i + 1]) && !mergeable(
            s[i],
            s[i + 1],
        )
}

/// A chunk that does not come before `c`, and `c` merged with a chunk that
/// comes between the two: the first still does not come before the merged.
proof fn lemma_not_before_merged(c: ChunkView, r: ChunkView, x: ChunkView)
    requires
        c.num_lines >= 0,
        r.num_lines >= 0,
        mergeable(c, r),
        !key_lt(r, c),
        !key_lt(x, r),
    ensures
        !key_lt(x, merged(c, r)),
        merged(c, r).path == c.path,
        merged(c, r).start_line == c.start_line,
        span_end(merged(c, r)) >= span_end(c),
        merged(c, r).num_lines >= 0,
{
    lemma_key_trichotomy(r, c);
    lemma_key_trichotomy(x, r);
    lemma_key_trichotomy(x, merged(c, r));
    crate::format::types::lemma_lex_trichotomy(x.path, r.path);
    crate::format::types::lemma_lex_trichotomy(r.path, c.path);
}

/// One pass over ordered chunks gives chunks that are separate; the first
/// of them begins where the chunk in hand begins, and ends no earlier.
proof fn lemma_fold_merge_separate(current: ChunkView, rest: Seq<ChunkView>)
    requires
        ordered(rest),
        counted(rest),
        current.start_line >= 0,
        current.num_lines >= 0,
        forall|j: int| 0 <= j < rest.len() ==> !key_lt(#[trigger] rest[j], current),
    ensures
        fold_merge(current, rest).len() >= 1,
        fold_merge(current, rest)[0].path == current.path,
        fold_merge(current, rest)[0].start_line == current.start_line,
        span_end(fold_merge(current, rest)[0]) >= span_end(current),
        separate(fold_merge(current, rest)),
        counted(fold_merge(current, rest)),
    decreases rest.len(),
{
    if rest.len() > 0 {
        let r = rest[0];
        let later = rest.drop_first();
        assert forall|i: int, j: int| 0 <= i < j < later.len() implies !key_lt(
            #[trigger] later[j],
            #[trigger] later[i],
        ) by {
            assert(later[i] == rest[i + 1] && later[j] == rest[j + 1]);
        }
        assert forall|i: int| 0 <= i < later.len() implies (#[trigger] later[i]).start_line >= 0
            && later[i].num_lines >= 0 by {
            assert(later[i] == rest[i + 1]);
        }
        assert(!key_lt(r, current));
        assert forall|j: int| 0 <= j < later.len() implies !key_lt(#[trigger] later[j], r) by {
            assert(later[j] == rest[j + 1]);
        }
        if mergeable(current, r) {
            let both = merged(current, r);
            assert forall|j: int| 0 <= j < later.len() implies !key_lt(
                #[trigger] later[j],
                both,
            ) by {
                lemma_not_before_merged(current, r, later[j]);
            }
            lemma_not_before_merged(current, r, r);
            lemma_fold_merge_separate(both, later);
        } else {
            lemma_fold_merge_separate(r, later);
            let tail = fold_merge(r, later);
            let all = seq![current] + tail;
            lemma_key_trichotomy(r, current);
            crate::format::types::lemma_lex_trichotomy(r.path, current.path);
            assert(key_lt(current, tail[0]) && !mergeable(current, tail[0]));
            assert forall|i: int| 0 <= i && i + 1 < all.len() implies key_lt(
                #[trigger] all[i],
                all[i + 1],
            ) && !mergeable(all[i], all[i + 1]) by {
                if i > 0 {
                    assert(all[i] == tail[i - 1] && all[i + 1] == tail[i - 1 + 1]);
                } else {
                    assert(all[0] == current && all[1] == tail[0]);
                }
            }
            assert forall|i: int| 0 <= i < all.len() implies (#[trigger] all[i]).start_line >= 0
                && all[i].num_lines >= 0 by {
                if i > 0 {
                    assert(all[i] == tail[i - 1]);
                }
            }
        }
    } else {
        assert(fold_merge(current, rest) =~= seq![current]);
    }
}

/// What a merging pass makes of ordered chunks is separate: each chunk
/// comes before the next one, and no chunk can merge with the next. The
/// chunks of one file then lie apart, with a line or more between them.
pub proof fn lemma_merged_all_separate(s: Seq<ChunkView>)
    requires
        ordered(s),
        counted(s),
    ensures
        separate(merged_all(s)),
        counted(merged_all(s)),
{
    if s.len() > 0 {
        let rest = s.drop_first();
        assert forall|i: int, j: int| 0 <= i < j < rest.len() implies !key_lt(
            #[trigger] rest[j],
            #[trigger] rest[i],
        ) by {
            assert(rest[i] == s[i + 1] && rest[j] == s[j + 1]);
        }
        assert forall|i: int| 0 <= i < rest.len() implies (#[trigger] rest[i]).start_line >= 0
            && rest[i].num_lines >= 0 by {
            assert(rest[i] == s[i + 1]);
        }
        assert forall|j: int| 0 <= j < rest.len() implies !key_lt(#[trigger] rest[j], s[0]) by {
            assert(rest[j] == s[j + 1]);
        }
        lemma_fold_merge_separate(s[0], rest);
    }
}

/// Chunks that come in their order one before the other are ordered.
proof fn lemma_separate_ordered(s: Seq<ChunkView>, i: int, j: int)
    requires
        separate(s),
        0 <= i < j < s.len(),
    ensures
        key_lt(s[i], s[j]),
    decreases j - i,
{
    if i + 1 < j {
        lemma_separate_ordered(s, i, j - 1);
        assert(key_lt(s[j - 1], s[j - 1 + 1]));
        crate::format::sorting::lemma_key_transitive(s[i], s[j - 1], s[j]);
    } else {
        assert(key_lt(s[i], s[i + 1]));
    }
}

/// A merging pass leaves separate chunks as they are.
proof fn lemma_fold_merge_of_separate(s: Seq<ChunkView>)
    requires
        separate(s),
        s.len() > 0,
    ensures
        fold_merge(s[0], s.drop_first()) == s,
    decreases s.len(),
{
    let rest = s.drop_first();
    if rest.len() > 0 {
        assert(rest[0] == s[0int + 1]);
        assert(!mergeable(s[0], s[0int + 1]));
        assert forall|i: int| 0 <= i && i + 1 < rest.len() implies key_lt(
            #[trigger] rest[i],
            rest[i + 1],
        ) && !mergeable(rest[i], rest[i + 1]) by {
            assert(rest[i] == s[i + 1] && rest[i + 1] == s[i + 1 + 1]);
        }
        lemma_fold_merge_of_separate(rest);
        assert(seq![s[0]] + rest =~= s);
    } else {
        assert(seq![s[0]] =~= s);
    }
}

/// To merge twice is to merge once: what merging gives is sorted, and
/// nothing in it can merge.
pub proof fn lemma_merge_idempotent(a: Seq<ChunkView>)
    requires
        counted(a),
    ensures
        merged_all(sorted_by_key(merged_all(sorted_by_key(a)))) == merged_all(sorted_by_key(a)),
{
    let s = sorted_by_key(a);
    lemma_sorted_by_key(a);
    assert forall|i: int| 0 <= i < s.len() implies (#[trigger] s[i]).start_line >= 0
        && s[i].num_lines >= 0 by {
        let j = lemma_same_chunks_member(s, a, i);
        assert(a[j].start_line >= 0);
    }
    lemma_merged_all_separate(s);
    let m = merged_all(s);
    assert forall|i: int, j: int| 0 <= i < j < m.len() implies !key_lt(
        #[trigger] m[j],
        #[trigger] m[i],
    ) by {
        lemma_separate_ordered(m, i, j);
        lemma_key_trichotomy(m[i], m[j]);
    }
    crate::format::sorting::lemma_sorted_of_ordered(m);
    if m.len() > 0 {
        lemma_fold_merge_of_separate(m);
    }
}

/// A run with the same chunks as one whose chunks fit has chunks that fit.
proof fn lemma_spans_fit_same_chunks(x: Seq<ChunkView>, y: Seq<ChunkView>)
    requires
        x.to_multiset() == y.to_multiset(),
        spans_fit(y),
    ensures
        spans_fit(x),
{
    assert forall|i: int| 0 <= i < x.len() implies span_end(#[trigger] x[i]) <= usize::MAX by {
        let j = lemma_same_chunks_member(x, y, i);
        assert(span_end(y[j]) <= usize::MAX);
    }
}

/// The chunks of `v`, the last one first.
fn reversed(v: Vec<Chunk>) -> (r: Vec<Chunk>)
    ensures
        r@.len() == v@.len(),
        forall|j: int| 0 <= j < r@.len() ==> r@[j] == v@[v@.len() - 1 - j],
{
    let mut v = v;
    let ghost orig = v@;
    let mut r: Vec<Chunk> = Vec::new();
    while v.len() > 0
        invariant
            v@ == orig.subrange(0, v@.len() as int),
            v@.len() + r@.len() == orig.len(),
            forall|j: int| 0 <= j < r@.len() ==> r@[j] == orig[orig.len() - 1 - j],
        decreases v@.len(),
    {
        let c = v.pop().unwrap();
        r.push(c);
        assert(v@ =~= orig.subrange(0, v@.len() as int));
    }
    r
}

impl Format {
    /// Coalesces the document: the chunks are sorted, and chunks of one
    /// file that overlap or touch become one chunk, in one pass.
    pub fn merge(&mut self)
        requires
            spans_fit(old(self)@),
        ensures
            final(self)@ == merged_all(sorted_by_key(old(self)@)),
            spans_fit(final(self)@),
            separate(final(self)@),
    {
        self.sort();
        let ghost sorted = self.0@;
        proof {
            lemma_spans_fit_same_chunks(views(sorted), old(self)@);
            assert forall|i: int| 0 <= i < views(sorted).len() implies (#[trigger] views(
                sorted,
            )[i]).start_line >= 0 && views(sorted)[i].num_lines >= 0 by {
                assert(views(sorted)[i] == sorted[i]@);
            }
            lemma_merged_all_separate(views(sorted));
        }
        if self.0.len() < 2 {
            proof {
                if sorted.len() == 1 {
                    assert(views(sorted).drop_first() =~= Seq::<ChunkView>::empty());
                    assert(views(sorted) =~= seq![views(sorted)[0]]);
                }
            }
            return ;
        }
        let mut input: Vec<Chunk> = Vec::new();
        input.append(&mut self.0);
        let mut rest = reversed(input);
        let mut current = rest.pop().unwrap();
        let mut result: Vec<Chunk> = Vec::new();
        let ghost n = sorted.len() as int;
        assert(current == sorted[0]);
        assert(views(sorted)[0] == current@);
        assert(views(sorted).subrange(1, n) =~= views(sorted).drop_first());
        assert(views(result@) =~= Seq::<ChunkView>::empty());
        while rest.len() > 0
            invariant
                n == sorted.len(),
                rest@.len() < n,
                spans_fit(views(sorted)),
                span_end(current@) <= usize::MAX,
                spans_fit(views(result@)),
                forall|j: int| 0 <= j < rest@.len() ==> rest@[j] == sorted[n - 1 - j],
                views(result@) + fold_merge(
                    current@,
                    views(sorted).subrange(n - rest@.len(), n),
                ) == merged_all(views(sorted)),
            decreases rest@.len(),
        {
            let ghost i = n - rest@.len();
            let ghost tail = views(sorted).subrange(i, n);
            let ghost before = views(result@);
            let ghost held = current@;
            let next = rest.pop().unwrap();
            proof {
                assert(next == sorted[i]);
                assert(tail[0] == next@);
                assert(tail.drop_first() =~= views(sorted).subrange(i + 1, n));
                assert(span_end(views(sorted)[i]) <= usize::MAX);
            }
            match current.merge(next) {
                Ok(()) => {},
                Err(next) => {
                    result.push(current);
                    current = next;
                    proof {
                        assert(views(result@) =~= before.push(held));
                        assert(before.push(held) + fold_merge(
                            next@,
                            views(sorted).subrange(i + 1, n),
                        ) =~= before + (seq![held] + fold_merge(
                            next@,
                            views(sorted).subrange(i + 1, n),
                        )));
                        assert forall|k: int| 0 <= k < views(result@).len() implies span_end(
                            #[trigger] views(result@)[k],
                        ) <= usize::MAX by {
                            if k < before.len() {
                                assert(views(result@)[k] == before[k]);
                            }
                        }
                    }
                },
            }
        }
        let ghost before = views(result@);
        let ghost held = current@;
        result.push(current);
        proof {
            assert(views(sorted).subrange(n, n) =~= Seq::<ChunkView>::empty());
            assert(views(result@) =~= before + seq![held]);
            assert forall|k: int| 0 <= k < views(result@).len() implies span_end(
                #[trigger] views(result@)[k],
            ) <= usize::MAX by {
                if k < before.len() {
                    assert(views(result@)[k] == before[k]);
                }
            }
        }
        self.0 = result;
    }
}

} // verus!
