//! The order of chunks in a document: by path, first line and line count.

use vstd::prelude::*;
use crate::format::types::{Chunk, ChunkView, Format, Rank, key_eq, key_lt, lemma_lex_transitive, lemma_lex_trichotomy, lex_lt, rank_bytes, views};
use crate::text::str_bytes;

verus! {

/// The number of chunks at the front of `t` whose key comes before that of `c`.
pub open spec fn lower_pos(t: Seq<ChunkView>, c: ChunkView) -> int
    decreases t.len(),
{
    if t.len() > 0 && key_lt(t[0], c) {
        1 + lower_pos(t.drop_first(), c)
    } else {
        0
    }
}

/// The chunks of `s` in the order of their keys, chunks with equal keys in
/// the order in which `s` has them: each chunk of `s`, from the last to the
/// first, is put before the chunks that are not before it.
pub open spec fn sorted_by_key(s: Seq<ChunkView>) -> Seq<ChunkView>
    decreases s.len(),
{
    if s.len() == 0 {
        s
    } else {
        let t = sorted_by_key(s.drop_first());
        t.insert(lower_pos(t, s[0]), s[0])
    }
}

/// No chunk of `s` comes before a chunk that stands before it.
pub open spec fn ordered(s: Seq<ChunkView>) -> bool {
    forall|i: int, j: int| 0 <= i < j < s.len() ==> !key_lt(#[trigger] s[j], #[trigger] s[i])
}

/// Of two keys one comes before the other, or they are equal; never two of
/// the three.
pub proof fn lemma_key_trichotomy(a: ChunkView, b: ChunkView)
    ensures
        key_lt(a, b) || key_eq(a, b) || key_lt(b, a),
        !(key_lt(a, b) && key_lt(b, a)),
        !(key_lt(a, b) && key_eq(a, b)),
{
    lemma_lex_trichotomy(a.path, b.path);
    lemma_lex_trichotomy(b.path, a.path);
}

/// The order of keys is transitive.
pub proof fn lemma_key_transitive(a: ChunkView, b: ChunkView, c: ChunkView)
    requires
        key_lt(a, b),
        key_lt(b, c),
    ensures
        key_lt(a, c),
{
    lemma_lex_trichotomy(a.path, b.path);
    lemma_lex_trichotomy(b.path, c.path);
    if lex_lt(a.path, b.path) && lex_lt(b.path, c.path) {
        lemma_lex_transitive(a.path, b.path, c.path);
    }
}

/// A key that is not behind `b`, with `b` before `c`, is before `c`.
pub proof fn lemma_key_not_after_then_before(a: ChunkView, b: ChunkView, c: ChunkView)
    requires
        !key_lt(b, a),
        key_lt(b, c),
    ensures
        key_lt(a, c),
{
    lemma_key_trichotomy(a, b);
    if key_lt(a, b) {
        lemma_key_transitive(a, b, c);
    } else {
        assert(key_eq(a, b));
    }
}

/// Where `lower_pos` lands in an ordered run: every chunk before it has a
/// key before that of `c`, and no chunk from it on has.
pub proof fn lemma_lower_pos(t: Seq<ChunkView>, c: ChunkView)
    requires
        ordered(t),
    ensures
        0 <= lower_pos(t, c) <= t.len(),
        forall|i: int| 0 <= i < lower_pos(t, c) ==> key_lt(#[trigger] t[i], c),
        forall|i: int| lower_pos(t, c) <= i < t.len() ==> !key_lt(#[trigger] t[i], c),
    decreases t.len(),
{
    if t.len() > 0 {
        let r = t.drop_first();
        assert forall|i: int, j: int| 0 <= i < j < r.len() implies !key_lt(
            #[trigger] r[j],
            #[trigger] r[i],
        ) by {
            assert(r[i] == t[i + 1] && r[j] == t[j + 1]);
        }
        if key_lt(t[0], c) {
            lemma_lower_pos(r, c);
            assert forall|i: int| 0 <= i < lower_pos(t, c) implies key_lt(#[trigger] t[i], c) by {
                if i > 0 {
                    assert(t[i] == r[i - 1]);
                }
            }
            assert forall|i: int| lower_pos(t, c) <= i < t.len() implies !key_lt(
                #[trigger] t[i],
                c,
            ) by {
                assert(t[i] == r[i - 1]);
            }
        } else {
            assert forall|i: int| 0 <= i < t.len() implies !key_lt(#[trigger] t[i], c) by {
                if i > 0 && key_lt(t[i], c) {
                    assert(!key_lt(t[i], t[0]));
                    lemma_key_not_after_then_before(t[0], t[i], c);
                }
            }
        }
    }
}

/// Putting a chunk at its `lower_pos` keeps an ordered run ordered.
pub proof fn lemma_insert_keeps_ordered(t: Seq<ChunkView>, c: ChunkView)
    requires
        ordered(t),
    ensures
        ordered(t.insert(lower_pos(t, c), c)),
{
    lemma_lower_pos(t, c);
    let p = lower_pos(t, c);
    let u = t.insert(p, c);
    assert forall|i: int, j: int| 0 <= i < j < u.len() implies !key_lt(
        #[trigger] u[j],
        #[trigger] u[i],
    ) by {
        if j == p {
            assert(u[i] == t[i]);
            lemma_key_trichotomy(t[i], c);
        } else if i == p {
            assert(u[j] == t[j - 1]);
        } else {
            let ti = if i < p { i } else { i - 1 };
            let tj = if j < p { j } else { j - 1 };
            assert(u[i] == t[ti] && u[j] == t[tj]);
        }
    }
}

/// What `sorted_by_key` gives is ordered, and holds the chunks of `s`, each
/// as often as `s` holds it.
pub proof fn lemma_sorted_by_key(s: Seq<ChunkView>)
    ensures
        ordered(sorted_by_key(s)),
        sorted_by_key(s).len() == s.len(),
        sorted_by_key(s).to_multiset() == s.to_multiset(),
    decreases s.len(),
{
    broadcast use vstd::seq_lib::group_to_multiset_ensures;

    if s.len() > 0 {
        let r = s.drop_first();
        let t = sorted_by_key(r);
        lemma_sorted_by_key(r);
        lemma_lower_pos(t, s[0]);
        lemma_insert_keeps_ordered(t, s[0]);
        let p = lower_pos(t, s[0]);
        vstd::seq_lib::to_multiset_insert(t, p, s[0]);
        assert(s =~= r.insert(0, s[0]));
        vstd::seq_lib::to_multiset_insert(r, 0, s[0]);
    }
}

/// Sorting what is ordered changes nothing: to sort twice is to sort once.
pub proof fn lemma_sorted_of_ordered(s: Seq<ChunkView>)
    requires
        ordered(s),
    ensures
        sorted_by_key(s) == s,
    decreases s.len(),
{
    if s.len() > 0 {
        let r = s.drop_first();
        assert forall|i: int, j: int| 0 <= i < j < r.len() implies !key_lt(
            #[trigger] r[j],
            #[trigger] r[i],
        ) by {
            assert(r[i] == s[i + 1] && r[j] == s[j + 1]);
        }
        lemma_sorted_of_ordered(r);
        lemma_lower_pos(r, s[0]);
        if lower_pos(r, s[0]) > 0 {
            assert(key_lt(r[0], s[0]));
            assert(r[0] == s[1]);
            assert(!key_lt(s[1], s[0]));
        }
        assert(r.insert(0, s[0]) =~= s);
    }
}

/// True when the key of `a` comes before the key of `b`.
pub fn key_before(a: &Chunk, b: &Chunk) -> (r: bool)
    ensures
        r == key_lt(a@, b@),
{
    let by_path = rank_bytes(str_bytes(a.path.as_str()), str_bytes(b.path.as_str()));
    proof {
        lemma_lex_trichotomy(a@.path, b@.path);
    }
    match by_path {
        Rank::Before => true,
        Rank::After => false,
        Rank::Same => a.start_line < b.start_line || (a.start_line == b.start_line && a.num_lines
            < b.num_lines),
    }
}

/// The number of chunks at the front of `v` whose key comes before that of `c`.
fn lower_position(v: &Vec<Chunk>, c: &Chunk) -> (p: usize)
    ensures
        p == lower_pos(views(v@), c@),
        p <= v@.len(),
{
    let mut p: usize = 0;
    assert(views(v@).subrange(0, v@.len() as int) =~= views(v@));
    while p < v.len() && key_before(&v[p], c)
        invariant
            p <= v@.len(),
            lower_pos(views(v@), c@) == p + lower_pos(
                views(v@).subrange(p as int, v@.len() as int),
                c@,
            ),
        decreases v@.len() - p,
    {
        proof {
            let rest = views(v@).subrange(p as int, v@.len() as int);
            assert(rest[0] == v@[p as int]@);
            assert(rest.drop_first() =~= views(v@).subrange(p + 1, v@.len() as int));
        }
        p = p + 1;
    }
    proof {
        let rest = views(v@).subrange(p as int, v@.len() as int);
        if p < v@.len() {
            assert(rest[0] == v@[p as int]@);
        }
    }
    p
}

impl Format {
    /// Puts the chunks in the order of their keys: by path, then by first
    /// line, then by line count. Chunks with equal keys keep their order.
    pub fn sort(&mut self)
        ensures
            final(self)@ == sorted_by_key(old(self)@),
            ordered(final(self)@),
            final(self)@.len() == old(self)@.len(),
            final(self)@.to_multiset() == old(self)@.to_multiset(),
    {
        let ghost orig = self.0@;
        let mut input: Vec<Chunk> = Vec::new();
        input.append(&mut self.0);
        assert(input@ =~= orig);
        assert(views(orig).subrange(orig.len() as int, orig.len() as int) =~= Seq::<
            ChunkView,
        >::empty());
        while input.len() > 0
            invariant
                input@ == orig.subrange(0, input@.len() as int),
                input@.len() <= orig.len(),
                views(self.0@) == sorted_by_key(
                    views(orig).subrange(input@.len() as int, orig.len() as int),
                ),
            decreases input@.len(),
        {
            let ghost n = input@.len() as int;
            let ghost before = self.0@;
            let c = input.pop().unwrap();
            let p = lower_position(&self.0, &c);
            self.0.insert(p, c);
            proof {
                let tail = views(orig).subrange(n - 1, orig.len() as int);
                assert(c == orig[n - 1]);
                assert(tail[0] == c@);
                assert(tail.drop_first() =~= views(orig).subrange(n, orig.len() as int));
                assert(views(self.0@) =~= views(before).insert(p as int, c@));
                assert(input@ =~= orig.subrange(0, n - 1));
            }
        }
        proof {
            assert(views(orig).subrange(0, orig.len() as int) =~= views(orig));
            lemma_sorted_by_key(views(orig));
        }
    }
}

} // verus!
