//! Looking chunks up by their key.

use vstd::prelude::*;
use crate::format::sorting::{key_before, lemma_key_transitive, lemma_key_trichotomy};
use crate::format::types::{Chunk, ChunkRef, ChunkView, Format, key_eq, key_lt, views};

verus! {

/// `c` is, of the first `n` chunks, the last one with its key.
pub open spec fn last_with_key(chunks: Seq<ChunkView>, n: int, c: ChunkView) -> bool {
    exists|i: int|
        0 <= i < n && i < chunks.len() && #[trigger] chunks[i] == c && forall|j: int|
            i < j < n && j < chunks.len() ==> !key_eq(#[trigger] chunks[j], c)
}

/// The key is the key of the chunk.
pub open spec fn is_key_of(key: ChunkRef<'_>, chunk: Chunk) -> bool {
    key.path@ == chunk.path@ && key.start_line == chunk.start_line && key.num_lines
        == chunk.num_lines
}

/// The keys of a table come in their order, none twice.
#[verifier::opaque]
pub open spec fn keys_rise(table: Seq<(ChunkRef<'_>, &Chunk)>) -> bool {
    forall|a: int, b: int|
        0 <= a < b < table.len() ==> key_lt((#[trigger] table[a]).1@, (#[trigger] table[b]).1@)
}

/// Each entry of a table is a key with a chunk that has the key.
#[verifier::opaque]
pub open spec fn keys_match(table: Seq<(ChunkRef<'_>, &Chunk)>) -> bool {
    forall|a: int| 0 <= a < table.len() ==> is_key_of((#[trigger] table[a]).0, *table[a].1)
}

/// Each chunk of a table is, of the first `n` chunks, the last with its key.
#[verifier::opaque]
pub open spec fn chunks_last(table: Seq<(ChunkRef<'_>, &Chunk)>, chunks: Seq<ChunkView>, n: int) -> bool {
    forall|a: int| 0 <= a < table.len() ==> last_with_key(chunks, n, (#[trigger] table[a]).1@)
}

/// The key of the chunk is a key of the table.
pub open spec fn has_key(table: Seq<(ChunkRef<'_>, &Chunk)>, c: ChunkView) -> bool {
    exists|a: int| 0 <= a < table.len() && key_eq((#[trigger] table[a]).1@, c)
}

/// The key of each of the first `n` chunks is a key of the table.
#[verifier::opaque]
pub open spec fn keys_present(table: Seq<(ChunkRef<'_>, &Chunk)>, chunks: Seq<ChunkView>, n: int) -> bool {
    forall|i: int| 0 <= i < n && i < chunks.len() ==> has_key(table, #[trigger] chunks[i])
}

/// The table holds the first `n` chunks by their keys: its entries come in
/// the order of their keys, no key twice; each entry is a key with the last
/// chunk that has the key; and the key of every chunk is there.
pub open spec fn holds_by_key(table: Seq<(ChunkRef<'_>, &Chunk)>, chunks: Seq<ChunkView>, n: int) -> bool {
    &&& keys_rise(table)
    &&& keys_match(table)
    &&& chunks_last(table, chunks, n)
    &&& keys_present(table, chunks, n)
}

/// A table in which the entry at `k` gave way to another.
pub open spec fn replaced_at(
    before: Seq<(ChunkRef<'_>, &Chunk)>,
    after: Seq<(ChunkRef<'_>, &Chunk)>,
    k: int,
) -> bool {
    &&& 0 <= k < before.len()
    &&& after.len() == before.len()
    &&& forall|j: int| 0 <= j < after.len() && j != k ==> after[j] == before[j]
}

/// A table in which an entry was put at `k`, between its entries.
pub open spec fn grown_at(
    before: Seq<(ChunkRef<'_>, &Chunk)>,
    after: Seq<(ChunkRef<'_>, &Chunk)>,
    k: int,
) -> bool {
    &&& 0 <= k <= before.len()
    &&& after.len() == before.len() + 1
    &&& forall|j: int| 0 <= j < k ==> after[j] == before[j]
    &&& forall|j: int| k < j < after.len() ==> after[j] == before[j - 1]
}

impl Format {
    /// The chunks of the document by their keys, in the order of the keys.
    /// Of chunks with the same key, the one that comes last in the document
    /// stands for all.
    #[must_use]
    pub fn chunks(&self) -> (table: Vec<(ChunkRef<'_>, &Chunk)>)
        ensures
            holds_by_key(table@, self@, self@.len() as int),
    {
        let ghost all = views(self.0@);
        let mut table: Vec<(ChunkRef<'_>, &Chunk)> = Vec::new();
        let mut n: usize = 0;
        proof {
            reveal(keys_rise);
            reveal(keys_match);
            reveal(chunks_last);
            reveal(keys_present);
        }
        while n < self.0.len()
            invariant
                n <= self.0@.len(),
                all == views(self.0@),
                keys_rise(table@),
                keys_match(table@),
                chunks_last(table@, all, n as int),
                keys_present(table@, all, n as int),
            decreases self.0@.len() - n,
        {
            let chunk: &Chunk = &self.0[n];
            let ghost before = table@;
            let k = place_of_key(&table, chunk);
            let same = k < table.len() && !key_before(chunk, table[k].1);
            proof {
                assert(all[n as int] == chunk@);
                if k < table@.len() {
                    lemma_key_trichotomy(table@[k as int].1@, chunk@);
                }
            }
            if same {
                table.set(k, (chunk.as_ref(), chunk));
                proof {
                    assert(replaced_at(before, table@, k as int));
                    lemma_replaced_keys(before, table@, k as int);
                    lemma_replaced_last(before, table@, all, n as int, k as int);
                    lemma_replaced_present(before, table@, all, n as int, k as int);
                }
            } else {
                table.insert(k, (chunk.as_ref(), chunk));
                proof {
                    assert(grown_at(before, table@, k as int));
                    lemma_key_is_new(before, chunk@, k as int);
                    lemma_grown_keys(before, table@, k as int);
                    lemma_grown_last(before, table@, all, n as int, k as int);
                    lemma_grown_present(before, table@, all, n as int, k as int);
                }
            }
            n = n + 1;
        }
        table
    }
}

/// The number of entries at the front of the table whose key comes before
/// the key of the chunk.
fn place_of_key(table: &Vec<(ChunkRef<'_>, &Chunk)>, chunk: &Chunk) -> (k: usize)
    ensures
        k <= table@.len(),
        forall|j: int| 0 <= j < k ==> key_lt((#[trigger] table@[j]).1@, chunk@),
        k < table@.len() ==> !key_lt(table@[k as int].1@, chunk@),
{
    let mut k: usize = 0;
    while k < table.len() && key_before(table[k].1, chunk)
        invariant
            k <= table@.len(),
            forall|j: int| 0 <= j < k ==> key_lt((#[trigger] table@[j]).1@, chunk@),
        decreases table@.len() - k,
    {
        k = k + 1;
    }
    k
}

/// A chunk that is the last with its key stays so when a chunk with
/// another key follows.
proof fn lemma_still_last(chunks: Seq<ChunkView>, n: int, c: ChunkView)
    requires
        0 <= n < chunks.len(),
        last_with_key(chunks, n, c),
        !key_eq(chunks[n], c),
    ensures
        last_with_key(chunks, n + 1, c),
{
    let i = choose|i: int|
        0 <= i < n && i < chunks.len() && #[trigger] chunks[i] == c && forall|j: int|
            i < j < n && j < chunks.len() ==> !key_eq(#[trigger] chunks[j], c);
    assert(0 <= i < n + 1 && chunks[i] == c);
    assert forall|j: int| i < j < n + 1 && j < chunks.len() implies !key_eq(
        #[trigger] chunks[j],
        c,
    ) by {}
}

/// The newest chunk is the last with its key.
proof fn lemma_newest_is_last(chunks: Seq<ChunkView>, n: int)
    requires
        0 <= n < chunks.len(),
    ensures
        last_with_key(chunks, n + 1, chunks[n]),
{
    assert(0 <= n < n + 1 && chunks[n] == chunks[n]);
}

/// A chunk whose key is in a table has its key in a table with the same keys.
proof fn lemma_key_stays(
    before: Seq<(ChunkRef<'_>, &Chunk)>,
    after: Seq<(ChunkRef<'_>, &Chunk)>,
    c: ChunkView,
    from: int,
    to: int,
)
    requires
        0 <= from < before.len(),
        0 <= to < after.len(),
        key_eq(before[from].1@, c),
        key_eq(after[to].1@, before[from].1@),
    ensures
        has_key(after, c),
{
    assert(key_eq(after[to].1@, c));
}

/// The keys of a table stay as they are where an entry gives way to an
/// entry with the same key.
proof fn lemma_replaced_keys(
    before: Seq<(ChunkRef<'_>, &Chunk)>,
    after: Seq<(ChunkRef<'_>, &Chunk)>,
    k: int,
)
    requires
        replaced_at(before, after, k),
        keys_rise(before),
        keys_match(before),
        key_eq(before[k].1@, after[k].1@),
        is_key_of(after[k].0, *after[k].1),
    ensures
        keys_rise(after),
        keys_match(after),
{
    reveal(keys_rise);
    reveal(keys_match);
    assert forall|a: int, b: int| 0 <= a < b < after.len() implies key_lt(
        (#[trigger] after[a]).1@,
        (#[trigger] after[b]).1@,
    ) by {
        assert(key_lt(before[a].1@, before[b].1@));
        if a != k {
            assert(after[a] == before[a]);
        }
        if b != k {
            assert(after[b] == before[b]);
        }
    }
    assert forall|a: int| 0 <= a < after.len() implies is_key_of(
        (#[trigger] after[a]).0,
        *after[a].1,
    ) by {
        if a != k {
            assert(after[a] == before[a]);
        }
    }
}

/// The chunks of a table are the last of their keys once the entry of a key
/// gives way to the newest chunk, which has that key.
proof fn lemma_replaced_last(
    before: Seq<(ChunkRef<'_>, &Chunk)>,
    after: Seq<(ChunkRef<'_>, &Chunk)>,
    chunks: Seq<ChunkView>,
    n: int,
    k: int,
)
    requires
        0 <= n < chunks.len(),
        replaced_at(before, after, k),
        keys_rise(before),
        chunks_last(before, chunks, n),
        after[k].1@ == chunks[n],
        key_eq(before[k].1@, chunks[n]),
    ensures
        chunks_last(after, chunks, n + 1),
{
    reveal(keys_rise);
    reveal(chunks_last);
    assert forall|a: int| 0 <= a < after.len() implies last_with_key(
        chunks,
        n + 1,
        (#[trigger] after[a]).1@,
    ) by {
        if a != k {
            assert(after[a] == before[a]);
            if a < k {
                assert(key_lt(before[a].1@, before[k].1@));
            } else {
                assert(key_lt(before[k].1@, before[a].1@));
            }
            lemma_key_trichotomy(before[a].1@, before[k].1@);
            assert(last_with_key(chunks, n, before[a].1@));
            lemma_still_last(chunks, n, before[a].1@);
        } else {
            lemma_newest_is_last(chunks, n);
        }
    }
}

/// The keys of all chunks are in the table once the entry of a key gives
/// way to the newest chunk, which has that key.
proof fn lemma_replaced_present(
    before: Seq<(ChunkRef<'_>, &Chunk)>,
    after: Seq<(ChunkRef<'_>, &Chunk)>,
    chunks: Seq<ChunkView>,
    n: int,
    k: int,
)
    requires
        0 <= n < chunks.len(),
        replaced_at(before, after, k),
        keys_present(before, chunks, n),
        after[k].1@ == chunks[n],
        key_eq(before[k].1@, chunks[n]),
    ensures
        keys_present(after, chunks, n + 1),
{
    reveal(keys_present);
    assert forall|i: int| 0 <= i < n + 1 && i < chunks.len() implies has_key(
        after,
        #[trigger] chunks[i],
    ) by {
        if i < n {
            assert(has_key(before, chunks[i]));
            let a = choose|a: int|
                0 <= a < before.len() && key_eq((#[trigger] before[a]).1@, chunks[i]);
            if a != k {
                assert(after[a] == before[a]);
            }
            lemma_key_stays(before, after, chunks[i], a, a);
        } else {
            assert(key_eq(after[k].1@, chunks[i]));
        }
    }
}

/// A key that lies between the keys of a table is not among them.
proof fn lemma_key_is_new(before: Seq<(ChunkRef<'_>, &Chunk)>, c: ChunkView, k: int)
    requires
        0 <= k <= before.len(),
        keys_rise(before),
        forall|j: int| 0 <= j < k ==> key_lt((#[trigger] before[j]).1@, c),
        k < before.len() ==> !key_lt(before[k].1@, c) && !key_eq(before[k].1@, c),
    ensures
        forall|j: int| 0 <= j < before.len() ==> !key_eq((#[trigger] before[j]).1@, c),
        k < before.len() ==> key_lt(c, before[k].1@),
{
    reveal(keys_rise);
    if k < before.len() {
        lemma_key_trichotomy(before[k].1@, c);
    }
    assert forall|j: int| 0 <= j < before.len() implies !key_eq((#[trigger] before[j]).1@, c) by {
        lemma_key_trichotomy(before[j].1@, c);
        if j > k {
            assert(key_lt(before[k].1@, before[j].1@));
            lemma_key_transitive(c, before[k].1@, before[j].1@);
            lemma_key_trichotomy(c, before[j].1@);
        }
    }
}

/// The keys of a table still rise, and still match, once an entry is put
/// in the place of its key.
proof fn lemma_grown_keys(
    before: Seq<(ChunkRef<'_>, &Chunk)>,
    after: Seq<(ChunkRef<'_>, &Chunk)>,
    k: int,
)
    requires
        grown_at(before, after, k),
        keys_rise(before),
        keys_match(before),
        is_key_of(after[k].0, *after[k].1),
        forall|j: int| 0 <= j < k ==> key_lt((#[trigger] before[j]).1@, after[k].1@),
        k < before.len() ==> key_lt(after[k].1@, before[k].1@),
    ensures
        keys_rise(after),
        keys_match(after),
{
    reveal(keys_rise);
    reveal(keys_match);
    let c = after[k].1@;
    assert forall|a: int, b: int| 0 <= a < b < after.len() implies key_lt(
        (#[trigger] after[a]).1@,
        (#[trigger] after[b]).1@,
    ) by {
        let ba = if a < k { a } else { a - 1 };
        let bb = if b < k { b } else { b - 1 };
        if a != k && b != k {
            assert(after[a] == before[ba] && after[b] == before[bb]);
            assert(key_lt(before[ba].1@, before[bb].1@));
        } else if a == k {
            assert(after[b] == before[bb]);
            if bb > k {
                assert(key_lt(before[k].1@, before[bb].1@));
                lemma_key_transitive(c, before[k].1@, before[bb].1@);
            }
        } else {
            assert(after[a] == before[ba]);
        }
    }
    assert forall|a: int| 0 <= a < after.len() implies is_key_of(
        (#[trigger] after[a]).0,
        *after[a].1,
    ) by {
        if a != k {
            let ba = if a < k { a } else { a - 1 };
            assert(after[a] == before[ba]);
        }
    }
}

/// The chunks of a table are the last of their keys once the newest chunk,
/// whose key is new, is put in its place.
proof fn lemma_grown_last(
    before: Seq<(ChunkRef<'_>, &Chunk)>,
    after: Seq<(ChunkRef<'_>, &Chunk)>,
    chunks: Seq<ChunkView>,
    n: int,
    k: int,
)
    requires
        0 <= n < chunks.len(),
        grown_at(before, after, k),
        chunks_last(before, chunks, n),
        after[k].1@ == chunks[n],
        forall|j: int| 0 <= j < before.len() ==> !key_eq((#[trigger] before[j]).1@, chunks[n]),
    ensures
        chunks_last(after, chunks, n + 1),
{
    reveal(chunks_last);
    assert forall|a: int| 0 <= a < after.len() implies last_with_key(
        chunks,
        n + 1,
        (#[trigger] after[a]).1@,
    ) by {
        if a != k {
            let ba = if a < k { a } else { a - 1 };
            assert(after[a] == before[ba]);
            assert(!key_eq(before[ba].1@, chunks[n]));
            assert(last_with_key(chunks, n, before[ba].1@));
            lemma_still_last(chunks, n, before[ba].1@);
        } else {
            lemma_newest_is_last(chunks, n);
        }
    }
}

/// The keys of all chunks are in the table once the newest chunk is put in
/// its place.
proof fn lemma_grown_present(
    before: Seq<(ChunkRef<'_>, &Chunk)>,
    after: Seq<(ChunkRef<'_>, &Chunk)>,
    chunks: Seq<ChunkView>,
    n: int,
    k: int,
)
    requires
        0 <= n < chunks.len(),
        grown_at(before, after, k),
        keys_present(before, chunks, n),
        after[k].1@ == chunks[n],
    ensures
        keys_present(after, chunks, n + 1),
{
    reveal(keys_present);
    assert forall|i: int| 0 <= i < n + 1 && i < chunks.len() implies has_key(
        after,
        #[trigger] chunks[i],
    ) by {
        if i < n {
            assert(has_key(before, chunks[i]));
            let a = choose|a: int|
                0 <= a < before.len() && key_eq((#[trigger] before[a]).1@, chunks[i]);
            let aa = if a < k { a } else { a + 1 };
            assert(after[aa] == before[a]);
            lemma_key_stays(before, after, chunks[i], a, aa);
        } else {
            assert(key_eq(after[k].1@, chunks[i]));
        }
    }
}

} // verus!
