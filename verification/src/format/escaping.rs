//! The escaping codec: `\` and `@` in chunk content are written `\\` and `\@`.
//!
//! Both directions are one simultaneous scan for two patterns, made by an
//! Aho-Corasick automaton; the text between the hits is copied through.

use aho_corasick::AhoCorasick;
use vstd::prelude::*;
use vstd::utf8::*;
use crate::text::{all_ascii, append_range, bytes_of, clean_cut, lemma_ascii_valid, lemma_cut_valid, make_string, str_bytes};

verus! {

/// One hit of a multi-pattern scan: pattern `pattern` fills `start..end`.
#[derive(Clone, Copy, Debug)]
pub struct Hit {
    pub pattern: usize,
    pub start: usize,
    pub end: usize,
}

/// Pattern `p` stands in `hay` at offset `s`.
pub open spec fn occurs_at(patterns: Seq<Seq<u8>>, hay: Seq<u8>, p: int, s: int) -> bool {
    &&& 0 <= p < patterns.len()
    &&& 0 <= s
    &&& s + patterns[p].len() <= hay.len()
    &&& hay.subrange(s, s + patterns[p].len()) == patterns[p]
}

/// Where the scan for hit `k` begins: at the end of the hit before it.
pub open spec fn scan_floor(hits: Seq<Hit>, k: int) -> int {
    if k <= 0 {
        0
    } else {
        hits[k - 1].end as int
    }
}

/// What a scan with standard match semantics reports: each hit is an
/// occurrence of its pattern that lies behind the hit before it; no
/// occurrence that begins at or behind the scan's start ends before the hit
/// that the scan reports; and behind the last hit no occurrence is left.
#[verifier::opaque]
pub open spec fn reported_as_seen(patterns: Seq<Seq<u8>>, hay: Seq<u8>, hits: Seq<Hit>) -> bool {
    &&& forall|k: int|
        0 <= k < hits.len() ==> {
            &&& scan_floor(hits, k) <= (#[trigger] hits[k]).start
            &&& occurs_at(patterns, hay, hits[k].pattern as int, hits[k].start as int)
            &&& hits[k].end == hits[k].start + patterns[hits[k].pattern as int].len()
        }
    &&& forall|k: int, p: int, s: int|
        #![trigger hits[k], occurs_at(patterns, hay, p, s)]
        0 <= k < hits.len() && occurs_at(patterns, hay, p, s) && scan_floor(hits, k) <= s ==> s
            + patterns[p].len() >= hits[k].end
    &&& forall|p: int, s: int| #[trigger]
        occurs_at(patterns, hay, p, s) ==> s < scan_floor(hits, hits.len() as int)
}

/// `AhoCorasick::new` with its default (standard) match semantics, then
/// `AhoCorasick::find_iter` over the haystack, of the aho-corasick crate.
/// Standard semantics report a match as soon as the automaton sees one and
/// resume behind it, which is what `reported_as_seen` says. Building the
/// automaton fails only where the patterns exceed the crate's size limits,
/// which a handful of short patterns cannot.
#[verifier::external_body]
fn find_hits(patterns: &Vec<Vec<u8>>, haystack: &[u8]) -> (hits: Vec<Hit>)
    requires
        0 < patterns.deep_view().len() <= 8,
        forall|p: int|
            0 <= p < patterns.deep_view().len() ==> 0 < (#[trigger] patterns.deep_view()[p]).len()
                <= 8,
    ensures
        reported_as_seen(patterns.deep_view(), haystack@, hits@),
{
    let ac = AhoCorasick::new(patterns).unwrap();
    ac.find_iter(haystack).map(
        |m| Hit { pattern: m.pattern().as_usize(), start: m.start(), end: m.end() },
    ).collect()
}

/// Each reported hit is an occurrence of its pattern, behind the hit before it.
pub proof fn lemma_hit_is_occurrence(patterns: Seq<Seq<u8>>, hay: Seq<u8>, hits: Seq<Hit>, k: int)
    requires
        reported_as_seen(patterns, hay, hits),
        0 <= k < hits.len(),
    ensures
        scan_floor(hits, k) <= hits[k].start,
        occurs_at(patterns, hay, hits[k].pattern as int, hits[k].start as int),
        hits[k].end == hits[k].start + patterns[hits[k].pattern as int].len(),
{
    reveal(reported_as_seen);
}

/// No occurrence that begins at or behind the scan floor of hit `k` ends
/// before that hit does.
pub proof fn lemma_hit_is_earliest(
    patterns: Seq<Seq<u8>>,
    hay: Seq<u8>,
    hits: Seq<Hit>,
    k: int,
    p: int,
    s: int,
)
    requires
        reported_as_seen(patterns, hay, hits),
        0 <= k < hits.len(),
        occurs_at(patterns, hay, p, s),
        scan_floor(hits, k) <= s,
    ensures
        s + patterns[p].len() >= hits[k].end,
{
    reveal(reported_as_seen);
}

/// Every occurrence begins before the end of the last hit.
pub proof fn lemma_none_behind_last(
    patterns: Seq<Seq<u8>>,
    hay: Seq<u8>,
    hits: Seq<Hit>,
    p: int,
    s: int,
)
    requires
        reported_as_seen(patterns, hay, hits),
        occurs_at(patterns, hay, p, s),
    ensures
        s < scan_floor(hits, hits.len() as int),
{
    reveal(reported_as_seen);
}

/// The text from the scan floor of hit `k` on, with every hit from `k` on
/// replaced by the replacement of its pattern.
pub open spec fn stitched(src: Seq<u8>, hits: Seq<Hit>, reps: Seq<Seq<u8>>, k: int) -> Seq<u8>
    decreases hits.len() - k,
{
    if k < 0 || k >= hits.len() {
        src.subrange(scan_floor(hits, k), src.len() as int)
    } else {
        src.subrange(scan_floor(hits, k), hits[k].start as int) + reps[hits[k].pattern as int]
            + stitched(src, hits, reps, k + 1)
    }
}

/// Hits that lie in `src` one behind the other, each naming a replacement.
pub open spec fn hits_in_order(src: Seq<u8>, hits: Seq<Hit>, n_reps: int) -> bool {
    forall|k: int|
        0 <= k < hits.len() ==> {
            &&& scan_floor(hits, k) <= (#[trigger] hits[k]).start <= hits[k].end <= src.len()
            &&& hits[k].pattern < n_reps
        }
}

/// Every hit begins and ends next to an ASCII byte, and every replacement is
/// ASCII: replacing the hits then keeps valid UTF-8 valid.
pub open spec fn hits_keep_utf8(src: Seq<u8>, hits: Seq<Hit>, reps: Seq<Seq<u8>>) -> bool {
    &&& valid_utf8(src)
    &&& forall|k: int|
        0 <= k < hits.len() ==> {
            &&& (#[trigger] hits[k]).start < hits[k].end
            &&& src[hits[k].start as int] < 0x80
            &&& src[hits[k].end - 1] < 0x80
        }
    &&& forall|p: int| 0 <= p < reps.len() ==> all_ascii(#[trigger] reps[p])
}

/// Copies `src` with each hit replaced by the replacement of its pattern.
fn replace_hits(src: &[u8], hits: &Vec<Hit>, reps: &Vec<Vec<u8>>) -> (out: Vec<u8>)
    requires
        hits_in_order(src@, hits@, reps@.len() as int),
    ensures
        out@ == stitched(src@, hits@, reps.deep_view(), 0),
        hits_keep_utf8(src@, hits@, reps.deep_view()) ==> valid_utf8(out@),
{
    let mut out: Vec<u8> = Vec::new();
    let mut prev: usize = 0;
    let mut k: usize = 0;
    while k < hits.len()
        invariant
            k <= hits@.len(),
            hits_in_order(src@, hits@, reps@.len() as int),
            prev == scan_floor(hits@, k as int),
            prev <= src@.len(),
            out@ + stitched(src@, hits@, reps.deep_view(), k as int) == stitched(
                src@,
                hits@,
                reps.deep_view(),
                0,
            ),
            hits_keep_utf8(src@, hits@, reps.deep_view()) ==> valid_utf8(out@) && clean_cut(
                src@,
                prev as int,
            ),
        decreases hits@.len() - k,
    {
        let hit: Hit = hits[k];
        let rep: &Vec<u8> = &reps[hit.pattern];
        let ghost before = out@;
        append_range(&mut out, src, prev, hit.start);
        append_range(&mut out, rep.as_slice(), 0, rep.len());
        proof {
            assert(rep@.subrange(0, rep@.len() as int) == rep@);
            assert(reps.deep_view()[hit.pattern as int] == rep@);
            let rest = stitched(src@, hits@, reps.deep_view(), k + 1);
            assert(stitched(src@, hits@, reps.deep_view(), k as int) == src@.subrange(
                prev as int,
                hit.start as int,
            ) + rep@ + rest);
            assert(out@ + rest == before + (src@.subrange(prev as int, hit.start as int) + rep@
                + rest));
            if hits_keep_utf8(src@, hits@, reps.deep_view()) {
                let gap = src@.subrange(prev as int, hit.start as int);
                assert(hits@[k as int].start < hits@[k as int].end);
                lemma_cut_valid(src@, prev as int, hit.start as int);
                lemma_ascii_valid(rep@);
                valid_utf8_concat(before, gap);
                valid_utf8_concat(before + gap, rep@);
            }
        }
        prev = hit.end;
        k = k + 1;
    }
    let ghost before = out@;
    append_range(&mut out, src, prev, src.len());
    proof {
        if hits_keep_utf8(src@, hits@, reps.deep_view()) {
            lemma_cut_valid(src@, prev as int, src@.len() as int);
            valid_utf8_concat(before, src@.subrange(prev as int, src@.len() as int));
        }
    }
    out
}

/// The two bytes that the codec protects: `\` and `@`.
pub open spec fn is_special(b: u8) -> bool {
    b == 0x5c || b == 0x40
}

/// The escaped form of `s`: a `\` goes before every `\` and every `@`.
pub open spec fn escaped(s: Seq<u8>) -> Seq<u8>
    decreases s.len(),
{
    if s.len() == 0 {
        Seq::empty()
    } else if is_special(s[0]) {
        seq![0x5cu8, s[0]] + escaped(s.drop_first())
    } else {
        seq![s[0]] + escaped(s.drop_first())
    }
}

/// An escape pair stands in `s` at `j`: a `\` with a `\` or an `@` behind it.
pub open spec fn pair_at(s: Seq<u8>, j: int) -> bool {
    0 <= j && j + 1 < s.len() && s[j] == 0x5c && is_special(s[j + 1])
}

/// The unescaped form of `s`: reading from the left, every escape pair gives
/// its second byte, and every other byte gives itself.
pub open spec fn unescaped(s: Seq<u8>) -> Seq<u8>
    decreases s.len(),
{
    if s.len() == 0 {
        Seq::empty()
    } else if pair_at(s, 0) {
        seq![s[1]] + unescaped(s.subrange(2, s.len() as int))
    } else {
        seq![s[0]] + unescaped(s.drop_first())
    }
}

/// The patterns that escaping scans for.
pub open spec fn escape_patterns() -> Seq<Seq<u8>> {
    seq![seq![0x5cu8], seq![0x40u8]]
}

/// What escaping writes for each of its patterns.
pub open spec fn escape_replacements() -> Seq<Seq<u8>> {
    seq![seq![0x5cu8, 0x5cu8], seq![0x5cu8, 0x40u8]]
}

/// The patterns that unescaping scans for.
pub open spec fn unescape_patterns() -> Seq<Seq<u8>> {
    seq![seq![0x5cu8, 0x40u8], seq![0x5cu8, 0x5cu8]]
}

/// What unescaping writes for each of its patterns.
pub open spec fn unescape_replacements() -> Seq<Seq<u8>> {
    seq![seq![0x40u8], seq![0x5cu8]]
}

/// Escaping goes through concatenation.
pub proof fn lemma_escaped_concat(a: Seq<u8>, b: Seq<u8>)
    ensures
        escaped(a + b) == escaped(a) + escaped(b),
    decreases a.len(),
{
    if a.len() == 0 {
        assert(a + b =~= b);
    } else {
        assert((a + b).drop_first() =~= a.drop_first() + b);
        lemma_escaped_concat(a.drop_first(), b);
    }
}

/// Text without `\` and `@` is its own escaped form.
pub proof fn lemma_escaped_plain(s: Seq<u8>)
    requires
        forall|i: int| 0 <= i < s.len() ==> !is_special(#[trigger] s[i]),
    ensures
        escaped(s) == s,
    decreases s.len(),
{
    if s.len() > 0 {
        let r = s.drop_first();
        assert forall|i: int| 0 <= i < r.len() implies !is_special(#[trigger] r[i]) by {
            assert(r[i] == s[i + 1]);
        }
        lemma_escaped_plain(r);
        assert(!is_special(s[0]));
        assert(seq![s[0]] + r =~= s);
    }
}

/// Unescaping copies a prefix in which no escape pair begins.
pub proof fn lemma_unescaped_plain_prefix(s: Seq<u8>, g: int)
    requires
        0 <= g <= s.len(),
        forall|j: int| 0 <= j < g ==> !pair_at(s, j),
    ensures
        unescaped(s) == s.subrange(0, g) + unescaped(s.subrange(g, s.len() as int)),
    decreases g,
{
    if g == 0 {
        assert(s.subrange(0, s.len() as int) =~= s);
        assert(s.subrange(0, 0) + unescaped(s) =~= unescaped(s));
    } else {
        let r = s.drop_first();
        assert(!pair_at(s, 0));
        assert forall|j: int| 0 <= j < g - 1 implies !pair_at(r, j) by {
            assert(!pair_at(s, j + 1));
            if j + 1 < r.len() {
                assert(r[j] == s[j + 1] && r[j + 1] == s[j + 2]);
            }
        }
        lemma_unescaped_plain_prefix(r, g - 1);
        assert(r.subrange(g - 1, r.len() as int) =~= s.subrange(g, s.len() as int));
        assert(seq![s[0]] + r.subrange(0, g - 1) =~= s.subrange(0, g));
    }
}

/// Unescaping undoes escaping, for every text.
pub proof fn lemma_unescape_escape(s: Seq<u8>)
    ensures
        unescaped(escaped(s)) == s,
    decreases s.len(),
{
    if s.len() > 0 {
        let r = s.drop_first();
        let er = escaped(r);
        lemma_unescape_escape(r);
        if is_special(s[0]) {
            let e = seq![0x5cu8, s[0]] + er;
            assert(e[0] == 0x5c && e[1] == s[0]);
            assert(pair_at(e, 0));
            assert(e.subrange(2, e.len() as int) =~= er);
            assert(seq![s[0]] + r =~= s);
        } else {
            let e = seq![s[0]] + er;
            assert(e[0] == s[0]);
            assert(!pair_at(e, 0));
            assert(e.drop_first() =~= er);
            assert(seq![s[0]] + r =~= s);
        }
    }
}

/// Unescaping what escaping made of a string gives the string back: where
/// `e` is the escaped form of `s` and `u` the unescaped form of `e`, as
/// `escape_content` and `unescape_content` return them, `u` is `s`.
pub proof fn lemma_escape_round_trip(s: Seq<char>, e: Seq<char>, u: Seq<char>)
    requires
        bytes_of(e) == escaped(bytes_of(s)),
        bytes_of(u) == unescaped(bytes_of(e)),
    ensures
        u == s,
{
    lemma_unescape_escape(bytes_of(s));
    encode_utf8_decode_utf8(u);
    encode_utf8_decode_utf8(s);
}

/// In escaped text every `@` has a `\` before it, so no line of it begins
/// with `@`.
pub proof fn lemma_escaped_at_follows_backslash(s: Seq<u8>, i: int)
    requires
        0 <= i < escaped(s).len(),
        escaped(s)[i] == 0x40,
    ensures
        i > 0,
        escaped(s)[i - 1] == 0x5c,
    decreases s.len(),
{
    let r = s.drop_first();
    if s.len() > 0 {
        if is_special(s[0]) {
            if i >= 2 {
                lemma_escaped_at_follows_backslash(r, i - 2);
            }
        } else {
            if i >= 1 {
                lemma_escaped_at_follows_backslash(r, i - 1);
            }
        }
    }
}

/// The escaped form of a single byte.
proof fn lemma_escaped_one(b: u8)
    ensures
        escaped(seq![b]) == if is_special(b) {
            seq![0x5cu8, b]
        } else {
            seq![b]
        },
{
    let s = seq![b];
    assert(s.drop_first() =~= Seq::<u8>::empty());
    assert(escaped(s.drop_first()) =~= Seq::<u8>::empty());
    assert(s[0] == b);
    if is_special(b) {
        assert(escaped(s) =~= seq![0x5cu8, b]);
    } else {
        assert(escaped(s) =~= seq![b]);
    }
}

/// A `\` or an `@` at offset `j` is an occurrence of an escaping pattern.
proof fn lemma_special_occurs(src: Seq<u8>, j: int)
    requires
        0 <= j < src.len(),
        is_special(src[j]),
    ensures
        occurs_at(escape_patterns(), src, if src[j] == 0x5c { 0int } else { 1int }, j),
{
    let p: int = if src[j] == 0x5c { 0 } else { 1 };
    assert(src.subrange(j, j + 1) =~= escape_patterns()[p]);
}

/// An escape pair at offset `j` is an occurrence of an unescaping pattern.
proof fn lemma_pair_occurs(src: Seq<u8>, j: int)
    requires
        pair_at(src, j),
    ensures
        occurs_at(unescape_patterns(), src, if src[j + 1] == 0x40 { 0int } else { 1int }, j),
{
    let p: int = if src[j + 1] == 0x40 { 0 } else { 1 };
    assert(src.subrange(j, j + 2) =~= unescape_patterns()[p]);
}

/// With the hits of a standard scan for `\` and `@`, replacing each hit by
/// its escape gives the escaped text.
proof fn lemma_stitched_escape(src: Seq<u8>, hits: Seq<Hit>, k: int)
    requires
        reported_as_seen(escape_patterns(), src, hits),
        0 <= k <= hits.len(),
    ensures
        stitched(src, hits, escape_replacements(), k) == escaped(
            src.subrange(scan_floor(hits, k), src.len() as int),
        ),
        scan_floor(hits, k) <= src.len(),
    decreases hits.len() - k,
{
    let pats = escape_patterns();
    let f = scan_floor(hits, k);
    if k > 0 {
        lemma_hit_is_occurrence(pats, src, hits, k - 1);
    }
    let tail = src.subrange(f, src.len() as int);
    if k == hits.len() {
        assert forall|i: int| 0 <= i < tail.len() implies !is_special(#[trigger] tail[i]) by {
            if is_special(tail[i]) {
                lemma_special_occurs(src, f + i);
                lemma_none_behind_last(pats, src, hits, if src[f + i] == 0x5c { 0 } else { 1 }, f + i);
            }
        }
        lemma_escaped_plain(tail);
    } else {
        let h = hits[k];
        let st = h.start as int;
        lemma_hit_is_occurrence(pats, src, hits, k);
        let gap = src.subrange(f, st);
        assert forall|i: int| 0 <= i < gap.len() implies !is_special(#[trigger] gap[i]) by {
            if is_special(gap[i]) {
                lemma_special_occurs(src, f + i);
                lemma_hit_is_earliest(pats, src, hits, k, if src[f + i] == 0x5c { 0 } else { 1 }, f + i);
            }
        }
        lemma_escaped_plain(gap);
        let one = src.subrange(st, st + 1);
        assert(one[0] == src[st]);
        let rest = src.subrange(st + 1, src.len() as int);
        assert(tail =~= gap + (one + rest));
        lemma_escaped_concat(gap, one + rest);
        lemma_escaped_concat(one, rest);
        lemma_escaped_one(src[st]);
        assert(one =~= seq![src[st]]);
        assert(escaped(one) =~= escape_replacements()[h.pattern as int]);
        lemma_stitched_escape(src, hits, k + 1);
    }
}

/// With the hits of a standard scan for `\@` and `\\`, replacing each hit by
/// its second byte gives the unescaped text.
proof fn lemma_stitched_unescape(src: Seq<u8>, hits: Seq<Hit>, k: int)
    requires
        reported_as_seen(unescape_patterns(), src, hits),
        0 <= k <= hits.len(),
    ensures
        stitched(src, hits, unescape_replacements(), k) == unescaped(
            src.subrange(scan_floor(hits, k), src.len() as int),
        ),
        scan_floor(hits, k) <= src.len(),
    decreases hits.len() - k,
{
    let pats = unescape_patterns();
    let f = scan_floor(hits, k);
    if k > 0 {
        lemma_hit_is_occurrence(pats, src, hits, k - 1);
    }
    let tail = src.subrange(f, src.len() as int);
    if k == hits.len() {
        assert forall|j: int| 0 <= j < tail.len() implies !pair_at(tail, j) by {
            if pair_at(tail, j) {
                assert(pair_at(src, f + j));
                lemma_pair_occurs(src, f + j);
                lemma_none_behind_last(pats, src, hits, if src[f + j + 1] == 0x40 { 0 } else { 1 }, f + j);
            }
        }
        lemma_unescaped_plain_prefix(tail, tail.len() as int);
        assert(tail.subrange(0, tail.len() as int) =~= tail);
        assert(tail.subrange(tail.len() as int, tail.len() as int) =~= Seq::<u8>::empty());
        assert(tail + Seq::<u8>::empty() =~= tail);
    } else {
        let h = hits[k];
        let st = h.start as int;
        lemma_hit_is_occurrence(pats, src, hits, k);
        assert forall|j: int| 0 <= j < st - f implies !pair_at(tail, j) by {
            if pair_at(tail, j) {
                assert(pair_at(src, f + j));
                lemma_pair_occurs(src, f + j);
                lemma_hit_is_earliest(pats, src, hits, k, if src[f + j + 1] == 0x40 { 0 } else { 1 }, f + j);
            }
        }
        lemma_unescaped_plain_prefix(tail, st - f);
        let two = src.subrange(st, st + 2);
        assert(two[0] == src[st] && two[1] == src[st + 1]);
        let at_hit = tail.subrange(st - f, tail.len() as int);
        assert(at_hit =~= src.subrange(st, src.len() as int));
        assert(pair_at(at_hit, 0));
        assert(at_hit.subrange(2, at_hit.len() as int) =~= src.subrange(st + 2, src.len() as int));
        assert(seq![at_hit[1]] =~= unescape_replacements()[h.pattern as int]);
        assert(tail.subrange(0, st - f) =~= src.subrange(f, st));
        lemma_stitched_unescape(src, hits, k + 1);
    }
}

/// What a standard scan reports lies in order inside the haystack.
proof fn lemma_reported_in_order(patterns: Seq<Seq<u8>>, src: Seq<u8>, hits: Seq<Hit>)
    requires
        reported_as_seen(patterns, src, hits),
    ensures
        hits_in_order(src, hits, patterns.len() as int),
{
    assert forall|k: int| 0 <= k < hits.len() implies {
        &&& scan_floor(hits, k) <= (#[trigger] hits[k]).start <= hits[k].end <= src.len()
        &&& hits[k].pattern < patterns.len()
    } by {
        lemma_hit_is_occurrence(patterns, src, hits, k);
    }
}

/// The escaped form of `content`, as bytes.
pub fn escape_bytes(content: &[u8]) -> (out: Vec<u8>)
    ensures
        out@ == escaped(content@),
        valid_utf8(content@) ==> valid_utf8(out@),
{
    let mut patterns: Vec<Vec<u8>> = Vec::new();
    patterns.push(vec![0x5cu8]);
    patterns.push(vec![0x40u8]);
    let mut reps: Vec<Vec<u8>> = Vec::new();
    reps.push(vec![0x5cu8, 0x5cu8]);
    reps.push(vec![0x5cu8, 0x40u8]);
    assert(patterns.deep_view() =~~= escape_patterns());
    assert(reps.deep_view() =~~= escape_replacements());
    let hits = find_hits(&patterns, content);
    proof {
        lemma_reported_in_order(escape_patterns(), content@, hits@);
        lemma_stitched_escape(content@, hits@, 0);
        assert(content@.subrange(0, content@.len() as int) =~= content@);
        assert forall|k: int| 0 <= k < hits@.len() implies {
            &&& (#[trigger] hits@[k]).start < hits@[k].end
            &&& content@[hits@[k].start as int] < 0x80
            &&& content@[hits@[k].end - 1] < 0x80
        } by {
            let h = hits@[k];
            lemma_hit_is_occurrence(escape_patterns(), content@, hits@, k);
            let one = content@.subrange(h.start as int, h.start + 1);
            assert(one[0] == content@[h.start as int]);
        }
    }
    replace_hits(content, &hits, &reps)
}

/// The unescaped form of `content`, as bytes.
pub fn unescape_bytes(content: &[u8]) -> (out: Vec<u8>)
    ensures
        out@ == unescaped(content@),
        valid_utf8(content@) ==> valid_utf8(out@),
{
    let mut patterns: Vec<Vec<u8>> = Vec::new();
    patterns.push(vec![0x5cu8, 0x40u8]);
    patterns.push(vec![0x5cu8, 0x5cu8]);
    let mut reps: Vec<Vec<u8>> = Vec::new();
    reps.push(vec![0x40u8]);
    reps.push(vec![0x5cu8]);
    assert(patterns.deep_view() =~~= unescape_patterns());
    assert(reps.deep_view() =~~= unescape_replacements());
    let hits = find_hits(&patterns, content);
    proof {
        lemma_reported_in_order(unescape_patterns(), content@, hits@);
        lemma_stitched_unescape(content@, hits@, 0);
        assert(content@.subrange(0, content@.len() as int) =~= content@);
        assert forall|k: int| 0 <= k < hits@.len() implies {
            &&& (#[trigger] hits@[k]).start < hits@[k].end
            &&& content@[hits@[k].start as int] < 0x80
            &&& content@[hits@[k].end - 1] < 0x80
        } by {
            let h = hits@[k];
            lemma_hit_is_occurrence(unescape_patterns(), content@, hits@, k);
            let two = content@.subrange(h.start as int, h.start + 2);
            assert(two[0] == content@[h.start as int]);
            assert(two[1] == content@[h.start + 1]);
        }
    }
    replace_hits(content, &hits, &reps)
}

/// Makes `content` safe to stand between a chunk's header and its
/// terminator: `\` becomes `\\` and `@` becomes `\@`, in one scan.
pub fn escape_content(content: &str) -> (out: String)
    ensures
        bytes_of(out@) == escaped(bytes_of(content@)),
{
    make_string(escape_bytes(str_bytes(content)))
}

/// Undoes `escape_content`: `\\` becomes `\` and `\@` becomes `@`, in one
/// scan from the left; every other byte stays.
pub fn unescape_content(content: &str) -> (out: String)
    ensures
        bytes_of(out@) == unescaped(bytes_of(content@)),
{
    make_string(unescape_bytes(str_bytes(content)))
}

} // verus!
