//! Byte-level text helpers: UTF-8 cut points, line offsets and decimal numbers.

use vstd::prelude::*;
use vstd::utf8::*;

verus! {

/// The bytes of a string: the UTF-8 encoding of its characters.
pub open spec fn bytes_of(s: Seq<char>) -> Seq<u8> {
    encode_utf8(s)
}

/// True when every byte of `s` is an ASCII byte.
pub open spec fn all_ascii(s: Seq<u8>) -> bool {
    forall|i: int| 0 <= i < s.len() ==> #[trigger] s[i] < 0x80
}

/// A position at which valid UTF-8 can be cut without splitting a character:
/// either end of the text, or a position next to an ASCII byte.
pub open spec fn clean_cut(s: Seq<u8>, i: int) -> bool {
    &&& 0 <= i <= s.len()
    &&& (i == 0 || i == s.len() || s[i - 1] < 0x80 || s[i] < 0x80)
}

/// A clean cut of valid UTF-8 is a character boundary.
pub proof fn lemma_clean_cut_is_boundary(s: Seq<u8>, i: int)
    requires
        valid_utf8(s),
        clean_cut(s, i),
    ensures
        is_char_boundary(s, i),
{
    if i == 0 || i == s.len() {
        is_char_boundary_start_end_of_seq(s);
    } else if s[i] < 0x80 {
        is_char_boundary_iff_not_is_continuation_byte(s, i);
    } else {
        is_char_boundary_iff_not_is_continuation_byte(s, i - 1);
        valid_utf8_split(s, i - 1);
        let t = s.subrange(i - 1, s.len() as int);
        assert(t[0] == s[i - 1]);
        assert(valid_first_scalar(t) && valid_utf8(pop_first_scalar(t)));
        assert(length_of_first_scalar(t) == 1);
        let u = pop_first_scalar(t);
        assert(u =~= s.subrange(i, s.len() as int));
        assert(u.len() > 0);
        assert(valid_first_scalar(u));
        assert(u[0] == s[i]);
        assert(!is_continuation_byte(s[i]));
        is_char_boundary_iff_not_is_continuation_byte(s, i);
    }
}

/// The text between two clean cuts of valid UTF-8 is valid UTF-8.
pub proof fn lemma_cut_valid(s: Seq<u8>, a: int, b: int)
    requires
        valid_utf8(s),
        clean_cut(s, a),
        clean_cut(s, b),
        a <= b,
    ensures
        valid_utf8(s.subrange(a, b)),
{
    lemma_clean_cut_is_boundary(s, a);
    lemma_clean_cut_is_boundary(s, b);
    valid_utf8_split(s, b);
    let p = s.subrange(0, b);
    if a == 0 || a == b {
        is_char_boundary_start_end_of_seq(p);
    } else {
        is_char_boundary_iff_not_is_continuation_byte(s, a);
        assert(p[a] == s[a]);
        is_char_boundary_iff_not_is_continuation_byte(p, a);
    }
    valid_utf8_split(p, a);
    assert(p.subrange(a, p.len() as int) =~= s.subrange(a, b));
}

/// ASCII bytes are valid UTF-8.
pub proof fn lemma_ascii_valid(s: Seq<u8>)
    requires
        all_ascii(s),
    ensures
        valid_utf8(s),
    decreases s.len(),
{
    if s.len() > 0 {
        assert(s[0] < 0x80);
        assert(is_leading_byte_width_1(s[0]));
        let r = pop_first_scalar(s);
        assert(r =~= s.subrange(1, s.len() as int));
        assert forall|i: int| 0 <= i < r.len() implies #[trigger] r[i] < 0x80 by {
            assert(r[i] == s[i + 1]);
        }
        lemma_ascii_valid(r);
        let b: u8 = s[0];
        assert((b & 0x7F) < 0x80) by (bit_vector);
    }
}

/// `String::from_utf8` of std, with its error dropped: the bytes become a
/// string exactly when they are valid UTF-8, and the string then holds those
/// bytes.
#[verifier::external_body]
fn string_from_utf8(bytes: Vec<u8>) -> (r: Option<String>)
    ensures
        valid_utf8(bytes@) ==> r is Some,
        r matches Some(s) ==> bytes_of(s@) == bytes@,
{
    String::from_utf8(bytes).ok()
}

/// The string that valid UTF-8 bytes encode.
pub(crate) fn make_string(bytes: Vec<u8>) -> (s: String)
    requires
        valid_utf8(bytes@),
    ensures
        bytes_of(s@) == bytes@,
{
    match string_from_utf8(bytes) {
        Some(s) => s,
        None => vstd::pervasive::unreached(),
    }
}

/// The bytes of a string slice.
pub(crate) fn str_bytes(s: &str) -> (b: &[u8])
    ensures
        b@ == bytes_of(s@),
        valid_utf8(b@),
{
    proof {
        encode_utf8_valid_utf8(s@);
    }
    s.as_bytes()
}

/// Appends `src[from..to]` to `out`.
pub(crate) fn append_range(out: &mut Vec<u8>, src: &[u8], from: usize, to: usize)
    requires
        from <= to <= src@.len(),
    ensures
        final(out)@ == old(out)@ + src@.subrange(from as int, to as int),
{
    let mut i: usize = from;
    while i < to
        invariant
            from <= i <= to <= src@.len(),
            out@ == old(out)@ + src@.subrange(from as int, i as int),
        decreases to - i,
    {
        out.push(src[i]);
        i = i + 1;
        assert(src@.subrange(from as int, i as int) == src@.subrange(from as int, i - 1).push(
            src@[i - 1],
        ));
    }
}

/// The string that `s[from..to]` holds.
pub(crate) fn string_between(s: &[u8], from: usize, to: usize) -> (out: String)
    requires
        valid_utf8(s@),
        from <= to <= s@.len(),
        clean_cut(s@, from as int),
        clean_cut(s@, to as int),
    ensures
        bytes_of(out@) == s@.subrange(from as int, to as int),
{
    let mut bytes: Vec<u8> = Vec::new();
    append_range(&mut bytes, s, from, to);
    proof {
        lemma_cut_valid(s@, from as int, to as int);
        assert(bytes@ =~= s@.subrange(from as int, to as int));
    }
    make_string(bytes)
}

/// True when the two texts are the same.
pub fn same_text(a: &str, b: &str) -> (r: bool)
    ensures
        r == (a@ == b@),
{
    let x = str_bytes(a);
    let y = str_bytes(b);
    proof {
        encode_utf8_decode_utf8(a@);
        encode_utf8_decode_utf8(b@);
    }
    if x.len() != y.len() {
        return false;
    }
    let mut i: usize = 0;
    while i < x.len()
        invariant
            i <= x@.len(),
            x@.len() == y@.len(),
            x@ == bytes_of(a@),
            y@ == bytes_of(b@),
            forall|j: int| 0 <= j < i ==> x@[j] == y@[j],
        decreases x@.len() - i,
    {
        if x[i] != y[i] {
            return false;
        }
        i = i + 1;
    }
    assert(x@ =~= y@);
    true
}

/// The string that `bytes` encode, where they are valid UTF-8.
pub(crate) fn try_string(bytes: Vec<u8>) -> (r: Option<String>)
    ensures
        r is Some <==> valid_utf8(bytes@),
        r matches Some(s) ==> bytes_of(s@) == bytes@,
{
    let r = string_from_utf8(bytes);
    proof {
        if r is Some {
            encode_utf8_valid_utf8(r->Some_0@);
        }
    }
    r
}

/// The offset of the first line feed at or behind `pos`, or the length of
/// `s` where none is left.
pub open spec fn line_end(s: Seq<u8>, pos: int) -> int
    decreases s.len() - pos,
{
    if pos < 0 || pos >= s.len() {
        s.len() as int
    } else if s[pos] == 0x0a {
        pos
    } else {
        line_end(s, pos + 1)
    }
}

/// The offset at which the line behind the one at `pos` begins: behind the
/// line feed that ends the line at `pos`, or the length of `s`.
pub open spec fn next_line(s: Seq<u8>, pos: int) -> int {
    if line_end(s, pos) < s.len() {
        line_end(s, pos) + 1
    } else {
        s.len() as int
    }
}

/// The offset reached from `pos` by passing over `k` lines, each with its
/// line feed; the end of `s` where fewer are left.
pub open spec fn skip_lines(s: Seq<u8>, pos: int, k: nat) -> int
    decreases k,
{
    if k == 0 {
        pos
    } else {
        skip_lines(s, next_line(s, pos), (k - 1) as nat)
    }
}

/// The number of lines from `pos` on: each line feed ends one, and text
/// behind the last line feed is one more.
pub open spec fn count_lines(s: Seq<u8>, pos: int) -> nat
    decreases s.len() - pos,
{
    if pos < 0 || pos >= s.len() {
        0
    } else if s[pos] == 0x0a || pos + 1 == s.len() {
        1 + count_lines(s, pos + 1)
    } else {
        count_lines(s, pos + 1)
    }
}

/// A line that begins inside the text counts as one, before those behind it.
pub proof fn lemma_count_lines_step(s: Seq<u8>, pos: int)
    requires
        0 <= pos < s.len(),
    ensures
        count_lines(s, pos) == 1 + count_lines(s, next_line(s, pos)),
    decreases s.len() - pos,
{
    if s[pos] == 0x0a {
        assert(line_end(s, pos) == pos);
    } else if pos + 1 == s.len() {
        assert(line_end(s, pos + 1) == s.len());
        assert(line_end(s, pos) == s.len());
        assert(count_lines(s, pos + 1) == 0);
    } else {
        assert(line_end(s, pos) == line_end(s, pos + 1));
        lemma_count_lines_step(s, pos + 1);
    }
}

/// No text has more lines than bytes.
pub proof fn lemma_count_lines_bound(s: Seq<u8>, pos: int)
    requires
        0 <= pos <= s.len(),
    ensures
        count_lines(s, pos) <= s.len() - pos,
    decreases s.len() - pos,
{
    if pos < s.len() {
        lemma_count_lines_bound(s, pos + 1);
    }
}

/// Where `line_end` lands: inside the text, on a line feed or at the end,
/// with no line feed before it.
pub proof fn lemma_line_end(s: Seq<u8>, pos: int)
    requires
        0 <= pos <= s.len(),
    ensures
        pos <= line_end(s, pos) <= s.len(),
        line_end(s, pos) < s.len() ==> s[line_end(s, pos)] == 0x0a,
        forall|j: int| pos <= j < line_end(s, pos) ==> s[j] != 0x0a,
        pos < s.len() ==> pos < next_line(s, pos) <= s.len(),
        pos == s.len() ==> next_line(s, pos) == pos,
        clean_cut(s, next_line(s, pos)),
    decreases s.len() - pos,
{
    if pos < s.len() && s[pos] != 0x0a {
        lemma_line_end(s, pos + 1);
    }
}

/// Passing over lines never leaves the text and never goes back.
pub proof fn lemma_skip_lines(s: Seq<u8>, pos: int, k: nat)
    requires
        0 <= pos <= s.len(),
    ensures
        pos <= skip_lines(s, pos, k) <= s.len(),
        clean_cut(s, pos) ==> clean_cut(s, skip_lines(s, pos, k)),
    decreases k,
{
    if k > 0 {
        lemma_line_end(s, pos);
        lemma_skip_lines(s, next_line(s, pos), (k - 1) as nat);
    }
}

/// Passing over `a` lines and then over `b` more is passing over `a + b`.
pub proof fn lemma_skip_lines_add(s: Seq<u8>, pos: int, a: nat, b: nat)
    ensures
        skip_lines(s, skip_lines(s, pos, a), b) == skip_lines(s, pos, a + b),
    decreases a,
{
    if a > 0 {
        lemma_skip_lines_add(s, next_line(s, pos), (a - 1) as nat, b);
    }
}

/// The offset of the line feed that ends the line at `pos`.
pub fn find_line_end(s: &[u8], pos: usize) -> (end: usize)
    requires
        pos <= s@.len(),
    ensures
        end == line_end(s@, pos as int),
        pos <= end <= s@.len(),
{
    let mut i: usize = pos;
    while i < s.len() && s[i] != 0x0a
        invariant
            pos <= i <= s@.len(),
            line_end(s@, pos as int) == line_end(s@, i as int),
        decreases s@.len() - i,
    {
        i = i + 1;
    }
    proof {
        lemma_line_end(s@, i as int);
    }
    i
}

/// The offset at which the line behind the one at `pos` begins.
pub fn find_next_line(s: &[u8], pos: usize) -> (next: usize)
    requires
        pos <= s@.len(),
    ensures
        next == next_line(s@, pos as int),
        pos <= next <= s@.len(),
        pos < s@.len() ==> pos < next,
{
    let end = find_line_end(s, pos);
    proof {
        lemma_line_end(s@, pos as int);
    }
    if end < s.len() {
        end + 1
    } else {
        end
    }
}

/// The offset reached from `pos` by passing over `k` lines.
pub fn find_skip_lines(s: &[u8], pos: usize, k: usize) -> (at: usize)
    requires
        pos <= s@.len(),
    ensures
        at == skip_lines(s@, pos as int, k as nat),
        pos <= at <= s@.len(),
{
    let mut at: usize = pos;
    let mut done: usize = 0;
    while done < k && at < s.len()
        invariant
            done <= k,
            pos <= at <= s@.len(),
            at == skip_lines(s@, pos as int, done as nat),
        decreases k - done,
    {
        proof {
            lemma_skip_lines_add(s@, pos as int, done as nat, 1);
            assert(skip_lines(s@, at as int, 1) == next_line(s@, at as int)) by {
                assert(skip_lines(s@, next_line(s@, at as int), 0) == next_line(s@, at as int));
            }
        }
        at = find_next_line(s, at);
        done = done + 1;
    }
    proof {
        if done < k {
            lemma_skip_at_end(s@, (k - done) as nat);
            lemma_skip_lines_add(s@, pos as int, done as nat, (k - done) as nat);
        }
    }
    at
}

/// At the end of the text there is no line left to pass over.
pub proof fn lemma_skip_at_end(s: Seq<u8>, k: nat)
    ensures
        skip_lines(s, s.len() as int, k) == s.len(),
    decreases k,
{
    if k > 0 {
        lemma_skip_at_end(s, (k - 1) as nat);
    }
}

/// The number of lines of `s`.
pub fn count_all_lines(s: &[u8]) -> (n: usize)
    ensures
        n == count_lines(s@, 0),
{
    let mut at: usize = 0;
    let mut n: usize = 0;
    while at < s.len()
        invariant
            at <= s@.len(),
            n <= at,
            n + count_lines(s@, at as int) == count_lines(s@, 0),
        decreases s@.len() - at,
    {
        proof {
            lemma_count_lines_step(s@, at as int);
        }
        at = find_next_line(s, at);
        n = n + 1;
    }
    n
}

/// An ASCII decimal digit.
pub open spec fn is_digit(b: u8) -> bool {
    0x30 <= b <= 0x39
}

/// True when `s` holds decimal digits only.
pub open spec fn all_digits(s: Seq<u8>) -> bool {
    forall|i: int| 0 <= i < s.len() ==> is_digit(#[trigger] s[i])
}

/// The number that a run of decimal digits writes.
pub open spec fn digits_value(s: Seq<u8>) -> nat
    decreases s.len(),
{
    if s.len() == 0 {
        0
    } else {
        (digits_value(s.drop_last()) * 10 + (s.last() - 0x30)) as nat
    }
}

/// The digits of a number field: the field without one leading `+`.
pub open spec fn digits_part(field: Seq<u8>) -> Seq<u8> {
    if field.len() > 0 && field[0] == 0x2b {
        field.drop_first()
    } else {
        field
    }
}

/// The number that a field writes, as `usize` reads it: an optional `+`,
/// then one decimal digit or more, of a value that fits.
pub open spec fn number_in(field: Seq<u8>) -> Option<usize> {
    let d = digits_part(field);
    if d.len() > 0 && all_digits(d) && digits_value(d) <= usize::MAX {
        Some(digits_value(d) as usize)
    } else {
        None
    }
}

/// The decimal digits of `n`, without leading zeros.
pub open spec fn decimal(n: nat) -> Seq<u8>
    decreases n,
{
    if n < 10 {
        seq![(0x30 + n) as u8]
    } else {
        decimal(n / 10).push((0x30 + n % 10) as u8)
    }
}

/// A longer run of digits writes no smaller number than its beginning.
pub proof fn lemma_digits_prefix_le(s: Seq<u8>, i: int)
    requires
        0 <= i <= s.len(),
        all_digits(s),
    ensures
        digits_value(s.subrange(0, i)) <= digits_value(s),
    decreases s.len() - i,
{
    if i < s.len() {
        let t = s.subrange(0, i + 1);
        assert(t.drop_last() =~= s.subrange(0, i));
        assert(is_digit(s[i]));
        assert(t.last() == s[i]);
        lemma_digits_prefix_le(s, i + 1);
    } else {
        assert(s.subrange(0, i) =~= s);
    }
}

/// The decimal digits of a number are digits, and they write that number.
pub proof fn lemma_decimal(n: nat)
    ensures
        decimal(n).len() > 0,
        all_digits(decimal(n)),
        digits_value(decimal(n)) == n,
    decreases n,
{
    if n < 10 {
        let s = decimal(n);
        assert(s.drop_last() =~= Seq::<u8>::empty());
        assert(digits_value(s.drop_last()) == 0);
        assert(s.last() == (0x30 + n) as u8);
        assert(s[0] == (0x30 + n) as u8);
    } else {
        lemma_decimal(n / 10);
        let s = decimal(n);
        assert(s.drop_last() =~= decimal(n / 10));
        assert(s.last() == (0x30 + n % 10) as u8);
    }
}

/// What `number_in` reads from the decimal digits of a `usize` is that number.
pub proof fn lemma_number_in_decimal(n: usize)
    ensures
        number_in(decimal(n as nat)) == Some(n),
{
    lemma_decimal(n as nat);
    let s = decimal(n as nat);
    assert(is_digit(s[0]));
}

/// Reads a number field as `usize` does.
pub fn parse_number(field: &[u8]) -> (r: Option<usize>)
    ensures
        r == number_in(field@),
{
    let start: usize = if field.len() > 0 && field[0] == 0x2b { 1 } else { 0 };
    let ghost d = digits_part(field@);
    assert(d =~= field@.subrange(start as int, field@.len() as int));
    if start == field.len() {
        return None;
    }
    let mut acc: usize = 0;
    let mut i: usize = start;
    while i < field.len()
        invariant
            start <= i <= field@.len(),
            d == field@.subrange(start as int, field@.len() as int),
            d == digits_part(field@),
            all_digits(d.subrange(0, i - start)),
            acc == digits_value(d.subrange(0, i - start)),
        decreases field@.len() - i,
    {
        let b: u8 = field[i];
        let ghost pre = d.subrange(0, i - start);
        let ghost cur = d.subrange(0, i - start + 1);
        assert(cur.drop_last() =~= pre);
        assert(cur.last() == b);
        assert(d[i - start] == b);
        if b < 0x30 || b > 0x39 {
            assert(!is_digit(d[i - start]));
            assert(!all_digits(d));
            return None;
        }
        assert forall|j: int| 0 <= j < cur.len() implies is_digit(#[trigger] cur[j]) by {
            if j < pre.len() {
                assert(cur[j] == pre[j]);
            }
        }
        let digit: usize = (b - 0x30) as usize;
        if acc > (usize::MAX - digit) / 10 {
            proof {
                assert(digits_value(cur) == acc * 10 + digit);
                assert(digits_value(cur) > usize::MAX);
                if all_digits(d) {
                    lemma_digits_prefix_le(d, i - start + 1);
                }
            }
            return None;
        }
        acc = acc * 10 + digit;
        i = i + 1;
    }
    assert(d.subrange(0, i - start) =~= d);
    Some(acc)
}

/// Appends the decimal digits of `n` to `out`.
pub fn push_decimal(out: &mut Vec<u8>, n: usize)
    ensures
        final(out)@ == old(out)@ + decimal(n as nat),
    decreases n,
{
    if n >= 10 {
        push_decimal(out, n / 10);
    }
    let digit: u8 = (n % 10) as u8;
    out.push(0x30 + digit);
    proof {
        if n >= 10 {
            assert(old(out)@ + decimal((n / 10) as nat).push((0x30 + n % 10) as u8) =~= (old(out)@
                + decimal((n / 10) as nat)).push((0x30 + digit) as u8));
        } else {
            assert(old(out)@ + seq![(0x30 + n) as u8] =~= old(out)@.push((0x30 + digit) as u8));
        }
    }
}

} // verus!
