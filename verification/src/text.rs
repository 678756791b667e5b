//! Byte-level views of text: positions, slices, prefixes and the order of strings.
//!
//! Positions in a text are byte offsets into its UTF-8 encoding. A position is usable
//! as a cut point when it lies on a character boundary.

use vstd::prelude::*;
use vstd::string::StringSliceAdditionalSpecFns;
use vstd::utf8::*;

verus! {

/// Position `i` is a cut point of `src`: it lies within the text and does not
/// point into the middle of a character.
pub open spec fn on_boundary(src: Seq<u8>, i: int) -> bool {
    0 <= i <= src.len() && (i < src.len() ==> !is_continuation_byte(src[i]))
}

/// The characters encoded by the bytes of `src` in `[a, b)`.
pub open spec fn text_between(src: Seq<u8>, a: int, b: int) -> Seq<char> {
    decode_utf8(src.subrange(a, b))
}

/// `src` holds the bytes of `pat` starting at position `at`.
pub open spec fn has_prefix_at(src: Seq<u8>, at: int, pat: Seq<u8>) -> bool {
    0 <= at && at + pat.len() <= src.len() && src.subrange(at, at + pat.len()) == pat
}

/// Strict lexicographic order on byte strings.
pub open spec fn precedes(a: Seq<u8>, b: Seq<u8>) -> bool
    decreases a.len(),
{
    if b.len() == 0 {
        false
    } else if a.len() == 0 {
        true
    } else if a[0] != b[0] {
        a[0] < b[0]
    } else {
        precedes(a.drop_first(), b.drop_first())
    }
}

/// Strict order on texts: the lexicographic order of their encodings.
pub open spec fn text_precedes(a: Seq<char>, b: Seq<char>) -> bool {
    precedes(encode_utf8(a), encode_utf8(b))
}

/// The byte that ends a line.
pub open spec fn is_newline(b: u8) -> bool {
    b == 0x0a
}

/// The start of the line that holds position `at`: just after the last line end
/// before `at`, or the start of the text.
pub open spec fn line_start(src: Seq<u8>, at: int) -> int
    decreases at,
{
    if at <= 0 {
        0
    } else if at <= src.len() && is_newline(src[at - 1]) {
        at
    } else {
        line_start(src, at - 1)
    }
}

/// The end of the line that holds position `at`: the first line end at or after
/// `at`, or the end of the text.
pub open spec fn line_end(src: Seq<u8>, at: int) -> int
    decreases src.len() - at,
{
    if at >= src.len() {
        src.len() as int
    } else if at >= 0 && is_newline(src[at]) {
        at
    } else {
        line_end(src, at + 1)
    }
}

/// A text is determined by its encoding.
pub proof fn lemma_encoding_injective(a: Seq<char>, b: Seq<char>)
    requires
        encode_utf8(a) == encode_utf8(b),
    ensures
        a == b,
{
    encode_utf8_decode_utf8(a);
    encode_utf8_decode_utf8(b);
}

/// On well-formed text, the cut points are the character boundaries.
pub proof fn lemma_boundary_agrees(src: Seq<u8>, i: int)
    requires
        valid_utf8(src),
    ensures
        on_boundary(src, i) <==> (0 <= i <= src.len() && is_char_boundary(src, i)),
{
    if 0 <= i < src.len() {
        is_char_boundary_iff_not_is_continuation_byte(src, i);
    } else if i == src.len() {
        is_char_boundary_start_end_of_seq(src);
    }
}

/// The start and the end of a text are cut points.
pub proof fn lemma_ends_on_boundary(src: Seq<u8>)
    requires
        valid_utf8(src),
    ensures
        on_boundary(src, 0),
        on_boundary(src, src.len() as int),
{
    lemma_boundary_agrees(src, 0);
    lemma_boundary_agrees(src, src.len() as int);
    is_char_boundary_start_end_of_seq(src);
}

/// A well-formed text that begins with a well-formed text has a character
/// boundary where the shorter one ends.
proof fn lemma_prefix_ends_on_char_boundary(rest: Seq<u8>, pat: Seq<u8>)
    requires
        valid_utf8(rest),
        valid_utf8(pat),
        pat.len() <= rest.len(),
        rest.subrange(0, pat.len() as int) == pat,
    ensures
        is_char_boundary(rest, pat.len() as int),
    decreases pat.len(),
{
    if pat.len() == 0 {
    } else {
        let n = pat.len() as int;
        let width = length_of_first_scalar(pat);
        assert(rest[0] == pat[0]) by {
            assert(rest.subrange(0, n)[0] == rest[0]);
        }
        assert(length_of_first_scalar(rest) == width);
        assert(1 <= width <= n);
        let rest_tail = pop_first_scalar(rest);
        let pat_tail = pop_first_scalar(pat);
        assert(rest_tail.subrange(0, pat_tail.len() as int) =~= pat_tail) by {
            assert forall|j: int| 0 <= j < pat_tail.len() implies rest_tail[j] == pat_tail[j] by {
                assert(rest.subrange(0, n)[j + width] == rest[j + width]);
            }
        }
        lemma_prefix_ends_on_char_boundary(rest_tail, pat_tail);
    }
}

/// Matching a well-formed text at a cut point ends at a cut point.
pub proof fn lemma_prefix_keeps_boundary(src: Seq<u8>, at: int, pat: Seq<u8>)
    requires
        valid_utf8(src),
        valid_utf8(pat),
        on_boundary(src, at),
        has_prefix_at(src, at, pat),
    ensures
        on_boundary(src, at + pat.len()),
{
    let rest = src.subrange(at, src.len() as int);
    lemma_boundary_agrees(src, at);
    valid_utf8_split(src, at);
    assert(rest.subrange(0, pat.len() as int) =~= src.subrange(at, at + pat.len()));
    lemma_prefix_ends_on_char_boundary(rest, pat);
    lemma_boundary_agrees(rest, pat.len() as int);
    if at + pat.len() < src.len() {
        assert(rest[pat.len() as int] == src[at + pat.len()]);
    }
}

/// The bytes between two cut points of a well-formed text are a well-formed text.
pub proof fn lemma_between_cuts_valid(src: Seq<u8>, a: int, b: int)
    requires
        valid_utf8(src),
        a <= b,
        on_boundary(src, a),
        on_boundary(src, b),
    ensures
        valid_utf8(src.subrange(a, b)),
{
    lemma_boundary_agrees(src, b);
    valid_utf8_split(src, b);
    let head = src.subrange(0, b);
    if a < b {
        assert(head[a] == src[a]);
    }
    lemma_boundary_agrees(head, a);
    valid_utf8_split(head, a);
    assert(head.subrange(a, head.len() as int) =~= src.subrange(a, b));
}

/// The position after a one-byte character is a cut point.
pub proof fn lemma_boundary_after_ascii(src: Seq<u8>, at: int)
    requires
        valid_utf8(src),
        0 <= at < src.len(),
        src[at] < 0x80,
    ensures
        on_boundary(src, at),
        on_boundary(src, at + 1),
{
    lemma_boundary_agrees(src, at);
    valid_utf8_split(src, at);
    let rest = src.subrange(at, src.len() as int);
    assert(rest[0] == src[at]);
    assert(length_of_first_scalar(rest) == 1);
    let tail = pop_first_scalar(rest);
    assert(valid_utf8(tail));
    if at + 1 < src.len() {
        assert(tail[0] == src[at + 1]);
        assert(valid_first_scalar(tail));
    }
}

/// The line that holds a position begins at or before it, at a cut point.
pub proof fn lemma_line_start(src: Seq<u8>, at: int)
    requires
        valid_utf8(src),
        0 <= at <= src.len(),
    ensures
        0 <= line_start(src, at) <= at,
        on_boundary(src, line_start(src, at)),
        forall|j: int| line_start(src, at) <= j < at ==> !is_newline(#[trigger] src[j]),
        line_start(src, at) > 0 ==> is_newline(src[line_start(src, at) - 1]),
    decreases at,
{
    if at <= 0 {
        lemma_ends_on_boundary(src);
    } else if is_newline(src[at - 1]) {
        lemma_boundary_after_ascii(src, at - 1);
    } else {
        lemma_line_start(src, at - 1);
    }
}

/// The line that holds a position ends at or after it, at a cut point.
pub proof fn lemma_line_end(src: Seq<u8>, at: int)
    requires
        valid_utf8(src),
        0 <= at <= src.len(),
    ensures
        at <= line_end(src, at) <= src.len(),
        on_boundary(src, line_end(src, at)),
        forall|j: int| at <= j < line_end(src, at) ==> !is_newline(#[trigger] src[j]),
        line_end(src, at) < src.len() ==> is_newline(src[line_end(src, at)]),
    decreases src.len() - at,
{
    if at >= src.len() {
        lemma_ends_on_boundary(src);
    } else if is_newline(src[at]) {
        lemma_boundary_after_ascii(src, at);
    } else {
        lemma_line_end(src, at + 1);
    }
}

/// Of two different byte strings, one precedes the other.
pub proof fn lemma_precedes_total(a: Seq<u8>, b: Seq<u8>)
    ensures
        a == b || precedes(a, b) || precedes(b, a),
        !(precedes(a, b) && precedes(b, a)),
    decreases a.len(),
{
    if a.len() == 0 || b.len() == 0 {
        if a.len() == 0 && b.len() == 0 {
            assert(a =~= b);
        }
    } else if a[0] == b[0] {
        lemma_precedes_total(a.drop_first(), b.drop_first());
        if a.drop_first() == b.drop_first() {
            assert(a =~= seq![a[0]] + a.drop_first());
            assert(b =~= seq![b[0]] + b.drop_first());
        }
    }
}

/// The order of byte strings is transitive.
pub proof fn lemma_precedes_transitive(a: Seq<u8>, b: Seq<u8>, c: Seq<u8>)
    requires
        precedes(a, b),
        precedes(b, c),
    ensures
        precedes(a, c),
    decreases a.len(),
{
    if a.len() > 0 && a[0] == b[0] && b[0] == c[0] {
        lemma_precedes_transitive(a.drop_first(), b.drop_first(), c.drop_first());
    }
}

/// The length of a string in bytes.
pub fn byte_len(s: &str) -> (n: usize)
    ensures
        n == s.spec_bytes().len(),
{
    s.as_bytes().len()
}

/// The bytes of `s` in `[a, b)`, as a string slice.
pub fn slice<'a>(s: &'a str, a: usize, b: usize) -> (r: &'a str)
    requires
        a <= b <= s.spec_bytes().len(),
        on_boundary(s.spec_bytes(), a as int),
        on_boundary(s.spec_bytes(), b as int),
    ensures
        r.spec_bytes() == s.spec_bytes().subrange(a as int, b as int),
        r@ == text_between(s.spec_bytes(), a as int, b as int),
{
    let ghost src = s.spec_bytes();
    proof {
        encode_utf8_valid_utf8(s@);
        lemma_boundary_agrees(src, b as int);
        valid_utf8_split(src, b as int);
    }
    let (head, _) = s.split_at(b);
    proof {
        let head_bytes = head.spec_bytes();
        assert(head_bytes == src.subrange(0, b as int));
        if a < b {
            assert(head_bytes[a as int] == src[a as int]);
        }
        lemma_boundary_agrees(head_bytes, a as int);
    }
    let (_, r) = head.split_at(a);
    proof {
        assert(r.spec_bytes() =~= src.subrange(a as int, b as int));
        encode_utf8_decode_utf8(r@);
    }
    r
}

/// Whether two strings hold the same text.
pub fn same_text(a: &str, b: &str) -> (r: bool)
    ensures
        r == (a@ == b@),
{
    let x = a.as_bytes();
    let y = b.as_bytes();
    if x.len() != y.len() {
        return false;
    }
    let mut i: usize = 0;
    while i < x.len()
        invariant
            i <= x.len(),
            x.len() == y.len(),
            x@ == a.spec_bytes(),
            y@ == b.spec_bytes(),
            forall|j: int| 0 <= j < i ==> x@[j] == y@[j],
        decreases x.len() - i,
    {
        if x[i] != y[i] {
            return false;
        }
        i = i + 1;
    }
    proof {
        assert(x@ =~= y@);
        lemma_encoding_injective(a@, b@);
    }
    true
}

/// Whether `source` holds the text `pat` at byte position `at`.
pub fn begins_with(source: &str, at: usize, pat: &str) -> (r: bool)
    ensures
        r == has_prefix_at(source.spec_bytes(), at as int, pat.spec_bytes()),
{
    let x = source.as_bytes();
    let y = pat.as_bytes();
    if at > x.len() || y.len() > x.len() - at {
        return false;
    }
    let mut i: usize = 0;
    while i < y.len()
        invariant
            i <= y.len(),
            at + y.len() <= x.len(),
            x@ == source.spec_bytes(),
            y@ == pat.spec_bytes(),
            forall|j: int| 0 <= j < i ==> x@[at + j] == y@[j],
        decreases y.len() - i,
    {
        if x[at + i] != y[i] {
            assert(x@.subrange(at as int, at + y.len())[i as int] == x@[at + i]);
            return false;
        }
        i = i + 1;
    }
    assert(x@.subrange(at as int, at + y.len()) =~= y@);
    true
}

/// Whether the text of `a` comes strictly before that of `b`.
pub fn sorts_before(a: &str, b: &str) -> (r: bool)
    ensures
        r == text_precedes(a@, b@),
{
    let x = a.as_bytes();
    let y = b.as_bytes();
    let mut i: usize = 0;
    assert(x@.subrange(0, x@.len() as int) =~= x@);
    assert(y@.subrange(0, y@.len() as int) =~= y@);
    while i < x.len() && i < y.len()
        invariant
            i <= x.len(),
            i <= y.len(),
            x@ == a.spec_bytes(),
            y@ == b.spec_bytes(),
            precedes(x@, y@) == precedes(
                x@.subrange(i as int, x@.len() as int),
                y@.subrange(i as int, y@.len() as int),
            ),
        decreases x.len() - i,
    {
        let ghost xs = x@.subrange(i as int, x@.len() as int);
        let ghost ys = y@.subrange(i as int, y@.len() as int);
        assert(xs[0] == x@[i as int] && ys[0] == y@[i as int]);
        if x[i] != y[i] {
            return x[i] < y[i];
        }
        assert(xs.drop_first() =~= x@.subrange(i + 1, x@.len() as int));
        assert(ys.drop_first() =~= y@.subrange(i + 1, y@.len() as int));
        i = i + 1;
    }
    i < y.len()
}

} // verus!
