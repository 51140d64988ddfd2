//! Text primitives: the character model of strings that every other module
//! reasons with, and the few string operations the rest of the crate needs.
//!
//! A string is modelled by its sequence of characters (`s@`). Where byte
//! offsets matter, the UTF-8 encoding of that sequence (`bytes(s@)`) is used.

use vstd::prelude::*;

verus! {

// ---------------------------------------------------------------------------
// Standard library functions used directly
// ---------------------------------------------------------------------------

/// `String::push` appends one character.
pub assume_specification[ String::push ](s: &mut String, ch: char)
    ensures
        final(s)@ == old(s)@.push(ch),
;

/// `String::push_str` appends all characters of a string slice.
pub assume_specification[ String::push_str ](s: &mut String, string: &str)
    ensures
        final(s)@ == old(s)@ + string@,
;

// ---------------------------------------------------------------------------
// UTF-8 view
// ---------------------------------------------------------------------------

/// The UTF-8 encoding of a character sequence.
pub open spec fn bytes(s: Seq<char>) -> Seq<u8> {
    vstd::utf8::encode_utf8(s)
}

/// Length in bytes of the UTF-8 encoding.
pub open spec fn byte_len(s: Seq<char>) -> nat {
    bytes(s).len()
}

/// Encoding distributes over concatenation.
pub proof fn lemma_bytes_concat(a: Seq<char>, b: Seq<char>)
    ensures
        bytes(a + b) == bytes(a) + bytes(b),
    decreases a.len(),
{
    if a.len() == 0 {
        assert(a + b =~= b);
    } else {
        assert((a + b).drop_first() =~= a.drop_first() + b);
        lemma_bytes_concat(a.drop_first(), b);
        assert(bytes(a + b) =~= bytes(a) + bytes(b));
    }
}

/// Two character sequences with the same encoding are equal.
pub proof fn lemma_bytes_injective(a: Seq<char>, b: Seq<char>)
    requires
        bytes(a) == bytes(b),
    ensures
        a == b,
{
    vstd::utf8::encode_utf8_decode_utf8(a);
    vstd::utf8::encode_utf8_decode_utf8(b);
}

/// Byte offset `i` lies between two characters of `s`, or at one of its ends.
pub open spec fn boundary(s: Seq<char>, i: int) -> bool {
    exists|k: int| 0 <= k <= s.len() && #[trigger] byte_len(s.take(k)) == i
}

/// Byte offsets of character positions are monotone and bounded.
pub proof fn lemma_byte_len_take(s: Seq<char>, a: int, b: int)
    requires
        0 <= a <= b <= s.len(),
    ensures
        byte_len(s.take(a)) <= byte_len(s.take(b)) <= byte_len(s),
        a < b ==> byte_len(s.take(a)) < byte_len(s.take(b)),
        bytes(s).subrange(byte_len(s.take(a)) as int, byte_len(s.take(b)) as int) == bytes(
            s.subrange(a, b),
        ),
{
    let x = s.take(a);
    let y = s.subrange(a, b);
    let z = s.skip(b);
    assert(s.take(b) =~= x + y);
    assert(s =~= x + y + z);
    lemma_bytes_concat(x, y);
    lemma_bytes_concat(x + y, z);
    assert(bytes(s) =~= bytes(x) + bytes(y) + bytes(z));
    assert(bytes(s).subrange(bytes(x).len() as int, (bytes(x) + bytes(y)).len() as int)
        =~= bytes(y));
    if a < b {
        assert(bytes(y).len() > 0);
    }
}

/// The boundaries of an encoding are the encoded lengths of its prefixes.
pub proof fn lemma_boundary(s: Seq<char>, i: int)
    ensures
        vstd::utf8::is_char_boundary(bytes(s), i) <==> boundary(s, i),
    decreases s.len(),
{
    vstd::utf8::encode_utf8_valid_utf8(s);
    if i == 0 {
        assert(byte_len(s.take(0)) == 0);
    } else if s.len() == 0 {
        assert(bytes(s).len() == 0);
        if boundary(s, i) {
            let k = choose|k: int| 0 <= k <= s.len() && #[trigger] byte_len(s.take(k)) == i;
            assert(s.take(k) =~= s);
        }
    } else {
        let t = s.drop_first();
        let w = vstd::utf8::encode_scalar(s[0] as u32).len() as int;
        vstd::utf8::encode_utf8_first_scalar(s);
        assert(vstd::utf8::pop_first_scalar(bytes(s)) =~= bytes(t));
        lemma_boundary(t, i - w);
        assert forall|k: int| 1 <= k <= s.len() implies byte_len(#[trigger] s.take(k)) == w
            + byte_len(t.take(k - 1)) by {
            assert(s.take(k).drop_first() =~= t.take(k - 1));
        }
        if boundary(s, i) {
            let k = choose|k: int| 0 <= k <= s.len() && #[trigger] byte_len(s.take(k)) == i;
            if k == 0 {
                assert(byte_len(s.take(0)) == 0);
            }
            assert(byte_len(t.take(k - 1)) == i - w);
            lemma_byte_len_take(s, k, s.len() as int);
            assert(boundary(t, i - w));
        }
        if vstd::utf8::is_char_boundary(bytes(s), i) {
            let k = choose|k: int| 0 <= k <= t.len() && #[trigger] byte_len(t.take(k)) == i - w;
            assert(byte_len(s.take(k + 1)) == i);
        }
    }
}

/// Slices a string by byte offsets that lie on character boundaries.
pub fn byte_slice<'a>(s: &'a str, from: usize, to: usize) -> (r: &'a str)
    requires
        from <= to,
        boundary(s@, from as int),
        boundary(s@, to as int),
    ensures
        bytes(r@) == bytes(s@).subrange(from as int, to as int),
        to <= byte_len(s@),
{
    let ghost i = choose|k: int| 0 <= k <= s@.len() && #[trigger] byte_len(s@.take(k)) == from;
    let ghost j = choose|k: int| 0 <= k <= s@.len() && #[trigger] byte_len(s@.take(k)) == to;
    proof {
        lemma_boundary(s@, to as int);
        if j < i {
            lemma_byte_len_take(s@, j, i);
        }
        lemma_byte_len_take(s@, i, j);
        lemma_byte_len_take(s@, j, s@.len() as int);
    }
    let head: &'a str = s.split_at(to).0;
    proof {
        let h = s@.take(j);
        assert(bytes(head@) =~= bytes(s@).subrange(0, to as int));
        lemma_byte_len_take(s@, 0, j);
        assert(s@.take(0).len() == 0);
        assert(s@.subrange(0, j) =~= h);
        lemma_bytes_injective(head@, h);
        assert(h.take(i) =~= s@.take(i));
        assert(byte_len(h.take(i)) == from);
        assert(boundary(h, from as int));
        lemma_boundary(h, from as int);
    }
    let r: &'a str = head.split_at(from).1;
    assert(bytes(r@) =~= bytes(s@).subrange(from as int, to as int));
    r
}

/// The character position of a byte offset that lies on a boundary.
pub open spec fn char_index(s: Seq<char>, off: int) -> int {
    choose|k: int| 0 <= k <= s.len() && #[trigger] byte_len(s.take(k)) == off
}

/// The characters from a byte offset on.
pub open spec fn chars_from(s: Seq<char>, off: int) -> Seq<char> {
    s.skip(char_index(s, off))
}

/// Character positions are unique.
pub proof fn lemma_char_index(s: Seq<char>, k: int)
    requires
        0 <= k <= s.len(),
    ensures
        boundary(s, byte_len(s.take(k)) as int),
        char_index(s, byte_len(s.take(k)) as int) == k,
{
    let off = byte_len(s.take(k)) as int;
    assert(boundary(s, off));
    let j = char_index(s, off);
    if j < k {
        lemma_byte_len_take(s, j, k);
    } else if k < j {
        lemma_byte_len_take(s, k, j);
    }
}

/// What a boundary offset splits a string into.
pub proof fn lemma_chars_from(s: Seq<char>, off: int)
    requires
        boundary(s, off),
    ensures
        0 <= char_index(s, off) <= s.len(),
        byte_len(s.take(char_index(s, off))) == off,
        s == s.take(char_index(s, off)) + chars_from(s, off),
        bytes(chars_from(s, off)) == bytes(s).skip(off),
        0 <= off <= byte_len(s),
{
    let k = char_index(s, off);
    let a = s.take(k);
    let b = chars_from(s, off);
    assert(s =~= a + b);
    lemma_bytes_concat(a, b);
    assert(bytes(s).skip(off) =~= bytes(b));
}

/// Walking `n` characters on from a boundary leads to a boundary.
pub proof fn lemma_boundary_step(s: Seq<char>, off: int, n: int)
    requires
        boundary(s, off),
        0 <= n <= chars_from(s, off).len(),
    ensures
        boundary(s, off + byte_len(chars_from(s, off).take(n))),
        chars_from(s, off + byte_len(chars_from(s, off).take(n))) == chars_from(s, off).skip(n),
{
    lemma_chars_from(s, off);
    let k = char_index(s, off);
    let t = chars_from(s, off);
    assert(s.take(k + n) =~= s.take(k) + t.take(n));
    lemma_bytes_concat(s.take(k), t.take(n));
    lemma_char_index(s, k + n);
    assert(s.skip(k + n) =~= t.skip(n));
}

/// Both sides of an ASCII byte are boundaries.
pub proof fn lemma_ascii_boundary(s: Seq<char>, i: int)
    requires
        0 <= i < byte_len(s),
        bytes(s)[i] < 128,
    ensures
        boundary(s, i),
        boundary(s, i + 1),
        chars_from(s, i).len() > 0,
        chars_from(s, i)[0] as u32 == bytes(s)[i] as u32,
        chars_from(s, i + 1) == chars_from(s, i).skip(1),
{
    vstd::utf8::encode_utf8_valid_utf8(s);
    vstd::utf8::is_char_boundary_iff_not_is_continuation_byte(bytes(s), i);
    lemma_boundary(s, i);
    lemma_chars_from(s, i);
    let t = chars_from(s, i);
    assert(bytes(t)[0] == bytes(s)[i]);
    if t.len() == 0 {
        assert(bytes(t).len() == 0);
    }
    lemma_first_byte(t);
    assert(t.take(1) =~= seq![t[0]]);
    assert(seq![t[0]].drop_first() =~= seq![]);
    assert(bytes(seq![]) =~= seq![]);
    assert(bytes(t.take(1)) =~= vstd::utf8::encode_scalar(t[0] as u32));
    lemma_boundary_step(s, i, 1);
}

proof fn lemma_first_byte(t: Seq<char>)
    requires
        t.len() > 0,
        bytes(t)[0] < 128,
    ensures
        vstd::utf8::encode_scalar(t[0] as u32).len() == 1,
        t[0] as u32 == bytes(t)[0] as u32,
{
    let c = t[0] as u32;
    let e = vstd::utf8::encode_scalar(c);
    assert(bytes(t)[0] == e[0]);
    vstd::utf8::char_is_scalar(t[0]);
    vstd::utf8::encode_utf8_first_scalar(t);
    assert(vstd::utf8::has_width_1_encoding(c));
    assert(((c & 0x7F) as u8) as u32 == c) by (bit_vector)
        requires
            c <= 0x7F,
    ;
}

/// An ASCII character at a boundary is one byte, and a boundary follows it.
pub proof fn lemma_ascii_char_at(s: Seq<char>, off: int)
    requires
        boundary(s, off),
        chars_from(s, off).len() > 0,
        (chars_from(s, off)[0] as u32) < 128,
    ensures
        0 <= off < byte_len(s),
        bytes(s)[off] as u32 == chars_from(s, off)[0] as u32,
        boundary(s, off + 1),
        chars_from(s, off + 1) == chars_from(s, off).skip(1),
{
    lemma_chars_from(s, off);
    let t = chars_from(s, off);
    let c = t[0] as u32;
    assert(vstd::utf8::has_width_1_encoding(c));
    assert(((c & 0x7F) as u8) as u32 == c) by (bit_vector)
        requires
            c <= 0x7F,
    ;
    assert(vstd::utf8::encode_scalar(c).len() == 1);
    assert(bytes(t)[0] as u32 == c);
    assert(bytes(s).skip(off).len() == byte_len(s) - off);
    assert(bytes(s)[off] == bytes(s).skip(off)[0]);
    lemma_ascii_boundary(s, off);
}

/// A string whose encoding begins another encoding is a prefix of it.
pub proof fn lemma_prefix_from_bytes(t: Seq<char>, v: Seq<char>)
    requires
        bytes(v).len() <= bytes(t).len(),
        bytes(t).take(bytes(v).len() as int) == bytes(v),
    ensures
        has_prefix(t, v),
    decreases v.len(),
{
    if v.len() == 0 {
        assert(t.subrange(0, 0) =~= v);
    } else {
        let bt = bytes(t);
        let bv = bytes(v);
        assert(bv.len() > 0);
        if t.len() == 0 {
            assert(bt.len() == 0);
        }
        vstd::utf8::encode_utf8_first_scalar(v);
        vstd::utf8::encode_utf8_first_scalar(t);
        assert forall|i: int| 0 <= i < bv.len() implies bt[i] == #[trigger] bv[i] by {
            assert(bt.take(bv.len() as int)[i] == bv[i]);
        }
        assert(bt[0] == bv[0]);
        assert(bv.len() > 1 ==> bt[1] == bv[1]);
        assert(bv.len() > 2 ==> bt[2] == bv[2]);
        assert(bv.len() > 3 ==> bt[3] == bv[3]);
        assert(vstd::utf8::decode_first_scalar(bt) == vstd::utf8::decode_first_scalar(bv));
        assert(t[0] as u32 == v[0] as u32);
        vstd::utf8::char_u32_cast(t[0], t[0] as u32);
        vstd::utf8::char_u32_cast(v[0], t[0] as u32);
        assert(t[0] == v[0]);
        let e = vstd::utf8::encode_scalar(v[0] as u32);
        let t1 = t.drop_first();
        let v1 = v.drop_first();
        assert(bv == e + bytes(v1));
        assert(bt == e + bytes(t1));
        assert(bytes(t1).take(bytes(v1).len() as int) =~= bytes(v1)) by {
            assert forall|i: int| 0 <= i < bytes(v1).len() implies bytes(t1)[i] == #[trigger] bytes(
                v1,
            )[i] by {
                assert(bv[e.len() + i] == bytes(v1)[i]);
                assert(bt[e.len() + i] == bytes(t1)[i]);
            }
        }
        lemma_prefix_from_bytes(t1, v1);
        assert(t.subrange(0, v.len() as int) =~= v) by {
            assert forall|i: int| 0 <= i < v.len() implies t[i] == v[i] by {
                if i > 0 {
                    assert(t1.subrange(0, v1.len() as int)[i - 1] == v1[i - 1]);
                }
            }
        }
    }
}

/// The bytes of `needle` stand in `b` at position `p`.
pub open spec fn bytes_at(b: Seq<u8>, needle: Seq<u8>, p: int) -> bool {
    0 <= p && p + needle.len() <= b.len() && b.subrange(p, p + needle.len()) == needle
}

/// An encoded string that stands at a boundary ends at a boundary.
pub proof fn lemma_bytes_at_boundary(s: Seq<char>, v: Seq<char>, p: int)
    requires
        boundary(s, p),
        bytes_at(bytes(s), bytes(v), p),
    ensures
        boundary(s, p + byte_len(v)),
        has_prefix(chars_from(s, p), v),
{
    lemma_chars_from(s, p);
    let t = chars_from(s, p);
    assert(bytes(t).take(bytes(v).len() as int) =~= bytes(s).subrange(p, p + bytes(v).len()));
    lemma_prefix_from_bytes(t, v);
    assert(t.take(v.len() as int) =~= v);
    lemma_boundary_step(s, p, v.len() as int);
}

/// Tests whether the bytes of `needle` stand in `b` at position `p`.
pub fn matches_bytes(b: &[u8], needle: &[u8], p: usize) -> (r: bool)
    ensures
        r == bytes_at(b@, needle@, p as int),
{
    if p > b.len() || b.len() - p < needle.len() {
        return false;
    }
    let mut k: usize = 0;
    while k < needle.len()
        invariant
            k <= needle.len(),
            p + needle.len() <= b.len(),
            forall|j: int| 0 <= j < k ==> b@[p + j] == needle@[j],
        decreases needle.len() - k,
    {
        if b[p + k] != needle[k] {
            assert(b@.subrange(p as int, p + needle@.len())[k as int] != needle@[k as int]);
            return false;
        }
        k += 1;
    }
    assert(b@.subrange(p as int, p + needle@.len()) =~= needle@);
    true
}

/// The string from a byte offset on.
pub fn suffix_from<'a>(s: &'a str, from: usize) -> (r: &'a str)
    requires
        boundary(s@, from as int),
    ensures
        r@ == chars_from(s@, from as int),
{
    proof {
        lemma_boundary(s@, from as int);
        lemma_chars_from(s@, from as int);
    }
    let r: &'a str = s.split_at(from).1;
    proof {
        assert(bytes(s@).skip(from as int) =~= bytes(s@).subrange(
            from as int,
            bytes(s@).len() as int,
        ));
        lemma_bytes_injective(r@, chars_from(s@, from as int));
    }
    r
}

/// Byte offset of a character position.
pub fn byte_offset(s: &str, k: usize) -> (r: usize)
    requires
        k <= s@.len(),
    ensures
        r == byte_len(s@.take(k as int)),
{
    let head: &str = s.substring_char(0, k);
    assert(head@ =~= s@.take(k as int));
    head.as_bytes().len()
}

// ---------------------------------------------------------------------------
// Whole-string operations
// ---------------------------------------------------------------------------

/// Collects the characters of a string.
pub fn chars_of(s: &str) -> (r: Vec<char>)
    ensures
        r@ == s@,
{
    let mut out: Vec<char> = Vec::new();
    for c in it: s.chars()
        invariant
            out@ == s@.take(it.index() as int),
            it.seq() == s@,
    {
        out.push(c);
    }
    assert(s@.take(s@.len() as int) =~= s@);
    out
}

/// Compares two string slices for equality.
pub fn str_eq(a: &str, b: &str) -> (r: bool)
    ensures
        r == (a@ == b@),
{
    let x: &[u8] = a.as_bytes();
    let y: &[u8] = b.as_bytes();
    if x.len() != y.len() {
        return false;
    }
    let mut i: usize = 0;
    while i < x.len()
        invariant
            i <= x.len(),
            x@.len() == y@.len(),
            forall|j: int| 0 <= j < i ==> x@[j] == y@[j],
            x@ == bytes(a@),
            y@ == bytes(b@),
        decreases x.len() - i,
    {
        if x[i] != y[i] {
            return false;
        }
        i += 1;
    }
    assert(x@ =~= y@);
    proof {
        lemma_bytes_injective(a@, b@);
    }
    true
}

// ---------------------------------------------------------------------------
// Character classes
// ---------------------------------------------------------------------------

/// ASCII decimal digit.
pub open spec fn digit(c: char) -> bool {
    '0' <= c && c <= '9'
}

/// ASCII hexadecimal digit, either case.
pub open spec fn hex_digit(c: char) -> bool {
    digit(c) || ('a' <= c && c <= 'f') || ('A' <= c && c <= 'F')
}

/// The Unicode `White_Space` property.
pub open spec fn white_space(c: char) -> bool {
    let u = c as u32;
    ||| 0x9 <= u <= 0xd
    ||| u == 0x20
    ||| u == 0x85
    ||| u == 0xa0
    ||| u == 0x1680
    ||| 0x2000 <= u <= 0x200a
    ||| u == 0x2028
    ||| u == 0x2029
    ||| u == 0x202f
    ||| u == 0x205f
    ||| u == 0x3000
}

/// Predicate form of [`digit`].
pub open spec fn a_digit() -> spec_fn(char) -> bool {
    |c: char| digit(c)
}

/// Predicate form of [`white_space`].
pub open spec fn a_space() -> spec_fn(char) -> bool {
    |c: char| white_space(c)
}

/// Negated predicate form of [`white_space`].
pub open spec fn not_space() -> spec_fn(char) -> bool {
    |c: char| !white_space(c)
}

/// The predicate "equals `x`".
pub open spec fn the_char(x: char) -> spec_fn(char) -> bool {
    |c: char| c == x
}

/// Tests for an ASCII decimal digit.
pub fn is_digit(c: char) -> (r: bool)
    ensures
        r == digit(c),
{
    '0' <= c && c <= '9'
}

/// Tests for an ASCII hexadecimal digit.
pub fn is_hex_digit(c: char) -> (r: bool)
    ensures
        r == hex_digit(c),
{
    is_digit(c) || ('a' <= c && c <= 'f') || ('A' <= c && c <= 'F')
}

/// Tests for the Unicode `White_Space` property.
pub fn is_space(c: char) -> (r: bool)
    ensures
        r == white_space(c),
{
    let u: u32 = c as u32;
    (0x9 <= u && u <= 0xd) || u == 0x20 || u == 0x85 || u == 0xa0 || u == 0x1680 || (0x2000 <= u
        && u <= 0x200a) || u == 0x2028 || u == 0x2029 || u == 0x202f || u == 0x205f || u == 0x3000
}

/// ASCII white space: space, tab, line feed, form feed, carriage return.
pub open spec fn ascii_space(c: char) -> bool {
    c == ' ' || c == '\t' || c == '\n' || c == '\x0C' || c == '\r'
}

/// Tests for ASCII white space.
pub fn is_ascii_space(c: char) -> (r: bool)
    ensures
        r == ascii_space(c),
{
    c == ' ' || c == '\t' || c == '\n' || c == '\x0C' || c == '\r'
}

// ---------------------------------------------------------------------------
// Searching
// ---------------------------------------------------------------------------

/// Index of the first character that satisfies `p`, or the length if none does.
pub open spec fn first_index(s: Seq<char>, p: spec_fn(char) -> bool) -> nat
    decreases s.len(),
{
    if s.len() == 0 || p(s[0]) {
        0
    } else {
        1 + first_index(s.drop_first(), p)
    }
}

/// What [`first_index`] means.
pub proof fn lemma_first_index_is(s: Seq<char>, p: spec_fn(char) -> bool)
    ensures
        first_index(s, p) <= s.len(),
        forall|j: int| 0 <= j < first_index(s, p) ==> !p(s[j]),
        first_index(s, p) < s.len() ==> p(s[first_index(s, p) as int]),
    decreases s.len(),
{
    if s.len() == 0 || p(s[0]) {
    } else {
        let t = s.drop_first();
        lemma_first_index_is(t, p);
        assert forall|j: int| 0 <= j < first_index(s, p) implies !p(s[j]) by {
            if j > 0 {
                assert(s[j] == t[j - 1]);
            }
        }
    }
}

/// The position that [`first_index`] describes is unique.
pub proof fn lemma_first_index(s: Seq<char>, p: spec_fn(char) -> bool, k: int)
    requires
        0 <= k <= s.len(),
        forall|j: int| 0 <= j < k ==> !p(s[j]),
        k < s.len() ==> p(s[k]),
    ensures
        first_index(s, p) == k,
{
    lemma_first_index_is(s, p);
    let f = first_index(s, p) as int;
    if f < k {
        assert(p(s[f]));
    }
}

/// A sequence with the characters from `a` up to `b` replaced.
pub open spec fn spliced(s: Seq<char>, a: int, b: int, new: Seq<char>) -> Seq<char> {
    s.take(a) + new + s.skip(b)
}

/// What precedes a replacement is found where it was.
pub proof fn lemma_first_index_before(
    s: Seq<char>,
    a: int,
    b: int,
    new: Seq<char>,
    from: int,
    p: spec_fn(char) -> bool,
)
    requires
        0 <= from <= a <= b <= s.len(),
        from + first_index(s.skip(from), p) < a,
    ensures
        first_index(spliced(s, a, b, new).skip(from), p) == first_index(s.skip(from), p),
{
    let t = spliced(s, a, b, new);
    let k = first_index(s.skip(from), p) as int;
    lemma_first_index_is(s.skip(from), p);
    assert forall|j: int| 0 <= j <= k implies t.skip(from)[j] == s.skip(from)[j] by {}
    lemma_first_index(t.skip(from), p, k);
}

/// What ended the replaced characters ends the new ones, if it is not among
/// them.
pub proof fn lemma_first_index_behind(
    s: Seq<char>,
    a: int,
    b: int,
    new: Seq<char>,
    from: int,
    p: spec_fn(char) -> bool,
)
    requires
        0 <= from <= a <= b <= s.len(),
        from + first_index(s.skip(from), p) == b,
        forall|i: int| 0 <= i < new.len() ==> !p(#[trigger] new[i]),
    ensures
        from + first_index(spliced(s, a, b, new).skip(from), p) == a + new.len(),
{
    let t = spliced(s, a, b, new);
    let k = a + new.len() - from;
    lemma_first_index_is(s.skip(from), p);
    assert forall|j: int| 0 <= j < k implies !p(t.skip(from)[j]) by {
        if from + j < a {
            assert(t.skip(from)[j] == s.skip(from)[j]);
        } else {
            assert(t.skip(from)[j] == new[from + j - a]);
        }
    }
    if k < t.skip(from).len() {
        assert(t.skip(from)[k] == s.skip(from)[b - from]);
    }
    lemma_first_index(t.skip(from), p, k);
}

/// Finds the first position at or after `start` whose character satisfies `f`.
pub fn find_first<F: Fn(char) -> bool>(
    s: &[char],
    start: usize,
    f: F,
    Ghost(p): Ghost<spec_fn(char) -> bool>,
) -> (r: usize)
    requires
        start <= s@.len(),
        forall|c: char| f.requires((c,)),
        forall|c: char, b: bool| f.ensures((c,), b) ==> b == p(c),
    ensures
        r == start + first_index(s@.skip(start as int), p),
        start <= r <= s@.len(),
{
    let mut i: usize = start;
    while i < s.len()
        invariant_except_break
            start <= i <= s@.len(),
            forall|c: char| f.requires((c,)),
            forall|c: char, b: bool| f.ensures((c,), b) ==> b == p(c),
            forall|j: int| 0 <= j < i - start ==> !p(s@.skip(start as int)[j]),
        ensures
            start <= i <= s@.len(),
            forall|j: int| 0 <= j < i - start ==> !p(s@.skip(start as int)[j]),
            i < s@.len() ==> p(s@.skip(start as int)[i - start]),
        decreases s.len() - i,
    {
        if f(s[i]) {
            break;
        }
        i += 1;
    }
    proof {
        lemma_first_index(s@.skip(start as int), p, i - start);
    }
    i
}

/// `needle` occurs in `s` at position `i`.
pub open spec fn occurs_at(s: Seq<char>, needle: Seq<char>, i: int) -> bool {
    0 <= i && i + needle.len() <= s.len() && s.subrange(i, i + needle.len()) == needle
}

/// `needle` occurs somewhere in `s`.
pub open spec fn contains(s: Seq<char>, needle: Seq<char>) -> bool {
    exists|i: int| #[trigger] occurs_at(s, needle, i)
}

/// `r` is the first occurrence of `needle` in `s`, or `None` if there is none.
pub open spec fn is_first_occurrence(s: Seq<char>, needle: Seq<char>, r: Option<int>) -> bool {
    match r {
        Some(k) => occurs_at(s, needle, k) && forall|i: int|
            0 <= i < k ==> !#[trigger] occurs_at(s, needle, i),
        None => !contains(s, needle),
    }
}

/// Position of the first occurrence of `needle` in `s`.
pub open spec fn first_occurrence(s: Seq<char>, needle: Seq<char>) -> Option<int> {
    choose|r: Option<int>| is_first_occurrence(s, needle, r)
}

/// The first occurrence is unique.
pub proof fn lemma_first_occurrence(s: Seq<char>, needle: Seq<char>, r: Option<int>)
    requires
        is_first_occurrence(s, needle, r),
    ensures
        first_occurrence(s, needle) == r,
{
    let q = first_occurrence(s, needle);
    assert(is_first_occurrence(s, needle, q));
    match (q, r) {
        (Some(a), Some(b)) => {
            assert(occurs_at(s, needle, a));
            assert(occurs_at(s, needle, b));
        },
        (Some(a), None) => {
            assert(occurs_at(s, needle, a));
        },
        (None, Some(b)) => {
            assert(occurs_at(s, needle, b));
        },
        _ => {},
    }
}

/// A first occurrence always exists, or there is none at all.
pub proof fn lemma_first_occurrence_exists(s: Seq<char>, needle: Seq<char>)
    ensures
        is_first_occurrence(s, needle, first_occurrence(s, needle)),
{
    if contains(s, needle) {
        let i = choose|i: int| #[trigger] occurs_at(s, needle, i);
        lemma_earliest(s, needle, i);
    } else {
        assert(is_first_occurrence(s, needle, None));
    }
}

proof fn lemma_earliest(s: Seq<char>, needle: Seq<char>, i: int)
    requires
        occurs_at(s, needle, i),
    ensures
        exists|r: Option<int>| is_first_occurrence(s, needle, r),
    decreases i,
{
    if exists|j: int| 0 <= j < i && #[trigger] occurs_at(s, needle, j) {
        let j = choose|j: int| 0 <= j < i && #[trigger] occurs_at(s, needle, j);
        lemma_earliest(s, needle, j);
    } else {
        assert(is_first_occurrence(s, needle, Some(i)));
    }
}

/// Tests whether `needle` occurs in `s` at position `i`.
pub fn matches_at(s: &[char], needle: &[char], i: usize) -> (r: bool)
    ensures
        r == occurs_at(s@, needle@, i as int),
{
    if i > s.len() || s.len() - i < needle.len() {
        return false;
    }
    let mut k: usize = 0;
    while k < needle.len()
        invariant
            k <= needle@.len(),
            i + needle.len() <= s.len(),
            forall|j: int| 0 <= j < k ==> s@[i + j] == needle@[j],
        decreases needle.len() - k,
    {
        if s[i + k] != needle[k] {
            proof {
                assert(s@.subrange(i as int, i + needle@.len())[k as int] != needle@[k as int]);
            }
            return false;
        }
        k += 1;
    }
    assert(s@.subrange(i as int, i + needle@.len()) =~= needle@);
    true
}

/// Finds the first occurrence of `needle` in `s`.
pub fn find_seq(s: &[char], needle: &[char]) -> (r: Option<usize>)
    ensures
        is_first_occurrence(
            s@,
            needle@,
            match r {
                Some(k) => Some(k as int),
                None => None,
            },
        ),
        first_occurrence(s@, needle@) == (match r {
            Some(k) => Some(k as int),
            None => None::<int>,
        }),
{
    let mut i: usize = 0;
    while i <= s.len() && s.len() - i >= needle.len()
        invariant
            i <= s@.len() + 1,
            forall|j: int| 0 <= j < i ==> !#[trigger] occurs_at(s@, needle@, j),
        decreases s.len() + 1 - i,
    {
        if matches_at(s, needle, i) {
            proof {
                lemma_first_occurrence(s@, needle@, Some(i as int));
            }
            return Some(i);
        }
        if i == s.len() {
            proof {
                assert(!contains(s@, needle@));
                lemma_first_occurrence(s@, needle@, None);
            }
            return None;
        }
        i += 1;
    }
    proof {
        assert(!contains(s@, needle@));
        lemma_first_occurrence(s@, needle@, None);
    }
    None
}

/// Tests whether `needle` occurs anywhere in `s`.
pub fn str_contains(s: &str, needle: &str) -> (r: bool)
    ensures
        r == contains(s@, needle@),
{
    let hay: Vec<char> = chars_of(s);
    let pin: Vec<char> = chars_of(needle);
    match find_seq(&hay, &pin) {
        Some(k) => {
            assert(occurs_at(s@, needle@, k as int));
            true
        },
        None => false,
    }
}

/// `p` is a prefix of `s`.
pub open spec fn has_prefix(s: Seq<char>, p: Seq<char>) -> bool {
    occurs_at(s, p, 0)
}

/// Tests whether `s` begins with `prefix`.
pub fn str_starts_with(s: &str, prefix: &str) -> (r: bool)
    ensures
        r == has_prefix(s@, prefix@),
{
    let hay: Vec<char> = chars_of(s);
    let pin: Vec<char> = chars_of(prefix);
    matches_at(&hay, &pin, 0)
}

/// Tests whether a character occurs in `s`.
pub fn str_contains_char(s: &str, c: char) -> (r: bool)
    ensures
        r == s@.contains(c),
{
    let v: Vec<char> = chars_of(s);
    let k: usize = find_char(&v, 0, c);
    proof {
        lemma_first_index_is(s@.skip(0), the_char(c));
        assert(s@.skip(0) =~= s@);
        if k < v@.len() {
            assert(s@[k as int] == c);
        } else if s@.contains(c) {
            let j = s@.index_of(c);
            assert(the_char(c)(s@[j]));
        }
    }
    k < v.len()
}

/// Finds the first position at or after `start` that holds `c`.
pub fn find_char(s: &[char], start: usize, c: char) -> (r: usize)
    requires
        start <= s@.len(),
    ensures
        r == start + first_index(s@.skip(start as int), the_char(c)),
        start <= r <= s@.len(),
{
    let f = |x: char| -> (b: bool)
        ensures
            b == (x == c),
        { x == c };
    find_first(s, start, f, Ghost(the_char(c)))
}

// ---------------------------------------------------------------------------
// Slicing and building
// ---------------------------------------------------------------------------

/// Concatenates two strings.
pub fn concat2(a: &str, b: &str) -> (r: String)
    ensures
        r@ == a@ + b@,
{
    let mut out: String = a.to_owned();
    out.push_str(b);
    out
}

/// Concatenates three strings.
pub fn concat3(a: &str, b: &str, c: &str) -> (r: String)
    ensures
        r@ == a@ + b@ + c@,
{
    let mut out: String = a.to_owned();
    out.push_str(b);
    out.push_str(c);
    out
}

/// Concatenates four strings.
pub fn concat4(a: &str, b: &str, c: &str, d: &str) -> (r: String)
    ensures
        r@ == a@ + b@ + c@ + d@,
{
    let mut out: String = a.to_owned();
    out.push_str(b);
    out.push_str(c);
    out.push_str(d);
    out
}

// ---------------------------------------------------------------------------
// Trimming
// ---------------------------------------------------------------------------

/// `s` without its leading white space.
pub open spec fn trim_start(s: Seq<char>) -> Seq<char> {
    s.skip(first_index(s, not_space()) as int)
}

/// `s` without its trailing white space.
pub open spec fn trim_end(s: Seq<char>) -> Seq<char>
    decreases s.len(),
{
    if s.len() > 0 && white_space(s.last()) {
        trim_end(s.drop_last())
    } else {
        s
    }
}

/// `s` without its leading and trailing white space.
pub open spec fn trim(s: Seq<char>) -> Seq<char> {
    trim_end(trim_start(s))
}

/// Index of the first character that is not white space.
pub fn find_not_space(s: &[char], start: usize) -> (r: usize)
    requires
        start <= s@.len(),
    ensures
        r == start + first_index(s@.skip(start as int), not_space()),
        start <= r <= s@.len(),
{
    let f = |x: char| -> (b: bool)
        ensures
            b == !white_space(x),
        { !is_space(x) };
    find_first(s, start, f, Ghost(not_space()))
}

/// Removes leading white space.
pub fn str_trim_start(s: &str) -> (r: &str)
    ensures
        r@ == trim_start(s@),
{
    let v: Vec<char> = chars_of(s);
    let k: usize = find_not_space(&v, 0);
    assert(s@.skip(0) =~= s@);
    s.substring_char(k, v.len())
}

/// Removes trailing white space.
pub fn str_trim_end(s: &str) -> (r: &str)
    ensures
        r@ == trim_end(s@),
{
    let v: Vec<char> = chars_of(s);
    let mut n: usize = v.len();
    assert(s@.take(n as int) =~= s@);
    while n > 0 && is_space(v[n - 1])
        invariant
            n <= v@.len(),
            v@ == s@,
            trim_end(s@.take(n as int)) == trim_end(s@),
        decreases n,
    {
        assert(s@.take(n as int).drop_last() =~= s@.take(n - 1));
        n -= 1;
    }
    s.substring_char(0, n)
}

/// Removes leading and trailing white space.
pub fn str_trim(s: &str) -> (r: &str)
    ensures
        r@ == trim(s@),
{
    str_trim_end(str_trim_start(s))
}

/// `s` without its trailing slashes.
pub open spec fn without_trailing_slashes(s: Seq<char>) -> Seq<char>
    decreases s.len(),
{
    if s.len() > 0 && s.last() == '/' {
        without_trailing_slashes(s.drop_last())
    } else {
        s
    }
}

/// Removes trailing slashes.
pub fn trim_slashes(s: &str) -> (r: String)
    ensures
        r@ == without_trailing_slashes(s@),
{
    let v: Vec<char> = chars_of(s);
    let mut n: usize = v.len();
    assert(s@.take(n as int) =~= s@);
    while n > 0 && v[n - 1] == '/'
        invariant
            n <= v@.len(),
            v@ == s@,
            without_trailing_slashes(s@.take(n as int)) == without_trailing_slashes(s@),
        decreases n,
    {
        assert(s@.take(n as int).drop_last() =~= s@.take(n - 1));
        n -= 1;
    }
    assert(s@.subrange(0, n as int) =~= s@.take(n as int));
    s.substring_char(0, n).to_owned()
}

/// `s` with every `from` replaced by `to`.
pub open spec fn replaced(s: Seq<char>, from: char, to: char) -> Seq<char> {
    s.map_values(
        |c: char|
            if c == from {
                to
            } else {
                c
            },
    )
}

/// Replaces every occurrence of one character by another.
pub fn replace_char(s: &str, from: char, to: char) -> (r: String)
    ensures
        r@ == replaced(s@, from, to),
{
    let v: Vec<char> = chars_of(s);
    let ghost all = replaced(s@, from, to);
    let mut out: String = String::new();
    let mut i: usize = 0;
    assert(out@ =~= all.take(0));
    while i < v.len()
        invariant
            i <= v@.len(),
            v@ == s@,
            all == replaced(s@, from, to),
            out@ == all.take(i as int),
        decreases v.len() - i,
    {
        out.push(
            if v[i] == from {
                to
            } else {
                v[i]
            },
        );
        i += 1;
        assert(all.take(i as int) =~= all.take(i - 1).push(all[i - 1]));
    }
    assert(all.take(i as int) =~= all);
    out
}

// ---------------------------------------------------------------------------
// Splitting
// ---------------------------------------------------------------------------

/// The pieces of `s` between occurrences of `sep`; always at least one piece.
pub open spec fn split_on(s: Seq<char>, sep: char) -> Seq<Seq<char>>
    decreases s.len(),
{
    let k = first_index(s, the_char(sep)) as int;
    if k >= s.len() {
        seq![s]
    } else {
        seq![s.take(k)] + split_on(s.skip(k + 1), sep)
    }
}

/// The views of a sequence of string slices.
pub open spec fn str_views(v: Seq<&str>) -> Seq<Seq<char>> {
    v.map_values(|x: &str| x@)
}

/// The views of a sequence of strings.
pub open spec fn string_views(v: Seq<String>) -> Seq<Seq<char>> {
    v.map_values(|s: String| s@)
}

/// Splits `s` at every occurrence of `sep`.
pub fn str_split<'a>(s: &'a str, sep: char) -> (r: Vec<&'a str>)
    ensures
        str_views(r@) == split_on(s@, sep),
        r@.len() >= 1,
{
    let v: Vec<char> = chars_of(s);
    let mut out: Vec<&'a str> = Vec::new();
    let mut from: usize = 0;
    assert(s@.skip(0) =~= s@);
    assert(str_views(out@) + split_on(s@, sep) =~= split_on(s@, sep));
    loop
        invariant
            from <= v@.len(),
            v@ == s@,
            str_views(out@) + split_on(s@.skip(from as int), sep) == split_on(s@, sep),
        decreases v.len() - from,
    {
        let k: usize = find_char(&v, from, sep);
        let piece: &'a str = s.substring_char(from, k);
        let ghost before = out@;
        out.push(piece);
        let ghost tail = s@.skip(from as int);
        assert(str_views(out@) =~= str_views(before).push(piece@));
        assert(piece@ =~= tail.take(k - from));
        if k == v.len() {
            assert(piece@ =~= tail);
            assert(str_views(out@) =~= str_views(before) + seq![tail]);
            return out;
        }
        assert(tail.skip(k - from + 1) =~= s@.skip(k + 1));
        assert(str_views(out@) + split_on(s@.skip(k + 1), sep) =~= str_views(before) + (
        seq![tail.take(k - from)] + split_on(tail.skip(k - from + 1), sep)));
        from = k + 1;
    }
}

/// The pieces before a dot and those behind it.
pub proof fn lemma_split_concat(a: Seq<char>, b: Seq<char>)
    ensures
        split_on(a.push('.') + b, '.') == split_on(a, '.') + split_on(b, '.'),
    decreases a.len(),
{
    let s = a.push('.') + b;
    let dot = the_char('.');
    let k = first_index(a, dot) as int;
    lemma_first_index_is(a, dot);
    assert forall|j: int| 0 <= j < k implies !dot(s[j]) by {
        assert(s[j] == a[j]);
    }
    assert(dot(s[k]));
    lemma_first_index(s, dot, k);
    assert(s.take(k) =~= a.take(k));
    if k < a.len() {
        lemma_split_concat(a.skip(k + 1), b);
        assert(s.skip(k + 1) =~= a.skip(k + 1).push('.') + b);
    } else {
        assert(s.skip(k + 1) =~= b);
        assert(a.take(k) =~= a);
        assert(split_on(a, '.') == seq![a]);
    }
    assert(split_on(s, '.') == seq![s.take(k)] + split_on(s.skip(k + 1), '.'));
    assert(split_on(s, '.') =~= split_on(a, '.') + split_on(b, '.'));
}

/// The pieces with `sep` between them.
pub open spec fn joined(parts: Seq<Seq<char>>, sep: Seq<char>) -> Seq<char>
    decreases parts.len(),
{
    if parts.len() == 0 {
        seq![]
    } else if parts.len() == 1 {
        parts[0]
    } else {
        joined(parts.drop_last(), sep) + sep + parts.last()
    }
}

/// Joins the first `n` pieces.
pub fn join_first(parts: &[&str], n: usize, sep: &str) -> (r: String)
    requires
        n <= parts@.len(),
    ensures
        r@ == joined(str_views(parts@).take(n as int), sep@),
{
    let ghost all = str_views(parts@);
    let mut out: String = String::new();
    let mut i: usize = 0;
    assert(out@ =~= joined(all.take(0), sep@));
    while i < n
        invariant
            i <= n <= parts@.len(),
            all == str_views(parts@),
            out@ == joined(all.take(i as int), sep@),
        decreases n - i,
    {
        assert(all[i as int] == parts@[i as int]@);
        assert(all.take(i + 1).drop_last() =~= all.take(i as int));
        if i > 0 {
            out.push_str(sep);
        }
        let ghost before = out@;
        out.push_str(parts[i]);
        assert(i == 0 ==> out@ =~= all[0]);
        i += 1;
    }
    out
}

/// Position behind the last `c` in `s`; zero if there is none.
pub open spec fn after_last(s: Seq<char>, c: char) -> int
    decreases s.len(),
{
    if s.len() == 0 {
        0
    } else if s.last() == c {
        s.len() as int
    } else {
        after_last(s.drop_last(), c)
    }
}

/// Finds the position behind the last `c`.
pub fn find_after_last(s: &[char], c: char) -> (r: usize)
    ensures
        r == after_last(s@, c),
        r <= s@.len(),
{
    let mut n: usize = s.len();
    assert(s@.take(n as int) =~= s@);
    while n > 0
        invariant
            n <= s@.len(),
            after_last(s@.take(n as int), c) == after_last(s@, c),
        decreases n,
    {
        assert(s@.take(n as int).drop_last() =~= s@.take(n - 1));
        if s[n - 1] == c {
            return n;
        }
        n -= 1;
    }
    0
}

// ---------------------------------------------------------------------------
// Order
// ---------------------------------------------------------------------------

/// Lexicographic order by code point, which is also the order of the UTF-8
/// encodings.
pub open spec fn lex_le(a: Seq<char>, b: Seq<char>) -> bool
    decreases a.len(),
{
    if a.len() == 0 {
        true
    } else if b.len() == 0 {
        false
    } else if a[0] != b[0] {
        a[0] < b[0]
    } else {
        lex_le(a.drop_first(), b.drop_first())
    }
}

/// Compares two strings in lexicographic order.
#[verifier::loop_isolation(false)]
pub fn str_le(a: &str, b: &str) -> (r: bool)
    ensures
        r == lex_le(a@, b@),
{
    let x: Vec<char> = chars_of(a);
    let y: Vec<char> = chars_of(b);
    let mut i: usize = 0;
    assert(x@.skip(0) =~= x@);
    assert(y@.skip(0) =~= y@);
    while i < x.len() && i < y.len()
        invariant
            i <= x@.len(),
            i <= y@.len(),
            lex_le(x@.skip(i as int), y@.skip(i as int)) == lex_le(x@, y@),
        decreases x.len() - i,
    {
        if x[i] != y[i] {
            return x[i] < y[i];
        }
        assert(x@.skip(i as int).drop_first() =~= x@.skip(i + 1));
        assert(y@.skip(i as int).drop_first() =~= y@.skip(i + 1));
        i += 1;
    }
    i == x.len()
}

/// The order is total.
pub proof fn lemma_lex_total(a: Seq<char>, b: Seq<char>)
    ensures
        lex_le(a, b) || lex_le(b, a),
    decreases a.len(),
{
    if a.len() > 0 && b.len() > 0 && a[0] == b[0] {
        lemma_lex_total(a.drop_first(), b.drop_first());
    }
}

/// The order is antisymmetric.
pub proof fn lemma_lex_antisymmetric(a: Seq<char>, b: Seq<char>)
    requires
        lex_le(a, b),
        lex_le(b, a),
    ensures
        a == b,
    decreases a.len(),
{
    if a.len() > 0 && b.len() > 0 {
        lemma_lex_antisymmetric(a.drop_first(), b.drop_first());
        assert(a =~= seq![a[0]] + a.drop_first());
        assert(b =~= seq![b[0]] + b.drop_first());
    }
}

/// The order is transitive.
pub proof fn lemma_lex_transitive(a: Seq<char>, b: Seq<char>, c: Seq<char>)
    requires
        lex_le(a, b),
        lex_le(b, c),
    ensures
        lex_le(a, c),
    decreases a.len(),
{
    if a.len() > 0 && b.len() > 0 && c.len() > 0 && a[0] == b[0] && b[0] == c[0] {
        lemma_lex_transitive(a.drop_first(), b.drop_first(), c.drop_first());
    }
}

// ---------------------------------------------------------------------------
// Numbers
// ---------------------------------------------------------------------------

/// Decimal digit character of `d`.
pub open spec fn digit_char(d: nat) -> char {
    ('0' as u32 + d) as char
}

/// Decimal notation of a natural number, without leading zeros.
pub open spec fn decimal(n: nat) -> Seq<char>
    decreases n,
{
    if n < 10 {
        seq![digit_char(n)]
    } else {
        decimal(n / 10).push(digit_char(n % 10))
    }
}

/// The digit characters, in order.
fn digit_of(d: u64) -> (r: char)
    requires
        d < 10,
    ensures
        r == digit_char(d as nat),
{
    match d {
        0 => '0',
        1 => '1',
        2 => '2',
        3 => '3',
        4 => '4',
        5 => '5',
        6 => '6',
        7 => '7',
        8 => '8',
        _ => '9',
    }
}

/// Writes a number in decimal.
pub fn u64_to_string(n: u64) -> (r: String)
    ensures
        r@ == decimal(n as nat),
    decreases n,
{
    if n < 10 {
        let mut out: String = String::new();
        out.push(digit_of(n));
        assert(out@ =~= seq![digit_char(n as nat)]);
        out
    } else {
        let mut out: String = u64_to_string(n / 10);
        out.push(digit_of(n % 10));
        out
    }
}

/// Numeric value of a run of decimal digits.
pub open spec fn digits_value(s: Seq<char>) -> nat
    decreases s.len(),
{
    if s.len() == 0 {
        0
    } else {
        digits_value(s.drop_last()) * 10 + ((s.last() as u32 - '0' as u32) as nat)
    }
}

/// All characters of `s` are decimal digits.
pub open spec fn all_digits(s: Seq<char>) -> bool {
    forall|i: int| 0 <= i < s.len() ==> digit(#[trigger] s[i])
}

/// The unsigned 64-bit number that `s` denotes: an optional `+`, then at least
/// one decimal digit, with a value that fits.
pub open spec fn parsed_u64(s: Seq<char>) -> Option<u64> {
    let t = if s.len() > 0 && s[0] == '+' {
        s.skip(1)
    } else {
        s
    };
    if t.len() > 0 && all_digits(t) && digits_value(t) <= u64::MAX {
        Some(digits_value(t) as u64)
    } else {
        None
    }
}

/// Parses an unsigned 64-bit decimal number.
#[verifier::loop_isolation(false)]
pub fn parse_u64(s: &str) -> (r: Option<u64>)
    ensures
        r == parsed_u64(s@),
{
    let v: Vec<char> = chars_of(s);
    let from: usize = if v.len() > 0 && v[0] == '+' {
        1
    } else {
        0
    };
    let ghost t = s@.skip(from as int);
    assert(s@.skip(0) =~= s@);
    if from == v.len() {
        return None;
    }
    let mut i: usize = from;
    let mut value: u64 = 0;
    let mut fits: bool = true;
    while i < v.len()
        invariant
            from <= i <= v@.len(),
            v@ == s@,
            t == s@.skip(from as int),
            all_digits(t.take(i - from)),
            fits ==> value == digits_value(t.take(i - from)),
            !fits ==> digits_value(t.take(i - from)) > u64::MAX,
        decreases v.len() - i,
    {
        let c: char = v[i];
        if !is_digit(c) {
            assert(!digit(t[i - from]));
            return None;
        }
        let d: u64 = (c as u32 - '0' as u32) as u64;
        let ghost cur = t.take(i - from);
        let ghost next = t.take(i - from + 1);
        proof {
            assert(next.drop_last() =~= cur);
            assert(next.last() == c);
            assert(digits_value(next) == digits_value(cur) * 10 + d);
            assert forall|j: int| 0 <= j < next.len() implies digit(#[trigger] next[j]) by {
                if j < cur.len() {
                    assert(next[j] == cur[j]);
                }
            }
        }
        if fits {
            match value.checked_mul(10) {
                Some(m) => {
                    match m.checked_add(d) {
                        Some(a) => {
                            value = a;
                        },
                        None => {
                            fits = false;
                        },
                    }
                },
                None => {
                    fits = false;
                },
            }
        }
        i += 1;
    }
    assert(t.take(t.len() as int) =~= t);
    if fits {
        Some(value)
    } else {
        None
    }
}

// ---------------------------------------------------------------------------
// Unicode-aware operations
// ---------------------------------------------------------------------------

/// ASCII letter or digit.
pub open spec fn ascii_alphanumeric(c: char) -> bool {
    digit(c) || ('a' <= c && c <= 'z') || ('A' <= c && c <= 'Z')
}

/// Tests for an ASCII letter or digit.
pub fn is_ascii_alphanumeric(c: char) -> (r: bool)
    ensures
        r == ascii_alphanumeric(c),
{
    is_digit(c) || ('a' <= c && c <= 'z') || ('A' <= c && c <= 'Z')
}

/// Lower-case form of an ASCII character; any other character is unchanged.
pub open spec fn ascii_lower(c: char) -> char {
    if 'A' <= c && c <= 'Z' {
        (c as u32 + 32) as char
    } else {
        c
    }
}

/// What `str::to_lowercase` returns.
pub uninterp spec fn unicode_lowercase(s: Seq<char>) -> Seq<char>;

/// All characters are ASCII.
pub open spec fn ascii_only(s: Seq<char>) -> bool {
    vstd::utf8::is_ascii_chars(s)
}

/// Lower-case form of a string: character by character for ASCII strings, by
/// the Unicode tables for all others.
pub open spec fn lowercase(s: Seq<char>) -> Seq<char> {
    if ascii_only(s) {
        s.map_values(|c: char| ascii_lower(c))
    } else {
        unicode_lowercase(s)
    }
}

/// `str::to_lowercase` maps by the Unicode tables; the result depends on the
/// string alone.
pub assume_specification[ str::to_lowercase ](s: &str) -> (r: String)
    ensures
        r@ == unicode_lowercase(s@),
;

/// Lower-cases one ASCII character.
pub fn to_ascii_lower(c: char) -> (r: char)
    ensures
        r == ascii_lower(c),
{
    if 'A' <= c && c <= 'Z' {
        ((c as u8) + 32) as char
    } else {
        c
    }
}

/// Lower-cases a string.
pub fn str_lowercase(s: &str) -> (r: String)
    ensures
        r@ == lowercase(s@),
{
    if !s.is_ascii() {
        return s.to_lowercase();
    }
    let v: Vec<char> = chars_of(s);
    let mut out: String = String::new();
    let mut i: usize = 0;
    while i < v.len()
        invariant
            i <= v@.len(),
            v@ == s@,
            out@ == s@.take(i as int).map_values(|c: char| ascii_lower(c)),
        decreases v.len() - i,
    {
        out.push(to_ascii_lower(v[i]));
        i += 1;
        assert(out@ =~= s@.take(i as int).map_values(|c: char| ascii_lower(c)));
    }
    assert(s@.take(i as int) =~= s@);
    out
}

} // verus!
