//! Character-level text model: UTF-8 byte offsets of character positions,
//! Unicode character classes, lower-casing, and conversions between `str`
//! and character vectors.
use vstd::prelude::*;
use vstd::utf8::*;

verus! {

/// The number of bytes in the UTF-8 encoding of `c`.
pub open spec fn char_width(c: char) -> nat {
    encode_scalar(c as u32).len()
}

/// The byte offset, in the UTF-8 encoding of `s`, at which the character
/// with index `i` starts (the full byte length when `i == s.len()`).
pub open spec fn byte_offset(s: Seq<char>, i: int) -> int {
    encode_utf8(s.take(i)).len() as int
}

/// `b` is the byte offset of some character position of `s` (a character
/// boundary of its UTF-8 encoding, the end included).
pub open spec fn is_char_offset(s: Seq<char>, b: int) -> bool {
    exists|i: int| 0 <= i <= s.len() && #[trigger] byte_offset(s, i) == b
}

/// The character position whose byte offset is `b`.
pub open spec fn char_index_at(s: Seq<char>, b: int) -> int {
    choose|i: int| 0 <= i <= s.len() && #[trigger] byte_offset(s, i) == b
}

pub proof fn lemma_encode_utf8_concat(a: Seq<char>, b: Seq<char>)
    ensures
        encode_utf8(a + b) == encode_utf8(a) + encode_utf8(b),
    decreases a.len(),
{
    if a.len() == 0 {
        assert(a + b =~= b);
        assert(encode_utf8(a) =~= Seq::<u8>::empty());
        assert(encode_utf8(a) + encode_utf8(b) =~= encode_utf8(b));
    } else {
        assert((a + b).drop_first() =~= a.drop_first() + b);
        assert((a + b)[0] == a[0]);
        lemma_encode_utf8_concat(a.drop_first(), b);
        assert(encode_utf8(a + b) =~= encode_utf8(a) + encode_utf8(b));
    }
}

pub proof fn lemma_char_width_bounds(c: char)
    ensures
        1 <= char_width(c) <= 4,
        (c as u32) <= 0x7f ==> char_width(c) == 1,
        0x80 <= (c as u32) <= 0x7ff ==> char_width(c) == 2,
        0x800 <= (c as u32) <= 0xffff ==> char_width(c) == 3,
        0x10000 <= (c as u32) ==> char_width(c) == 4,
{
    broadcast use char_is_scalar;
    let u = c as u32;
    assert(is_scalar(u));
}

pub proof fn lemma_byte_offset_step(s: Seq<char>, i: int)
    requires
        0 <= i < s.len(),
    ensures
        byte_offset(s, i + 1) == byte_offset(s, i) + char_width(s[i]),
{
    assert(s.take(i + 1) =~= s.take(i) + seq![s[i]]);
    lemma_encode_utf8_concat(s.take(i), seq![s[i]]);
    let one = seq![s[i]];
    assert(one.drop_first() =~= Seq::<char>::empty());
    assert(encode_utf8(one.drop_first()) =~= Seq::<u8>::empty());
    assert(encode_utf8(one) =~= encode_scalar(s[i] as u32));
}

pub proof fn lemma_byte_offset_zero(s: Seq<char>)
    ensures
        byte_offset(s, 0) == 0,
{
    assert(s.take(0) =~= Seq::<char>::empty());
}

pub proof fn lemma_byte_offset_full(s: Seq<char>)
    ensures
        byte_offset(s, s.len() as int) == encode_utf8(s).len(),
{
    assert(s.take(s.len() as int) =~= s);
}

/// Byte offsets grow strictly with the character position.
pub proof fn lemma_byte_offset_strict(s: Seq<char>, i: int, j: int)
    requires
        0 <= i <= j <= s.len(),
    ensures
        byte_offset(s, i) <= byte_offset(s, j),
        i < j ==> byte_offset(s, i) < byte_offset(s, j),
    decreases j - i,
{
    if i < j {
        lemma_byte_offset_strict(s, i, j - 1);
        lemma_byte_offset_step(s, j - 1);
        lemma_char_width_bounds(s[j - 1]);
    }
}

/// Each byte offset names exactly one character position.
pub proof fn lemma_char_index_at(s: Seq<char>, i: int)
    requires
        0 <= i <= s.len(),
    ensures
        is_char_offset(s, byte_offset(s, i)),
        char_index_at(s, byte_offset(s, i)) == i,
{
    let b = byte_offset(s, i);
    assert(0 <= i <= s.len() && byte_offset(s, i) == b);
    let k = char_index_at(s, b);
    if k < i {
        lemma_byte_offset_strict(s, k, i);
    } else if i < k {
        lemma_byte_offset_strict(s, i, k);
    }
}

/// The number of bytes in the UTF-8 encoding of `c`, as `char::len_utf8`
/// reports it.
pub fn utf8_width(c: char) -> (w: usize)
    ensures
        w == char_width(c),
{
    proof {
        lemma_char_width_bounds(c);
    }
    let u = c as u32;
    if u <= 0x7f {
        1
    } else if u <= 0x7ff {
        2
    } else if u <= 0xffff {
        3
    } else {
        4
    }
}

/// The characters of `s`, in order.
pub fn chars_of(s: &str) -> (v: Vec<char>)
    ensures
        v@ == s@,
{
    let mut v: Vec<char> = Vec::new();
    for c in it: s.chars()
        invariant
            v@ == it.seq().take(it.index() as int),
    {
        v.push(c);
    }
    v
}

} // verus!

verus! {

/// Unicode `Alphabetic` property of `c`, as `char::is_alphabetic` reports it.
pub uninterp spec fn is_alphabetic(c: char) -> bool;

/// Unicode `Uppercase` property of `c`, as `char::is_uppercase` reports it.
pub uninterp spec fn is_uppercase(c: char) -> bool;

/// The full Unicode lower-case mapping of `s`, as `str::to_lowercase`
/// computes it.
pub uninterp spec fn lowercase_of(s: Seq<char>) -> Seq<char>;

/// The Unicode `White_Space` characters.
pub open spec fn is_white_space(c: char) -> bool {
    let u = c as u32;
    ||| 0x09 <= u <= 0x0d
    ||| u == 0x20
    ||| u == 0x85
    ||| u == 0xa0
    ||| u == 0x1680
    ||| 0x2000 <= u <= 0x200a
    ||| u == 0x2028
    ||| u == 0x2029
    ||| u == 0x202f
    ||| u == 0x205f
    ||| u == 0x3000
}

/// `char::is_alphabetic`: whether `c` has the Unicode `Alphabetic` property.
/// Trusted: the result is the named property of `c`; nothing more is stated.
#[verifier::external_body]
pub(crate) fn char_is_alphabetic(c: char) -> (r: bool)
    ensures
        r == is_alphabetic(c),
{
    c.is_alphabetic()
}

/// `char::is_uppercase`: whether `c` has the Unicode `Uppercase` property.
/// Trusted: the result is the named property of `c`; nothing more is stated.
#[verifier::external_body]
pub(crate) fn char_is_uppercase(c: char) -> (r: bool)
    ensures
        r == is_uppercase(c),
{
    c.is_uppercase()
}

/// Whether `c` has the Unicode `White_Space` property, the test that
/// `char::is_whitespace` makes.
pub(crate) fn char_is_whitespace(c: char) -> (r: bool)
    ensures
        r == is_white_space(c),
{
    let u = c as u32;
    (0x09 <= u && u <= 0x0d) || u == 0x20 || u == 0x85 || u == 0xa0 || u == 0x1680 || (0x2000 <= u
        && u <= 0x200a) || u == 0x2028 || u == 0x2029 || u == 0x202f || u == 0x205f || u == 0x3000
}

/// `str::to_lowercase`. Trusted: the result is the named lower-case
/// mapping of the argument's characters.
#[verifier::external_body]
pub(crate) fn to_lowercase(s: &str) -> (r: String)
    ensures
        r@ == lowercase_of(s@),
{
    s.to_lowercase()
}

/// `String::push`: appends one character.
#[verifier::external_body]
pub(crate) fn push_char(s: &mut String, c: char)
    ensures
        final(s)@ == old(s)@.push(c),
{
    s.push(c)
}

/// The characters `v[from..to]` as a new string.
pub fn string_from_range(v: &Vec<char>, from: usize, to: usize) -> (r: String)
    requires
        from <= to <= v@.len(),
    ensures
        r@ == v@.subrange(from as int, to as int),
{
    let mut r = String::new();
    let mut i = from;
    while i < to
        invariant
            from <= i <= to <= v@.len(),
            r@ == v@.subrange(from as int, i as int),
        decreases to - i,
    {
        push_char(&mut r, v[i]);
        assert(v@.subrange(from as int, i + 1) =~= v@.subrange(from as int, i as int).push(v@[i as int]));
        i = i + 1;
    }
    r
}

/// Appends the characters `v[from..to]` to `out`.
pub fn push_range(out: &mut String, v: &Vec<char>, from: usize, to: usize)
    requires
        from <= to <= v@.len(),
    ensures
        final(out)@ == old(out)@ + v@.subrange(from as int, to as int),
{
    let ghost start = out@;
    let mut i = from;
    while i < to
        invariant
            from <= i <= to <= v@.len(),
            out@ == start + v@.subrange(from as int, i as int),
        decreases to - i,
    {
        push_char(out, v[i]);
        assert(v@.subrange(from as int, i + 1) =~= v@.subrange(from as int, i as int).push(v@[i as int]));
        assert(start + v@.subrange(from as int, i + 1) =~= (start + v@.subrange(from as int, i as int)).push(v@[i as int]));
        i = i + 1;
    }
}

/// Byte offsets of every character position of `s`: entry `i` is where the
/// character with index `i` starts, and the last entry is the byte length.
pub fn char_byte_offsets(s: &str) -> (offsets: Vec<usize>)
    ensures
        offsets@.len() == s@.len() + 1,
        forall|i: int| 0 <= i <= s@.len() ==> #[trigger] offsets@[i] == byte_offset(s@, i),
{
    let total = s.as_bytes().len();
    let chars = chars_of(s);
    let mut offsets: Vec<usize> = Vec::new();
    let mut off: usize = 0;
    offsets.push(0);
    proof {
        lemma_byte_offset_zero(s@);
        lemma_byte_offset_full(s@);
    }
    let mut i: usize = 0;
    while i < chars.len()
        invariant
            chars@ == s@,
            total == encode_utf8(s@).len(),
            i <= chars@.len(),
            offsets@.len() == i + 1,
            off == byte_offset(s@, i as int),
            forall|k: int| 0 <= k <= i ==> #[trigger] offsets@[k] == byte_offset(s@, k),
        decreases chars@.len() - i,
    {
        proof {
            lemma_byte_offset_step(s@, i as int);
            lemma_byte_offset_strict(s@, i + 1, s@.len() as int);
            lemma_byte_offset_full(s@);
        }
        let w = utf8_width(chars[i]);
        off = off + w;
        offsets.push(off);
        i = i + 1;
    }
    offsets
}

} // verus!
