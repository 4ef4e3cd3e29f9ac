//! Facts about UTF-8: where characters start, and how texts join.
use vstd::prelude::*;

verus! {

/// The encoding of two texts in a row is the two encodings in a row.
pub proof fn lemma_encode_concat(a: Seq<char>, b: Seq<char>)
    ensures
        vstd::utf8::encode_utf8(a + b) == vstd::utf8::encode_utf8(a) + vstd::utf8::encode_utf8(b),
    decreases a.len(),
{
    if a.len() == 0 {
        assert(a + b =~= b);
        assert(vstd::utf8::encode_utf8(a) + vstd::utf8::encode_utf8(b)
            =~= vstd::utf8::encode_utf8(b));
    } else {
        lemma_encode_concat(a.drop_first(), b);
        assert((a + b).drop_first() =~= a.drop_first() + b);
        let first = vstd::utf8::encode_scalar(a[0] as u32);
        assert(first + (vstd::utf8::encode_utf8(a.drop_first()) + vstd::utf8::encode_utf8(b))
            =~= (first + vstd::utf8::encode_utf8(a.drop_first())) + vstd::utf8::encode_utf8(b));
    }
}

/// Texts with the same encoding are the same.
pub proof fn lemma_encode_injective(a: Seq<char>, b: Seq<char>)
    requires
        vstd::utf8::encode_utf8(a) == vstd::utf8::encode_utf8(b),
    ensures
        a == b,
{
    vstd::utf8::encode_utf8_decode_utf8(a);
    vstd::utf8::encode_utf8_decode_utf8(b);
}

/// How many bytes a character takes.
pub open spec fn char_len(c: char) -> nat {
    vstd::utf8::encode_scalar(c as u32).len()
}

/// How many bytes a character takes.
pub fn char_bytes(c: char) -> (len: usize)
    ensures
        len == char_len(c),
        1 <= len <= 4,
{
    let n: u32 = c as u32;
    if n < 0x80 {
        1
    } else if n < 0x800 {
        2
    } else if n < 0x10000 {
        3
    } else {
        4
    }
}

/// One more character adds its bytes at the end.
pub proof fn lemma_encode_push(text: Seq<char>, c: char)
    ensures
        vstd::utf8::encode_utf8(text.push(c)) == vstd::utf8::encode_utf8(text)
            + vstd::utf8::encode_scalar(c as u32),
        vstd::utf8::encode_utf8(text.push(c)).len() == vstd::utf8::encode_utf8(text).len()
            + char_len(c),
{
    lemma_encode_concat(text, seq![c]);
    assert(text.push(c) =~= text + seq![c]);
    assert(seq![c].drop_first() =~= Seq::<char>::empty());
    assert(vstd::utf8::encode_utf8(Seq::<char>::empty()) =~= Seq::<u8>::empty());
    assert(vstd::utf8::encode_utf8(seq![c]) =~= vstd::utf8::encode_scalar(c as u32));
}

/// Where character `k` starts.
pub open spec fn byte_of(text: Seq<char>, k: int) -> int {
    vstd::utf8::encode_utf8(text.take(k)).len() as int
}

/// Characters start one after the other.
pub proof fn lemma_byte_of_step(text: Seq<char>, k: int)
    requires
        0 <= k < text.len(),
    ensures
        byte_of(text, k + 1) == byte_of(text, k) + char_len(text[k]),
        char_len(text[k]) >= 1,
{
    assert(text.take(k + 1) =~= text.take(k).push(text[k]));
    lemma_encode_push(text.take(k), text[k]);
}

/// Later characters start later.
pub proof fn lemma_byte_of_less(text: Seq<char>, i: int, j: int)
    requires
        0 <= i < j <= text.len(),
    ensures
        byte_of(text, i) < byte_of(text, j),
    decreases j - i,
{
    lemma_byte_of_step(text, j - 1);
    if i < j - 1 {
        lemma_byte_of_less(text, i, j - 1);
    }
}

/// Whether a byte offset lies between two characters of a text, or at its start or end.
pub open spec fn boundary(bytes: Seq<u8>, offset: int) -> bool {
    vstd::utf8::valid_utf8(bytes) && vstd::utf8::is_char_boundary(bytes, offset)
}

/// Where a character starts is a boundary.
pub proof fn lemma_byte_of_boundary(text: Seq<char>, k: int)
    requires
        0 <= k <= text.len(),
    ensures
        boundary(vstd::utf8::encode_utf8(text), byte_of(text, k)),
        byte_of(text, k) <= vstd::utf8::encode_utf8(text).len(),
        vstd::utf8::encode_utf8(text).subrange(0, byte_of(text, k)) == vstd::utf8::encode_utf8(
            text.take(k),
        ),
        vstd::utf8::encode_utf8(text).subrange(
            byte_of(text, k),
            vstd::utf8::encode_utf8(text).len() as int,
        ) == vstd::utf8::encode_utf8(text.skip(k)),
    decreases k,
{
    let bytes = vstd::utf8::encode_utf8(text);
    vstd::utf8::encode_utf8_valid_utf8(text);
    lemma_encode_concat(text.take(k), text.skip(k));
    assert(text.take(k) + text.skip(k) =~= text);
    assert(bytes.subrange(0, byte_of(text, k)) =~= vstd::utf8::encode_utf8(text.take(k)));
    assert(bytes.subrange(byte_of(text, k), bytes.len() as int) =~= vstd::utf8::encode_utf8(
        text.skip(k),
    ));
    if k > 0 {
        let rest = text.drop_first();
        vstd::utf8::encode_utf8_first_scalar(text);
        assert(vstd::utf8::pop_first_scalar(bytes) =~= vstd::utf8::encode_utf8(rest));
        lemma_byte_of_boundary(rest, k - 1);
        assert(text.take(k) =~= seq![text[0]] + rest.take(k - 1));
        assert(text.take(k).drop_first() =~= rest.take(k - 1));
        assert(byte_of(text, k) == char_len(text[0]) + byte_of(rest, k - 1));
    }
}

/// Which character starts at a boundary (or the number of characters, at the end).
pub proof fn lemma_boundary_char(text: Seq<char>, offset: int) -> (k: int)
    requires
        boundary(vstd::utf8::encode_utf8(text), offset),
    ensures
        0 <= k <= text.len(),
        byte_of(text, k) == offset,
    decreases text.len(),
{
    let bytes = vstd::utf8::encode_utf8(text);
    if offset == 0 {
        assert(text.take(0) =~= Seq::<char>::empty());
        0
    } else {
        if text.len() == 0 {
            assert(bytes.len() == 0);
        }
        let rest = text.drop_first();
        vstd::utf8::encode_utf8_first_scalar(text);
        assert(vstd::utf8::pop_first_scalar(bytes) =~= vstd::utf8::encode_utf8(rest));
        vstd::utf8::encode_utf8_valid_utf8(rest);
        let k = lemma_boundary_char(rest, offset - char_len(text[0]));
        assert(text.take(k + 1).drop_first() =~= rest.take(k));
        k + 1
    }
}

/// Boundaries lie within the text.
pub proof fn lemma_boundary_range(bytes: Seq<u8>, offset: int)
    requires
        boundary(bytes, offset),
    ensures
        0 <= offset <= bytes.len(),
{
}

/// The start and the end of a text are boundaries.
pub proof fn lemma_ends(bytes: Seq<u8>)
    requires
        vstd::utf8::valid_utf8(bytes),
    ensures
        boundary(bytes, 0),
        boundary(bytes, bytes.len() as int),
{
    vstd::utf8::is_char_boundary_start_end_of_seq(bytes);
}

/// After an ASCII character comes a boundary.
proof fn lemma_after_ascii(bytes: Seq<u8>, offset: int)
    requires
        boundary(bytes, offset),
        0 <= offset < bytes.len(),
        bytes[offset] < 0x80,
    ensures
        boundary(bytes, offset + 1),
    decreases bytes.len(),
{
    let len = vstd::utf8::length_of_first_scalar(bytes);
    let rest = vstd::utf8::pop_first_scalar(bytes);
    if offset == 0 {
        assert(len == 1);
        vstd::utf8::is_char_boundary_start_end_of_seq(rest);
    } else {
        assert(vstd::utf8::is_char_boundary(rest, offset - len));
        lemma_boundary_range(rest, offset - len);
        assert(rest[offset - len] == bytes[offset]);
        lemma_after_ascii(rest, offset - len);
    }
}

/// An ASCII byte is a character of its own: there are boundaries before and after it.
pub proof fn lemma_ascii_boundaries(bytes: Seq<u8>, offset: int)
    requires
        vstd::utf8::valid_utf8(bytes),
        0 <= offset < bytes.len(),
        bytes[offset] < 0x80,
    ensures
        boundary(bytes, offset),
        boundary(bytes, offset + 1),
{
    vstd::utf8::is_char_boundary_iff_not_is_continuation_byte(bytes, offset);
    lemma_after_ascii(bytes, offset);
}

/// The part of a text between two boundaries is a text, and boundaries within it are those
/// of the whole.
pub proof fn lemma_slice(bytes: Seq<u8>, from: int, to: int)
    requires
        boundary(bytes, from),
        boundary(bytes, to),
        from <= to,
    ensures
        0 <= from <= to <= bytes.len(),
        vstd::utf8::valid_utf8(bytes.subrange(from, to)),
        forall|i: int|
            #![trigger boundary(bytes.subrange(from, to), i)]
            boundary(bytes.subrange(from, to), i) <==> 0 <= i <= to - from && boundary(
                bytes,
                from + i,
            ),
{
    let text = vstd::utf8::decode_utf8(bytes);
    vstd::utf8::decode_utf8_encode_utf8(bytes);
    let a = lemma_boundary_char(text, from);
    let b = lemma_boundary_char(text, to);
    if b < a {
        lemma_byte_of_less(text, b, a);
    }
    let part = text.subrange(a, b);
    assert(text.take(b) =~= text.take(a) + part);
    lemma_encode_concat(text.take(a), part);
    lemma_byte_of_boundary(text, b);
    let head = bytes.subrange(0, to);
    assert(head == vstd::utf8::encode_utf8(text.take(a)) + vstd::utf8::encode_utf8(part));
    assert(bytes.subrange(from, to) =~= head.subrange(from, to));
    assert(head.subrange(from, to) =~= vstd::utf8::encode_utf8(part));
    vstd::utf8::encode_utf8_valid_utf8(part);
    assert forall|i: int|
        #![trigger boundary(bytes.subrange(from, to), i)]
        boundary(bytes.subrange(from, to), i) <==> 0 <= i <= to - from && boundary(
            bytes,
            from + i,
        ) by {
        if boundary(bytes.subrange(from, to), i) {
            lemma_boundary_range(bytes.subrange(from, to), i);
            let k = lemma_boundary_char(part, i);
            assert(text.take(a + k) =~= text.take(a) + part.take(k));
            lemma_encode_concat(text.take(a), part.take(k));
            lemma_byte_of_boundary(text, a + k);
        }
        if 0 <= i <= to - from && boundary(bytes, from + i) {
            let c = lemma_boundary_char(text, from + i);
            if c < a {
                lemma_byte_of_less(text, c, a);
            }
            if c > b {
                lemma_byte_of_less(text, b, c);
            }
            assert(text.take(c) =~= text.take(a) + part.take(c - a));
            lemma_encode_concat(text.take(a), part.take(c - a));
            lemma_byte_of_boundary(part, c - a);
        }
    }
}

/// Putting a text in place of the part between two boundaries gives a text.
pub proof fn lemma_splice(bytes: Seq<u8>, from: int, to: int, new: Seq<char>)
    requires
        boundary(bytes, from),
        boundary(bytes, to),
        from <= to,
    ensures
        ({
            let enc = vstd::utf8::encode_utf8(new);
            let whole = bytes.subrange(0, from) + enc + bytes.subrange(to, bytes.len() as int);
            &&& boundary(whole, from + enc.len())
            &&& boundary(whole, from)
        }),
{
    let text = vstd::utf8::decode_utf8(bytes);
    vstd::utf8::decode_utf8_encode_utf8(bytes);
    let a = lemma_boundary_char(text, from);
    let b = lemma_boundary_char(text, to);
    lemma_byte_of_boundary(text, a);
    lemma_byte_of_boundary(text, b);
    let joined = text.take(a) + new + text.skip(b);
    lemma_encode_concat(text.take(a), new);
    lemma_encode_concat(text.take(a) + new, text.skip(b));
    let enc = vstd::utf8::encode_utf8(new);
    let whole = bytes.subrange(0, from) + enc + bytes.subrange(to, bytes.len() as int);
    assert(whole =~= vstd::utf8::encode_utf8(joined));
    assert(joined.take(a + new.len()) =~= text.take(a) + new);
    lemma_byte_of_boundary(joined, a + new.len() as int);
    assert(joined.take(a) =~= text.take(a));
    lemma_byte_of_boundary(joined, a);
}

/// The part of a string between two boundaries.
pub fn slice_text(s: &str, from: usize, to: usize) -> (part: &str)
    requires
        boundary(vstd::utf8::encode_utf8(s@), from as int),
        boundary(vstd::utf8::encode_utf8(s@), to as int),
        from <= to,
    ensures
        vstd::utf8::encode_utf8(part@) == vstd::utf8::encode_utf8(s@).subrange(
            from as int,
            to as int,
        ),
{
    let ghost bytes = vstd::utf8::encode_utf8(s@);
    let (_, rest) = s.split_at(from);
    proof {
        lemma_ends(bytes);
        lemma_slice(bytes, from as int, bytes.len() as int);
        assert(boundary(bytes.subrange(from as int, bytes.len() as int), to - from));
    }
    let (part, _) = rest.split_at(to - from);
    assert(bytes.subrange(from as int, bytes.len() as int).subrange(0, to - from)
        =~= bytes.subrange(from as int, to as int));
    part
}

} // verus!
