//! Byte-string helpers shared by the other modules.
use vstd::prelude::*;

verus! {

/// The line feed byte.
pub const LF: u8 = 10;

/// The carriage return byte.
pub const CR: u8 = 13;

/// Appends a byte string.
pub fn append(out: &mut Vec<u8>, more: &[u8])
    ensures
        final(out)@ == old(out)@ + more@,
{
    out.extend_from_slice(more);
    assert(out@ =~= old(out)@ + more@);
}

/// Appends one byte.
pub fn append_byte(out: &mut Vec<u8>, byte: u8)
    ensures
        final(out)@ == old(out)@ + seq![byte],
{
    out.push(byte);
    assert(out@ =~= old(out)@ + seq![byte]);
}

/// Appends the UTF-8 encoding of a string.
pub fn append_str(out: &mut Vec<u8>, more: &str)
    ensures
        final(out)@ == old(out)@ + vstd::utf8::encode_utf8(more@),
{
    append(out, more.as_bytes());
}

/// Copies a byte string.
pub fn copy(bytes: &[u8]) -> (result: Vec<u8>)
    ensures
        result@ == bytes@,
{
    let mut out: Vec<u8> = Vec::new();
    append(&mut out, bytes);
    assert(out@ =~= bytes@);
    out
}

/// Whether two byte strings hold the same bytes.
pub fn same(a: &[u8], b: &[u8]) -> (result: bool)
    ensures
        result == (a@ == b@),
{
    if a.len() != b.len() {
        return false;
    }
    let mut i: usize = 0;
    while i < a.len()
        invariant
            a@.len() == b@.len(),
            i <= a.len(),
            forall|j: int| 0 <= j < i ==> a@[j] == b@[j],
        decreases a.len() - i,
    {
        if a[i] != b[i] {
            return false;
        }
        i = i + 1;
    }
    assert(a@ =~= b@);
    true
}

/// The decimal digits of a natural number, without leading zeros.
pub open spec fn decimal(n: nat) -> Seq<u8>
    decreases n,
{
    if n < 10 {
        seq![(48 + n) as u8]
    } else {
        decimal(n / 10).push((48 + n % 10) as u8)
    }
}

/// The decimal form of an integer, with a leading `-` where it is negative.
pub open spec fn signed_decimal(n: int) -> Seq<u8> {
    if n < 0 {
        seq![45u8] + decimal((-n) as nat)
    } else {
        decimal(n as nat)
    }
}

/// Appends the decimal digits of `n`.
pub fn push_decimal(out: &mut Vec<u8>, n: u64)
    ensures
        final(out)@ == old(out)@ + decimal(n as nat),
    decreases n,
{
    let ghost before = out@;
    let digit: u8 = (n % 10) as u8;
    if n < 10 {
        out.push(48 + digit);
    } else {
        push_decimal(out, n / 10);
        out.push(48 + digit);
    }
    assert(out@ =~= before + decimal(n as nat));
}

/// Appends the decimal form of `n`, with a leading `-` where it is negative.
pub fn push_signed_decimal(out: &mut Vec<u8>, n: i64)
    ensures
        final(out)@ == old(out)@ + signed_decimal(n as int),
{
    let ghost before = out@;
    if n < 0 {
        out.push(45);
        let size: u64 = (-(n + 1)) as u64 + 1;
        push_decimal(out, size);
        assert(out@ =~= before + (seq![45u8] + decimal((-n) as nat)));
    } else {
        push_decimal(out, n as u64);
    }
}

/// What a byte string holds is its bytes.
pub broadcast proof fn lemma_deep(bytes: Vec<u8>)
    ensures
        #[trigger] bytes.deep_view() == bytes@,
{
    assert(bytes.deep_view() =~= bytes@);
}

/// The bytes of a string literal or other text.
pub open spec fn text_bytes(text: Seq<char>) -> Seq<u8> {
    vstd::utf8::encode_utf8(text)
}

/// The bytes of a text.
pub fn bytes_of(text: &str) -> (bytes: Vec<u8>)
    ensures
        bytes@ == text_bytes(text@),
{
    copy(text.as_bytes())
}

/// Copies byte strings.
pub fn copy_all(list: &[Vec<u8>]) -> (copies: Vec<Vec<u8>>)
    ensures
        copies.deep_view() == list@.map_values(|v: Vec<u8>| v@),
{
    broadcast use lemma_deep;

    let mut copies: Vec<Vec<u8>> = Vec::new();
    let mut i: usize = 0;
    while i < list.len()
        invariant
            i == copies@.len() <= list@.len(),
            forall|k: int| 0 <= k < i ==> (#[trigger] copies@[k])@ == list@[k]@,
        decreases list.len() - i,
    {
        copies.push(copy(list[i].as_slice()));
        i = i + 1;
    }
    assert(copies.deep_view() =~= list@.map_values(|v: Vec<u8>| v@));
    copies
}

/// The parts of a byte string between separators: one more than there are separators.
pub open spec fn pieces(bytes: Seq<u8>, sep: u8) -> Seq<Seq<u8>>
    decreases bytes.len(),
{
    if bytes.len() == 0 {
        seq![Seq::empty()]
    } else {
        let before = pieces(bytes.drop_last(), sep);
        if bytes.last() == sep {
            before.push(Seq::empty())
        } else {
            before.drop_last().push(before.last().push(bytes.last()))
        }
    }
}

/// The parts of a byte string between separators.
pub fn split(bytes: &[u8], sep: u8) -> (parts: Vec<Vec<u8>>)
    ensures
        parts.deep_view() == pieces(bytes@, sep),
        parts@.len() > 0,
{
    broadcast use lemma_deep;

    let mut parts: Vec<Vec<u8>> = Vec::new();
    let mut part: Vec<u8> = Vec::new();
    let mut i: usize = 0;
    proof {
        assert(bytes@.take(0) =~= Seq::<u8>::empty());
        assert(parts.deep_view().push(part@) =~= seq![Seq::<u8>::empty()]);
    }
    while i < bytes.len()
        invariant
            i <= bytes@.len(),
            parts.deep_view().push(part@) == pieces(bytes@.take(i as int), sep),
        decreases bytes.len() - i,
    {
        let ghost before = parts.deep_view().push(part@);
        proof {
            assert(bytes@.take(i + 1).drop_last() =~= bytes@.take(i as int));
            assert(before.drop_last() =~= parts.deep_view());
        }
        if bytes[i] == sep {
            let ghost last = part;
            parts.push(part);
            part = Vec::new();
            assert(last.deep_view() == last@);
            assert(parts.deep_view() =~= before);
            assert(part@ =~= Seq::<u8>::empty());
        } else {
            part.push(bytes[i]);
        }
        i = i + 1;
        assert(parts.deep_view().push(part@) =~= pieces(bytes@.take(i as int), sep));
    }
    assert(bytes@.take(i as int) =~= bytes@);
    let ghost all = parts.deep_view().push(part@);
    let ghost last = part;
    parts.push(part);
    assert(last.deep_view() == last@);
    assert(parts.deep_view() =~= all);
    parts
}

/// Where a byte string first holds a byte from `from` on, or its length.
pub open spec fn find_byte(bytes: Seq<u8>, byte: u8, from: int) -> int
    decreases bytes.len() - from,
{
    if from >= bytes.len() {
        bytes.len() as int
    } else if bytes[from] == byte {
        from
    } else {
        find_byte(bytes, byte, from + 1)
    }
}

/// Where a byte string first holds a byte, or its length.
pub fn position(bytes: &[u8], byte: u8) -> (at: usize)
    ensures
        at == find_byte(bytes@, byte, 0),
        at <= bytes@.len(),
{
    let mut i: usize = 0;
    while i < bytes.len() && bytes[i] != byte
        invariant
            i <= bytes@.len(),
            find_byte(bytes@, byte, 0) == find_byte(bytes@, byte, i as int),
        decreases bytes.len() - i,
    {
        i = i + 1;
    }
    i
}

/// The value of decimal digits, if there is nothing else.
pub open spec fn decimal_value(bytes: Seq<u8>) -> Option<nat>
    decreases bytes.len(),
{
    if bytes.len() == 0 {
        Some(0)
    } else {
        match decimal_value(bytes.drop_last()) {
            Some(n) => if 48 <= bytes.last() <= 57 {
                Some((n * 10 + (bytes.last() - 48)) as nat)
            } else {
                None
            },
            None => None,
        }
    }
}

/// Decimal digits read back as the number they are made of.
pub proof fn law_decimals_read_back(n: nat)
    ensures
        decimal(n).len() > 0,
        decimal_value(decimal(n)) == Some(n),
        forall|i: int| 0 <= i < decimal(n).len() ==> 48 <= #[trigger] decimal(n)[i] <= 57,
    decreases n,
{
    let text = decimal(n);
    if n >= 10 {
        law_decimals_read_back(n / 10);
        assert(text.drop_last() =~= decimal(n / 10));
        assert forall|i: int| 0 <= i < text.len() implies 48 <= #[trigger] text[i] <= 57 by {
            if i < text.len() - 1 {
                assert(text[i] == decimal(n / 10)[i]);
            }
        }
    } else {
        assert(text.drop_last() =~= Seq::<u8>::empty());
        assert(decimal_value(text.drop_last()) == Some(0nat));
    }
}

} // verus!
