//! Strings as sequences of characters.
use vstd::prelude::*;

verus! {

/// `String::push` appends one character, as std documents.
pub assume_specification[ std::string::String::push ](s: &mut std::string::String, c: char)
    ensures
        final(s)@ == old(s)@.push(c),
;

/// The text that `String::from_utf8_lossy` makes of bytes that need not be UTF-8.
pub uninterp spec fn lossy(bytes: Seq<u8>) -> Seq<char>;

/// Calls `String::from_utf8_lossy`, which std documents to replace invalid sequences, and
/// to give valid UTF-8 back as it is. The result depends on the bytes alone.
#[verifier::external_body]
pub(crate) fn from_utf8_lossy(bytes: &[u8]) -> (text: String)
    ensures
        text@ == lossy(bytes@),
        vstd::utf8::valid_utf8(bytes@) ==> text@ == vstd::utf8::decode_utf8(bytes@),
{
    String::from_utf8_lossy(bytes).into_owned()
}

/// The text that `gix::bstr::ByteSlice::to_str_lossy` makes of bytes that need not be UTF-8.
pub uninterp spec fn str_lossy(bytes: Seq<u8>) -> Seq<char>;

/// Calls `gix::bstr::ByteSlice::to_str_lossy`, which replaces invalid sequences, and gives
/// valid UTF-8 back as it is. The result depends on the bytes alone.
#[verifier::external_body]
pub(crate) fn to_str_lossy(bytes: &[u8]) -> (text: String)
    ensures
        text@ == str_lossy(bytes@),
        vstd::utf8::valid_utf8(bytes@) ==> text@ == vstd::utf8::decode_utf8(bytes@),
{
    gix::bstr::ByteSlice::to_str_lossy(bytes).into_owned()
}

/// Calls `std::str::from_utf8`, which gives the string that the bytes encode, if they are
/// valid UTF-8.
#[verifier::external_body]
pub(crate) fn from_utf8(bytes: &[u8]) -> (text: Option<&str>)
    ensures
        match text {
            Some(t) => vstd::utf8::valid_utf8(bytes@) && t@ == vstd::utf8::decode_utf8(bytes@),
            None => !vstd::utf8::valid_utf8(bytes@),
        },
{
    std::str::from_utf8(bytes).ok()
}

/// The text that `str::to_lowercase` makes of a text.
pub uninterp spec fn lowercase(text: Seq<char>) -> Seq<char>;

/// Calls `str::to_lowercase`, which maps a text by Unicode's lower case. The result depends on
/// the text alone.
#[verifier::external_body]
pub(crate) fn to_lowercase(text: &str) -> (lower: String)
    ensures
        lower@ == lowercase(text@),
{
    text.to_lowercase()
}

/// The characters of a string.
pub fn chars_of(s: &str) -> (chars: Vec<char>)
    ensures
        chars@ == s@,
{
    let mut chars: Vec<char> = Vec::new();
    for c in iter: s.chars()
        invariant
            chars@ == s@.take(iter.index() as int),
            iter.seq() == s@,
    {
        chars.push(c);
        assert(chars@ =~= s@.take(iter.index() + 1));
    }
    assert(s@.take(s@.len() as int) =~= s@);
    chars
}

/// The string of some characters.
pub fn string_of(chars: &[char]) -> (s: String)
    ensures
        s@ == chars@,
{
    let mut s = String::new();
    let mut i: usize = 0;
    while i < chars.len()
        invariant
            i <= chars@.len(),
            s@ == chars@.take(i as int),
        decreases chars.len() - i,
    {
        s.push(chars[i]);
        i = i + 1;
        assert(s@ =~= chars@.take(i as int));
    }
    assert(chars@.take(i as int) =~= chars@);
    s
}

/// Whether two strings hold the same characters.
pub fn same_text(a: &str, b: &str) -> (result: bool)
    ensures
        result == (a@ == b@),
{
    let result = crate::bytes::same(a.as_bytes(), b.as_bytes());
    proof {
        vstd::utf8::encode_utf8_decode_utf8(a@);
        vstd::utf8::encode_utf8_decode_utf8(b@);
    }
    result
}

/// Unicode's `White_Space` property.
pub open spec fn white_space(c: char) -> bool {
    let n = c as u32;
    9 <= n <= 13 || n == 0x20 || n == 0x85 || n == 0xa0 || n == 0x1680 || 0x2000 <= n <= 0x200a
        || n == 0x2028 || n == 0x2029 || n == 0x202f || n == 0x205f || n == 0x3000
}

/// Whether a character is white space.
pub fn is_white_space(c: char) -> (result: bool)
    ensures
        result == white_space(c),
{
    let n: u32 = c as u32;
    (9 <= n && n <= 13) || n == 0x20 || n == 0x85 || n == 0xa0 || n == 0x1680 || (0x2000 <= n && n
        <= 0x200a) || n == 0x2028 || n == 0x2029 || n == 0x202f || n == 0x205f || n == 0x3000
}

/// A text without white space at its end.
pub open spec fn trim_end(text: Seq<char>) -> Seq<char>
    decreases text.len(),
{
    if text.len() > 0 && white_space(text.last()) {
        trim_end(text.drop_last())
    } else {
        text
    }
}

/// A text without white space at its start.
pub open spec fn trim_start(text: Seq<char>) -> Seq<char>
    decreases text.len(),
{
    if text.len() > 0 && white_space(text[0]) {
        trim_start(text.drop_first())
    } else {
        text
    }
}

/// A text without white space at its start and end.
pub open spec fn trimmed(text: Seq<char>) -> Seq<char> {
    trim_end(trim_start(text))
}

proof fn lemma_trim_end_keeps(text: Seq<char>)
    requires
        text.len() > 0,
        !white_space(text[0]),
    ensures
        trim_end(text).len() > 0,
    decreases text.len(),
{
    if white_space(text.last()) {
        assert(text.len() > 1);
        lemma_trim_end_keeps(text.drop_last());
    }
}

/// Whether a text holds nothing but white space.
pub open spec fn is_blank(text: Seq<char>) -> bool {
    forall|i: int| 0 <= i < text.len() ==> white_space(#[trigger] text[i])
}

/// Where a text without white space at its end ends.
pub proof fn lemma_trim_end_part(text: Seq<char>) -> (end: int)
    ensures
        0 <= end <= text.len(),
        trim_end(text) == text.take(end),
        forall|i: int| end <= i < text.len() ==> white_space(#[trigger] text[i]),
        end > 0 ==> !white_space(text[end - 1]),
    decreases text.len(),
{
    if text.len() > 0 && white_space(text.last()) {
        let end = lemma_trim_end_part(text.drop_last());
        assert(text.drop_last().take(end) =~= text.take(end));
        assert forall|i: int| end <= i < text.len() implies white_space(#[trigger] text[i]) by {
            if i < text.len() - 1 {
                assert(text.drop_last()[i] == text[i]);
            }
        }
        if end > 0 {
            assert(text.drop_last()[end - 1] == text[end - 1]);
        }
        end
    } else {
        assert(text.take(text.len() as int) =~= text);
        text.len() as int
    }
}

proof fn lemma_trim_start_part(text: Seq<char>) -> (start: int)
    ensures
        0 <= start <= text.len(),
        trim_start(text) == text.skip(start),
        forall|i: int| 0 <= i < start ==> white_space(#[trigger] text[i]),
        start < text.len() ==> !white_space(text[start]),
    decreases text.len(),
{
    if text.len() > 0 && white_space(text[0]) {
        let rest = text.drop_first();
        let start = lemma_trim_start_part(rest);
        assert(rest.skip(start) =~= text.skip(start + 1));
        assert forall|i: int| 0 <= i < start + 1 implies white_space(#[trigger] text[i]) by {
            if i > 0 {
                assert(rest[i - 1] == text[i]);
            }
        }
        if start < rest.len() {
            assert(rest[start] == text[start + 1]);
        }
        start + 1
    } else {
        assert(text.skip(0) =~= text);
        0
    }
}

/// Trimming a text leaves the part of it from the first visible character to the last.
pub proof fn law_trimming_takes_white_space_alone(text: Seq<char>) -> (part: (int, int))
    ensures
        ({
            let (start, end) = part;
            &&& 0 <= start <= end <= text.len()
            &&& trimmed(text) == text.subrange(start, end)
            &&& is_blank(text.take(start))
            &&& is_blank(text.skip(end))
            &&& start < end ==> !white_space(text[start]) && !white_space(text[end - 1])
            &&& start == end <==> is_blank(text)
        }),
{
    let start = lemma_trim_start_part(text);
    let rest = text.skip(start);
    let len = lemma_trim_end_part(rest);
    let end = start + len;
    assert(rest.take(len) =~= text.subrange(start, end));
    assert(is_blank(text.take(start)));
    assert forall|i: int| 0 <= i < text.skip(end).len() implies white_space(
        #[trigger] text.skip(end)[i],
    ) by {
        assert(rest[len + i] == text.skip(end)[i]);
    }
    if start < end {
        assert(rest[len - 1] == text[end - 1]);
        if len == 0 {
        } else if white_space(text[start]) {
            assert(false);
        }
    } else {
        assert forall|i: int| 0 <= i < text.len() implies white_space(#[trigger] text[i]) by {
            if i >= start {
                assert(rest[i - start] == text[i]);
            }
        }
    }
    (start, end)
}

/// A text that begins with a visible character is not blank.
pub proof fn lemma_starts_visibly(text: Seq<char>)
    requires
        text.len() > 0,
        !white_space(text[0]),
    ensures
        trimmed(text).len() > 0,
{
    lemma_trim_end_keeps(text);
}

/// A text without white space at its start and end.
pub fn trim(text: &str) -> (result: String)
    ensures
        result@ == trimmed(text@),
{
    let chars = chars_of(text);
    let mut start: usize = 0;
    assert(chars@.subrange(0, chars@.len() as int) =~= chars@);
    while start < chars.len() && is_white_space(chars[start])
        invariant
            start <= chars@.len(),
            trim_start(chars@) == trim_start(chars@.subrange(start as int, chars@.len() as int)),
        decreases chars.len() - start,
    {
        assert(chars@.subrange(start as int, chars@.len() as int).drop_first() =~= chars@.subrange(
            start + 1,
            chars@.len() as int,
        ));
        start = start + 1;
    }
    let ghost rest = chars@.subrange(start as int, chars@.len() as int);
    let mut end: usize = chars.len();
    while end > start && is_white_space(chars[end - 1])
        invariant
            start <= end <= chars@.len(),
            rest == chars@.subrange(start as int, chars@.len() as int),
            trim_end(rest) == trim_end(chars@.subrange(start as int, end as int)),
        decreases end,
    {
        assert(chars@.subrange(start as int, end as int).drop_last() =~= chars@.subrange(
            start as int,
            end - 1,
        ));
        end = end - 1;
    }
    string_of(vstd::slice::slice_subrange(chars.as_slice(), start, end))
}

/// How many line feeds a text holds.
pub open spec fn newlines(text: Seq<char>) -> nat
    decreases text.len(),
{
    if text.len() == 0 {
        0
    } else {
        newlines(text.drop_last()) + if text.last() == '\n' {
            1nat
        } else {
            0
        }
    }
}

/// How many lines a text has: those that end in a line feed, and a last one without.
pub open spec fn line_total(text: Seq<char>) -> nat {
    newlines(text) + if text.len() > 0 && text.last() != '\n' {
        1nat
    } else {
        0
    }
}

/// How many lines a text has.
pub fn count_lines(text: &str) -> (count: usize)
    ensures
        count == line_total(text@),
{
    let chars = chars_of(text);
    let mut count: usize = 0;
    let mut i: usize = 0;
    while i < chars.len()
        invariant
            chars@ == text@,
            i <= chars@.len(),
            count <= i,
            count == newlines(text@.take(i as int)),
        decreases chars.len() - i,
    {
        assert(text@.take(i + 1).drop_last() =~= text@.take(i as int));
        if chars[i] == '\n' {
            count = count + 1;
        }
        i = i + 1;
    }
    assert(text@.take(i as int) =~= text@);
    if chars.len() > 0 && chars[chars.len() - 1] != '\n' {
        proof {
            lemma_newlines(text@);
        }
        count = count + 1;
    }
    count
}

/// A text that does not end in a line feed has a character that is none.
proof fn lemma_newlines(text: Seq<char>)
    ensures
        newlines(text) <= text.len(),
        text.len() > 0 && text.last() != '\n' ==> newlines(text) < text.len(),
    decreases text.len(),
{
    if text.len() > 0 {
        lemma_newlines(text.drop_last());
    }
}

/// Appends a number in decimal digits.
pub fn push_number(s: &mut String, n: u64)
    ensures
        final(s)@ == old(s)@ + digits(n as nat),
    decreases n,
{
    let ghost before = s@;
    if n >= 10 {
        push_number(s, n / 10);
    }
    let digit: u8 = (n % 10) as u8;
    s.push((48 + digit) as char);
    assert(s@ =~= before + digits(n as nat));
}

/// The decimal digits of a number, without leading zeros.
pub open spec fn digits(n: nat) -> Seq<char>
    decreases n,
{
    if n < 10 {
        seq![(48 + n) as char]
    } else {
        digits(n / 10).push((48 + n % 10) as char)
    }
}

/// A number in decimal digits.
pub fn number_text(n: u64) -> (text: String)
    ensures
        text@ == digits(n as nat),
{
    proof {
        reveal_strlit("");
    }
    let mut text = copy_text("");
    push_number(&mut text, n);
    assert(text@ =~= digits(n as nat));
    text
}

/// Appends a text.
pub fn push_text(s: &mut String, more: &str)
    ensures
        final(s)@ == old(s)@ + more@,
{
    s.append(more);
}

/// A copy of a text.
pub fn copy_text(s: &str) -> (copy: String)
    ensures
        copy@ == s@,
{
    s.to_owned()
}

/// A text without white space at its end.
pub fn without_end_space(text: &str) -> (result: String)
    ensures
        result@ == trim_end(text@),
{
    let chars = chars_of(text);
    let mut end: usize = chars.len();
    assert(chars@.take(end as int) =~= chars@);
    while end > 0 && is_white_space(chars[end - 1])
        invariant
            end <= chars@.len(),
            trim_end(chars@) == trim_end(chars@.take(end as int)),
        decreases end,
    {
        assert(chars@.take(end as int).drop_last() =~= chars@.take(end - 1));
        end = end - 1;
    }
    string_of(vstd::slice::slice_subrange(chars.as_slice(), 0, end))
}

/// Where a text first holds a character from `from` on, or its length.
pub open spec fn find_char(text: Seq<char>, c: char, from: int) -> int
    decreases text.len() - from,
{
    if from >= text.len() {
        text.len() as int
    } else if text[from] == c {
        from
    } else {
        find_char(text, c, from + 1)
    }
}

/// The first line of a text, without its line end.
pub open spec fn first_line_of(text: Seq<char>) -> Seq<char> {
    let end = find_char(text, '\n', 0);
    if end < text.len() && end > 0 && text[end - 1] == '\r' {
        text.take(end - 1)
    } else {
        text.take(end)
    }
}

proof fn lemma_find_char(text: Seq<char>, c: char, from: int)
    requires
        0 <= from <= text.len(),
    ensures
        from <= find_char(text, c, from) <= text.len(),
        find_char(text, c, from) < text.len() ==> text[find_char(text, c, from)] == c,
        forall|i: int| from <= i < find_char(text, c, from) ==> #[trigger] text[i] != c,
    decreases text.len() - from,
{
    if from < text.len() && text[from] != c {
        lemma_find_char(text, c, from + 1);
    }
}

/// The first line is a text up to its first line end.
pub proof fn lemma_first_line(text: Seq<char>)
    ensures
        ({
            let line = first_line_of(text);
            &&& line.len() <= text.len() && line == text.take(line.len() as int)
            &&& !line.contains('\n')
            &&& line == text || (text[line.len() as int] == '\n' && (line.len() == 0 || line.last() != '\r')) || (text[line.len() as int] == '\r'
                && line.len() + 1 < text.len() && text[(line.len() + 1) as int] == '\n')
        }),
{
    lemma_find_char(text, '\n', 0);
    let end = find_char(text, '\n', 0);
    let line = first_line_of(text);
    if end == text.len() {
        assert(text.take(end) =~= text);
    }
    assert forall|i: int| 0 <= i < line.len() implies #[trigger] line[i] != '\n' by {
        assert(line[i] == text[i]);
    }
}

/// The first line of a text, without its line end.
pub fn first_line(text: &str) -> (line: String)
    ensures
        line@ == first_line_of(text@),
{
    let chars = chars_of(text);
    let mut end: usize = 0;
    while end < chars.len() && chars[end] != '\n'
        invariant
            end <= chars@.len(),
            find_char(chars@, '\n', 0) == find_char(chars@, '\n', end as int),
        decreases chars.len() - end,
    {
        end = end + 1;
    }
    assert(find_char(chars@, '\n', 0) == end);
    let to: usize = if end < chars.len() && end > 0 && chars[end - 1] == '\r' {
        end - 1
    } else {
        end
    };
    assert(chars@.subrange(0, to as int) =~= chars@.take(to as int));
    string_of(vstd::slice::slice_subrange(chars.as_slice(), 0, to))
}

/// The value of decimal digits, if there is nothing else.
pub open spec fn digits_value(text: Seq<char>) -> Option<nat>
    decreases text.len(),
{
    if text.len() == 0 {
        Some(0)
    } else {
        match digits_value(text.drop_last()) {
            Some(n) => if '0' <= text.last() && text.last() <= '9' {
                Some(n * 10 + (text.last() as nat - '0' as nat) as nat)
            } else {
                None
            },
            None => None,
        }
    }
}

/// Where the decimal digits end that a text has from a place on.
pub open spec fn digits_end(text: Seq<char>, from: int) -> int
    decreases text.len() - from,
{
    if 0 <= from < text.len() && '0' <= text[from] && text[from] <= '9' {
        digits_end(text, from + 1)
    } else {
        from
    }
}

/// Decimal digits read back as the number they are made of, and do not begin with a zero but
/// for zero itself.
pub proof fn law_digits_read_back(n: nat)
    ensures
        digits(n).len() > 0,
        digits_value(digits(n)) == Some(n),
        digits_end(digits(n), 0) == digits(n).len(),
        forall|i: int| 0 <= i < digits(n).len() ==> '0' <= #[trigger] digits(n)[i] <= '9',
        n > 0 ==> digits(n)[0] != '0',
    decreases n,
{
    let text = digits(n);
    if n >= 10 {
        law_digits_read_back(n / 10);
        assert(text.drop_last() =~= digits(n / 10));
        assert(text[0] == digits(n / 10)[0]);
        assert forall|i: int| 0 <= i < text.len() implies '0' <= #[trigger] text[i] <= '9' by {
            if i < text.len() - 1 {
                assert(text[i] == digits(n / 10)[i]);
            }
        }
    } else {
        assert(text.drop_last() =~= Seq::<char>::empty());
        assert(digits_value(text.drop_last()) == Some(0nat));
    }
    lemma_digits_end(text, 0, text.len() as int);
}

/// Digits end where something else follows.
pub proof fn lemma_digits_end(text: Seq<char>, from: int, end: int)
    requires
        0 <= from <= end <= text.len(),
        forall|i: int| from <= i < end ==> '0' <= #[trigger] text[i] <= '9',
        end < text.len() ==> !('0' <= text[end] <= '9'),
    ensures
        digits_end(text, from) == end,
    decreases end - from,
{
    if from < end {
        assert('0' <= text[from] <= '9');
        lemma_digits_end(text, from + 1, end);
    }
}

/// The number that a text spells: at least one digit, and at most a plus sign before them.
pub open spec fn number_value(text: Seq<char>) -> Option<nat> {
    let digits = if text.len() > 0 && text[0] == '+' {
        text.drop_first()
    } else {
        text
    };
    if digits.len() == 0 {
        None
    } else {
        digits_value(digits)
    }
}

proof fn lemma_digits_grow(text: Seq<char>, len: int, max: nat)
    requires
        0 <= len <= text.len(),
        match digits_value(text.take(len)) {
            Some(n) => n > max,
            None => true,
        },
    ensures
        match digits_value(text) {
            Some(n) => n > max,
            None => true,
        },
    decreases text.len(),
{
    if len < text.len() {
        assert(text.drop_last().take(len) =~= text.take(len));
        lemma_digits_grow(text.drop_last(), len, max);
    } else {
        assert(text.take(len) =~= text);
    }
}

/// The number that a text spells, if it is at most `max`.
pub fn parse_number(text: &str, max: u64) -> (number: Option<u64>)
    ensures
        match number {
            Some(n) => number_value(text@) == Some(n as nat) && n <= max,
            None => match number_value(text@) {
                Some(n) => n > max,
                None => true,
            },
        },
{
    let chars = chars_of(text);
    let start: usize = if chars.len() > 0 && chars[0] == '+' {
        1
    } else {
        0
    };
    let ghost all = chars@.skip(start as int);
    proof {
        if start == 1 {
            assert(all =~= text@.drop_first());
        } else {
            assert(all =~= text@);
        }
    }
    if start == chars.len() {
        return None;
    }
    let mut value: u64 = 0;
    let mut i: usize = start;
    assert(all.take(0) =~= Seq::<char>::empty());
    while i < chars.len()
        invariant
            start <= i <= chars@.len(),
            all == chars@.skip(start as int),
            digits_value(all.take(i - start)) == Some(value as nat),
            value <= max,
            all.len() > 0,
            number_value(text@) == digits_value(all),
        decreases chars.len() - i,
    {
        let c = chars[i];
        let ghost len = i + 1 - start;
        proof {
            assert(all.take(len).drop_last() =~= all.take(i - start));
            assert(all.take(len).last() == c);
        }
        if !('0' <= c && c <= '9') {
            proof {
                lemma_digits_grow(all, len, max as nat);
            }
            return None;
        }
        let digit: u64 = (c as u32 - 48) as u64;
        if value > (u64::MAX - digit) / 10 || value * 10 + digit > max {
            proof {
                assert(value * 10 + digit > max);
                lemma_digits_grow(all, len, max as nat);
            }
            return None;
        }
        value = value * 10 + digit;
        i = i + 1;
    }
    assert(all.take(i - start) =~= all);
    Some(value)
}

/// The parts of a text between separators: one more than there are separators.
pub open spec fn text_pieces(text: Seq<char>, sep: char) -> Seq<Seq<char>>
    decreases text.len(),
{
    if text.len() == 0 {
        seq![Seq::empty()]
    } else {
        let before = text_pieces(text.drop_last(), sep);
        if text.last() == sep {
            before.push(Seq::empty())
        } else {
            before.drop_last().push(before.last().push(text.last()))
        }
    }
}

/// The parts of a text between separators.
pub fn split_text(text: &str, sep: char) -> (parts: Vec<String>)
    ensures
        parts.deep_view() == text_pieces(text@, sep),
        parts@.len() > 0,
{
    let mut parts: Vec<String> = Vec::new();
    let mut part = String::new();
    proof {
        assert(text@.take(0) =~= Seq::<char>::empty());
        assert(part@ =~= Seq::<char>::empty());
        assert(parts.deep_view().push(part@) =~= seq![Seq::<char>::empty()]);
    }
    for c in iter: text.chars()
        invariant
            iter.seq() == text@,
            parts.deep_view().push(part@) == text_pieces(text@.take(iter.index() as int), sep),
    {
        let ghost before = parts.deep_view().push(part@);
        proof {
            assert(text@.take(iter.index() + 1).drop_last() =~= text@.take(iter.index() as int));
            assert(before.drop_last() =~= parts.deep_view());
        }
        if c == sep {
            let ghost last = part;
            parts.push(part);
            part = String::new();
            assert(last.deep_view() == last@);
            assert(parts.deep_view() =~= before);
            assert(part@ =~= Seq::<char>::empty());
        } else {
            part.push(c);
        }
        assert(parts.deep_view().push(part@) =~= text_pieces(
            text@.take(iter.index() + 1),
            sep,
        ));
    }
    assert(text@.take(text@.len() as int) =~= text@);
    let ghost all = parts.deep_view().push(part@);
    let ghost last = part;
    parts.push(part);
    assert(last.deep_view() == last@);
    assert(parts.deep_view() =~= all);
    parts
}

/// Whether a text begins with another.
pub open spec fn starts_with(text: Seq<char>, prefix: Seq<char>) -> bool {
    prefix.len() <= text.len() && text.take(prefix.len() as int) == prefix
}

/// The characters from one position to another, as a string.
pub fn part_of(chars: &[char], from: usize, to: usize) -> (part: String)
    requires
        from <= to <= chars@.len(),
    ensures
        part@ == chars@.subrange(from as int, to as int),
{
    string_of(vstd::slice::slice_subrange(chars, from, to))
}

/// A line without a carriage return at its end.
pub open spec fn without_return(line: Seq<char>) -> Seq<char> {
    if line.len() > 0 && line.last() == '\r' {
        line.drop_last()
    } else {
        line
    }
}

/// The lines of a text from a position on, without their line ends; a last line may have
/// none.
pub open spec fn lines_at(text: Seq<char>, from: int) -> Seq<Seq<char>>
    decreases text.len() - from,
{
    if from >= text.len() {
        seq![]
    } else {
        let end = find_char(text, '\n', from);
        if end < from {
            seq![]
        } else if end < text.len() {
            seq![without_return(text.subrange(from, end))] + lines_at(text, end + 1)
        } else {
            seq![text.subrange(from, end)]
        }
    }
}

/// The lines of a text, without their line ends.
pub open spec fn text_lines(text: Seq<char>) -> Seq<Seq<char>> {
    lines_at(text, 0)
}

/// The lines of a text, without their line ends.
pub fn split_lines(text: &str) -> (lines: Vec<String>)
    ensures
        lines.deep_view() == text_lines(text@),
{
    let chars = chars_of(text);
    let total: usize = chars.len();
    let mut lines: Vec<String> = Vec::new();
    let mut from: usize = 0;
    assert(lines.deep_view() + lines_at(chars@, 0) =~= lines_at(chars@, 0));
    while from < total
        invariant
            total == chars@.len(),
            from <= total,
            lines.deep_view() + lines_at(chars@, from as int) == lines_at(chars@, 0),
        decreases total - from,
    {
        let mut end: usize = from;
        while end < total && chars[end] != '\n'
            invariant
                total == chars@.len(),
                from <= end <= total,
                find_char(chars@, '\n', from as int) == find_char(chars@, '\n', end as int),
            decreases total - end,
        {
            end = end + 1;
        }
        let ghost before = lines.deep_view();
        if end < total {
            let to: usize = if end > from && chars[end - 1] == '\r' {
                end - 1
            } else {
                end
            };
            let line = part_of(chars.as_slice(), from, to);
            assert(line@ =~= without_return(chars@.subrange(from as int, end as int)));
            lines.push(line);
            assert(lines.deep_view() =~= before.push(
                without_return(chars@.subrange(from as int, end as int)),
            ));
            assert(lines.deep_view() + lines_at(chars@, end + 1) =~= before + lines_at(
                chars@,
                from as int,
            ));
            from = end + 1;
        } else {
            let line = part_of(chars.as_slice(), from, end);
            lines.push(line);
            assert(lines.deep_view() =~= before.push(chars@.subrange(from as int, end as int)));
            assert(lines.deep_view() + lines_at(chars@, end as int) =~= before + lines_at(
                chars@,
                from as int,
            ));
            from = end;
        }
    }
    assert(lines.deep_view() =~= lines.deep_view() + lines_at(chars@, from as int));
    lines
}

/// The first `count` characters of a text, or all of them.
pub open spec fn start_of(text: Seq<char>, count: int) -> Seq<char> {
    if text.len() <= count {
        text
    } else {
        text.take(count)
    }
}

/// The first `count` characters of a text, or all of them.
pub fn take_start(text: &str, count: usize) -> (start: String)
    ensures
        start@ == start_of(text@, count as int),
{
    let chars = chars_of(text);
    if chars.len() <= count {
        copy_text(text)
    } else {
        let start = part_of(chars.as_slice(), 0, count);
        assert(start@ =~= text@.take(count as int));
        start
    }
}

/// Whether the characters from a position on begin with a text.
pub fn begins(chars: &[char], from: usize, prefix: &str) -> (result: bool)
    requires
        from <= chars@.len(),
    ensures
        result == starts_with(chars@.skip(from as int), prefix@),
{
    let head = chars_of(prefix);
    let total: usize = chars.len();
    let ghost rest = chars@.skip(from as int);
    if head.len() > total - from {
        return false;
    }
    let mut i: usize = 0;
    while i < head.len()
        invariant
            from <= total == chars@.len(),
            head@ == prefix@,
            rest == chars@.skip(from as int),
            head@.len() <= total - from,
            i <= head@.len(),
            forall|k: int| 0 <= k < i ==> rest[k] == #[trigger] head@[k],
        decreases head.len() - i,
    {
        if chars[from + i] != head[i] {
            assert(rest.take(prefix@.len() as int)[i as int] != prefix@[i as int]);
            return false;
        }
        i = i + 1;
    }
    assert(rest.take(prefix@.len() as int) =~= prefix@);
    true
}

} // verus!
