//! Lines of code ready to render.
use vstd::prelude::*;

use std::ops::Range;

use crate::syntax::{Span, Style};
use crate::text::{chars_of, copy_text, from_utf8, to_str_lossy};
use crate::utf8;
use crate::utf8::char_bytes;

verus! {

/// Tab stop width used when rendering code.
pub const TAB_WIDTH: usize = 4;

/// That many spaces.
pub open spec fn spaces(count: nat) -> Seq<char> {
    Seq::new(count, |i: int| ' ')
}

/// A line with each tab filled up with spaces to the next tab stop.
pub open spec fn expanded(text: Seq<char>) -> Seq<char>
    decreases text.len(),
{
    if text.len() == 0 {
        Seq::empty()
    } else {
        let before = expanded(text.drop_last());
        if text.last() == '\t' {
            before + spaces((TAB_WIDTH - before.len() % TAB_WIDTH as nat) as nat)
        } else {
            before.push(text.last())
        }
    }
}

/// How many characters from `k` on start before a byte offset, and those before `k`.
pub open spec fn starts_before(text: Seq<char>, offset: int, k: int) -> int
    decreases text.len() - k,
{
    if k < text.len() && utf8::byte_of(text, k) < offset {
        starts_before(text, offset, k + 1)
    } else {
        k
    }
}

/// Where a byte offset of a line stands in the expanded line: behind the characters that
/// start before it.
pub open spec fn display_offset(text: Seq<char>, offset: int) -> int {
    vstd::utf8::encode_utf8(expanded(text.take(starts_before(text, offset, 0)))).len() as int
}

/// A text with every tab replaced by one tab width of spaces.
pub open spec fn tabs_replaced(text: Seq<char>) -> Seq<char>
    decreases text.len(),
{
    if text.len() == 0 {
        Seq::empty()
    } else if text.last() == '\t' {
        tabs_replaced(text.drop_last()) + spaces(TAB_WIDTH as nat)
    } else {
        tabs_replaced(text.drop_last()).push(text.last())
    }
}

/// What a line is shown as.
pub open spec fn display_text(bytes: Seq<u8>) -> Seq<char> {
    if vstd::utf8::valid_utf8(bytes) {
        expanded(vstd::utf8::decode_utf8(bytes))
    } else {
        tabs_replaced(crate::text::str_lossy(bytes))
    }
}

/// Where the spans of a line stand in what is shown.
pub open spec fn display_spans(bytes: Seq<u8>, spans: Seq<Span>) -> Seq<(Range<usize>, Style)> {
    if !vstd::utf8::valid_utf8(bytes) {
        Seq::empty()
    } else {
        let text = vstd::utf8::decode_utf8(bytes);
        if !text.contains('\t') {
            Seq::new(spans.len(), |i: int| (spans[i].range, spans[i].style))
        } else {
            Seq::new(
                spans.len(),
                |i: int|
                    (
                        Range {
                            start: display_offset(text, spans[i].range.start as int) as usize,
                            end: display_offset(text, spans[i].range.end as int) as usize,
                        },
                        spans[i].style,
                    ),
            )
        }
    }
}

fn push_spaces(out: &mut String, count: usize)
    ensures
        final(out)@ == old(out)@ + spaces(count as nat),
{
    let mut i: usize = 0;
    assert(out@ + spaces(0) =~= out@);
    while i < count
        invariant
            i <= count,
            out@ == old(out)@ + spaces(i as nat),
        decreases count - i,
    {
        out.push(' ');
        i = i + 1;
        assert(out@ =~= old(out)@ + spaces(i as nat));
    }
}

fn replace_tabs(text: &str) -> (out: String)
    ensures
        out@ == tabs_replaced(text@),
{
    let mut out = String::new();
    assert(text@.take(0) =~= Seq::<char>::empty());
    for c in iter: text.chars()
        invariant
            iter.seq() == text@,
            out@ == tabs_replaced(text@.take(iter.index() as int)),
    {
        proof {
            let next = text@.take(iter.index() + 1);
            assert(next.drop_last() =~= text@.take(iter.index() as int));
            assert(next.last() == c);
        }
        if c == '\t' {
            push_spaces(&mut out, TAB_WIDTH);
        } else {
            out.push(c);
        }
    }
    assert(text@.take(text@.len() as int) =~= text@);
    out
}

/// The characters that start before an offset end where the next one starts at or after it.
proof fn lemma_starts_before(text: Seq<char>, offset: int, k: int, from: int)
    requires
        0 <= from <= k <= text.len(),
        k > 0 ==> utf8::byte_of(text, k - 1) < offset,
        k < text.len() ==> offset <= utf8::byte_of(text, k),
    ensures
        starts_before(text, offset, from) == k,
    decreases k - from,
{
    if from < k {
        if from < k - 1 {
            utf8::lemma_byte_of_less(text, from, k - 1);
        }
        lemma_starts_before(text, offset, k, from + 1);
    }
}

/// A line without tabs is shown as it is.
pub proof fn law_a_line_without_tabs_is_shown_as_it_is(text: Seq<char>)
    requires
        !text.contains('\t'),
    ensures
        expanded(text) == text,
    decreases text.len(),
{
    if text.len() > 0 {
        assert(text[text.len() - 1] == text.last());
        assert(!text.drop_last().contains('\t')) by {
            if text.drop_last().contains('\t') {
                let k = text.drop_last().index_of('\t');
                assert(text[k] == '\t');
            }
        }
        law_a_line_without_tabs_is_shown_as_it_is(text.drop_last());
        assert(expanded(text) =~= text);
    }
}

/// What is shown holds no tab.
pub proof fn law_expanded_lines_hold_no_tab(text: Seq<char>)
    ensures
        !expanded(text).contains('\t'),
    decreases text.len(),
{
    if text.len() > 0 {
        law_expanded_lines_hold_no_tab(text.drop_last());
        let before = expanded(text.drop_last());
        if expanded(text).contains('\t') {
            let k = expanded(text).index_of('\t');
            if k < before.len() {
                assert(before[k] == '\t');
            }
        }
    }
}

proof fn lemma_expanded_grows(text: Seq<char>, i: int, j: int)
    requires
        0 <= i <= j <= text.len(),
    ensures
        vstd::utf8::encode_utf8(expanded(text.take(i))).len() <= vstd::utf8::encode_utf8(
            expanded(text.take(j)),
        ).len(),
    decreases j - i,
{
    if i < j {
        lemma_expanded_grows(text, i, j - 1);
        assert(text.take(j).drop_last() =~= text.take(j - 1));
        let before = expanded(text.take(j - 1));
        let more = if text.take(j).last() == '\t' {
            spaces((TAB_WIDTH - before.len() % TAB_WIDTH as nat) as nat)
        } else {
            seq![text.take(j).last()]
        };
        assert(expanded(text.take(j)) =~= before + more);
        utf8::lemma_encode_concat(before, more);
    }
}

proof fn lemma_starts_before_grows(text: Seq<char>, a: int, b: int, k: int)
    requires
        a <= b,
        0 <= k <= text.len(),
    ensures
        k <= starts_before(text, a, k) <= starts_before(text, b, k) <= text.len(),
    decreases text.len() - k,
{
    if k < text.len() && utf8::byte_of(text, k) < b {
        lemma_starts_before_grows(text, a, b, k + 1);
    }
}

/// Later offsets of a line stand no earlier in what is shown, and all within it: spans that
/// are in order stay in order.
pub proof fn law_display_offsets_keep_their_order(text: Seq<char>, a: int, b: int)
    requires
        a <= b,
    ensures
        0 <= display_offset(text, a) <= display_offset(text, b) <= vstd::utf8::encode_utf8(
            expanded(text),
        ).len(),
{
    lemma_starts_before_grows(text, a, b, 0);
    lemma_expanded_grows(text, starts_before(text, a, 0), starts_before(text, b, 0));
    lemma_expanded_grows(text, starts_before(text, b, 0), text.len() as int);
    assert(text.take(text.len() as int) =~= text);
}

/// The whole of a line stands for the whole of what is shown.
pub proof fn law_display_offsets_cover_the_line(text: Seq<char>)
    ensures
        display_offset(text, 0) == 0,
        display_offset(text, vstd::utf8::encode_utf8(text).len() as int)
            == vstd::utf8::encode_utf8(expanded(text)).len(),
{
    let len = text.len() as int;
    assert(text.take(len) =~= text);
    assert(text.take(0) =~= Seq::<char>::empty());
    assert(vstd::utf8::encode_utf8(Seq::<char>::empty()).len() == 0);
    if len > 0 {
        utf8::lemma_byte_of_less(text, len - 1, len);
    }
    lemma_starts_before(text, vstd::utf8::encode_utf8(text).len() as int, len, 0);
    lemma_starts_before(text, 0, 0, 0);
}

/// Expands the tabs of a line, and maps each of its byte offsets to the display.
fn expand(text: &str) -> (result: (String, Vec<usize>))
    ensures
        result.0@ == expanded(text@),
        result.1@.len() == vstd::utf8::encode_utf8(text@).len() + 1,
        forall|b: int|
            0 <= b < result.1@.len() ==> #[trigger] result.1@[b] == display_offset(text@, b),
{
    let chars = chars_of(text);
    let total: usize = text.as_bytes().len();
    let mut out = String::new();
    let mut offsets: Vec<usize> = Vec::new();
    // How far the display is past a tab stop.
    let mut past: usize = 0;
    let mut ix: usize = 0;
    let mut k: usize = 0;
    proof {
        assert(text@.take(0) =~= Seq::<char>::empty());
        assert(text@.take(text@.len() as int) =~= text@);
        assert(vstd::utf8::encode_utf8(Seq::<char>::empty()).len() == 0);
    }
    while k < chars.len()
        invariant
            chars@ == text@,
            k <= chars@.len(),
            total == vstd::utf8::encode_utf8(text@).len(),
            text@.take(text@.len() as int) == text@,
            ix == utf8::byte_of(text@, k as int) <= total,
            out@ == expanded(text@.take(k as int)),
            past == out@.len() % TAB_WIDTH as nat,
            offsets@.len() <= ix,
            k > 0 ==> offsets@.len() == utf8::byte_of(text@, k - 1) + 1,
            k == 0 ==> offsets@.len() == 0,
            forall|b: int|
                0 <= b < offsets@.len() ==> #[trigger] offsets@[b] == display_offset(text@, b),
        decreases chars.len() - k,
    {
        let c = chars[k];
        proof {
            utf8::lemma_byte_of_step(text@, k as int);
            if k + 1 < text@.len() {
                utf8::lemma_byte_of_less(text@, k + 1, text@.len() as int);
            }
        }
        while offsets.len() <= ix
            invariant
                0 <= k < text@.len(),
                ix == utf8::byte_of(text@, k as int),
                ix < total,
                out@ == expanded(text@.take(k as int)),
                offsets@.len() <= ix + 1,
                k > 0 ==> offsets@.len() >= utf8::byte_of(text@, k - 1) + 1,
                forall|b: int|
                    0 <= b < offsets@.len() ==> #[trigger] offsets@[b] == display_offset(text@, b),
            decreases ix + 1 - offsets.len(),
        {
            proof {
                lemma_starts_before(text@, offsets@.len() as int, k as int, 0);
            }
            offsets.push(out.as_str().as_bytes().len());
        }
        proof {
            let next = text@.take(k + 1);
            assert(next.drop_last() =~= text@.take(k as int));
            assert(next.last() == c);
        }
        if c == '\t' {
            let ghost before = out@.len() as int;
            push_spaces(&mut out, TAB_WIDTH - past);
            assert((before + (4 - before % 4)) % 4 == 0);
            past = 0;
        } else {
            let ghost before = out@.len() as int;
            out.push(c);
            assert((before + 1) % 4 == (before % 4 + 1) % 4);
            past = (past + 1) % TAB_WIDTH;
        }
        ix = ix + char_bytes(c);
        k = k + 1;
    }
    while offsets.len() <= total
        invariant
            k == text@.len(),
            total == vstd::utf8::encode_utf8(text@).len(),
            text@.take(text@.len() as int) == text@,
            out@ == expanded(text@),
            offsets@.len() <= total + 1,
            k > 0 ==> offsets@.len() >= utf8::byte_of(text@, k - 1) + 1,
            forall|b: int|
                0 <= b < offsets@.len() ==> #[trigger] offsets@[b] == display_offset(text@, b),
        decreases total + 1 - offsets.len(),
    {
        proof {
            lemma_starts_before(text@, offsets@.len() as int, k as int, 0);
        }
        offsets.push(out.as_str().as_bytes().len());
    }
    (out, offsets)
}

/// A line of code ready to render: tabs expanded, invalid UTF-8 replaced, and syntax
/// spans remapped onto the display text. Spans are dropped if the line isn't valid UTF-8.
pub fn display_line(bytes: &[u8], spans: Vec<Span>) -> (result: (
    String,
    Vec<(Range<usize>, Style)>,
))
    requires
        vstd::utf8::valid_utf8(bytes@) && vstd::utf8::decode_utf8(bytes@).contains('\t')
            ==> forall|i: int|
            0 <= i < spans@.len() ==> (#[trigger] spans@[i]).range.start <= bytes@.len()
                && spans@[i].range.end <= bytes@.len(),
    ensures
        result.0@ == display_text(bytes@),
        result.1@ == display_spans(bytes@, spans@),
{
    let text = match from_utf8(bytes) {
        Some(text) => text,
        None => {
            return (replace_tabs(to_str_lossy(bytes).as_str()), Vec::new());
        },
    };
    let mut tabs = false;
    for c in iter: text.chars()
        invariant
            iter.seq() == text@,
            tabs <==> text@.take(iter.index() as int).contains('\t'),
    {
        proof {
            let before = text@.take(iter.index() as int);
            let after = text@.take(iter.index() + 1);
            assert(after =~= before.push(c));
            if before.contains('\t') {
                let k = before.index_of('\t');
                assert(after[k] == '\t');
            }
            if c == '\t' {
                assert(after[iter.index() as int] == '\t');
            } else if after.contains('\t') {
                let k = after.index_of('\t');
                assert(before[k] == '\t');
            }
        }
        if c == '\t' {
            tabs = true;
        }
    }
    assert(text@.take(text@.len() as int) =~= text@);
    let ghost all = spans@;
    let mut mapped: Vec<(Range<usize>, Style)> = Vec::new();
    if !tabs {
        for span in iter: spans
            invariant
                iter.seq() == all,
                mapped@ == Seq::new(
                    iter.index() as nat,
                    |i: int| (all[i].range, all[i].style),
                ),
        {
            mapped.push((span.range, span.style));
            assert(mapped@ =~= Seq::new(
                (iter.index() + 1) as nat,
                |i: int| (all[i].range, all[i].style),
            ));
        }
        proof {
            law_a_line_without_tabs_is_shown_as_it_is(text@);
        }
        return (copy_text(text), mapped);
    }
    let (out, offsets) = expand(text);
    proof {
        vstd::utf8::decode_utf8_encode_utf8(bytes@);
    }
    for span in iter: spans
        invariant
            iter.seq() == all,
            offsets@.len() == bytes@.len() + 1,
            forall|i: int|
                0 <= i < all.len() ==> (#[trigger] all[i]).range.start <= bytes@.len()
                    && all[i].range.end <= bytes@.len(),
            forall|b: int|
                0 <= b < offsets@.len() ==> #[trigger] offsets@[b] == display_offset(text@, b),
            mapped@ == Seq::new(
                iter.index() as nat,
                |i: int|
                    (
                        Range {
                            start: display_offset(text@, all[i].range.start as int) as usize,
                            end: display_offset(text@, all[i].range.end as int) as usize,
                        },
                        all[i].style,
                    ),
            ),
    {
        let range = Range { start: offsets[span.range.start], end: offsets[span.range.end] };
        mapped.push((range, span.style));
        assert(mapped@ =~= Seq::new(
            (iter.index() + 1) as nat,
            |i: int|
                (
                    Range {
                        start: display_offset(text@, all[i].range.start as int) as usize,
                        end: display_offset(text@, all[i].range.end as int) as usize,
                    },
                    all[i].style,
                ),
        ));
    }
    (out, mapped)
}

} // verus!
