//! Editable multi-line text with a selection: the model behind the commit message editor.
//! Offsets are UTF-8 byte offsets on grapheme boundaries.
use vstd::prelude::*;

use std::ops::Range;

use unicode_segmentation::UnicodeSegmentation;

use crate::bytes::LF;
use crate::text::chars_of;
use crate::utf8;
use crate::utf8::{char_bytes, slice_text};

verus! {

// ---------------------------------------------------------------------------
// Graphemes.

/// Where the extended grapheme clusters of a text start, as byte offsets.
pub uninterp spec fn grapheme_starts(text: Seq<char>) -> Seq<usize>;

/// Whether `starts` divides a text into parts: in order, none of them empty, the first at
/// the start, each where a character starts.
pub open spec fn divides(bytes: Seq<u8>, starts: Seq<usize>) -> bool {
    &&& starts.len() > 0 <==> bytes.len() > 0
    &&& starts.len() > 0 ==> starts[0] == 0
    &&& forall|i: int|
        0 <= i < starts.len() ==> #[trigger] starts[i] < bytes.len() && utf8::boundary(
            bytes,
            starts[i] as int,
        )
    &&& forall|i: int, j: int|
        #![trigger starts[i], starts[j]]
        0 <= i < j < starts.len() ==> starts[i] < starts[j]
}

/// Where the graphemes of a text given by its bytes start.
pub open spec fn starts_of(bytes: Seq<u8>) -> Seq<usize> {
    grapheme_starts(vstd::utf8::decode_utf8(bytes))
}

/// The starts that lie in `from..to`, counted from there.
pub open spec fn cut(starts: Seq<usize>, from: int, to: int) -> Seq<usize>
    decreases starts.len(),
{
    if starts.len() == 0 {
        Seq::empty()
    } else if from <= starts.last() < to {
        cut(starts.drop_last(), from, to).push((starts.last() - from) as usize)
    } else {
        cut(starts.drop_last(), from, to)
    }
}

/// Whether a part that begins with the text or behind a line feed, and ends anywhere between
/// characters, has its graphemes where the text has them: none goes on behind a line feed,
/// and what comes later changes none.
pub open spec fn keeps_lines(bytes: Seq<u8>, starts: Seq<usize>) -> bool {
    forall|from: int, to: int|
        0 <= from <= to <= bytes.len() && utf8::boundary(bytes, from) && utf8::boundary(bytes, to)
            && (from == 0 || bytes[from - 1] == LF) ==> #[trigger] starts_of(
            bytes.subrange(from, to),
        ) == cut(starts, from, to)
}

/// Calls `UnicodeSegmentation::grapheme_indices` for extended grapheme clusters and keeps
/// their byte offsets. The result depends on the text alone. The clusters are claimed to be
/// the text in order, divided into parts that are not empty; and to be decided by what stands
/// before them, back to a line feed at most, and the character that they start with.
#[verifier::external_body]
fn graphemes(text: &str) -> (starts: Vec<usize>)
    ensures
        starts@ == grapheme_starts(text@),
        divides(vstd::utf8::encode_utf8(text@), starts@),
        keeps_lines(vstd::utf8::encode_utf8(text@), starts@),
{
    text.grapheme_indices(true).map(|(ix, _)| ix).collect()
}

/// Whether the graphemes of a text divide it, and its lines have theirs where it has them.
pub open spec fn segmented(bytes: Seq<u8>) -> bool {
    divides(bytes, starts_of(bytes)) && keeps_lines(bytes, starts_of(bytes))
}

/// The last start before `offset`, or the start of the text.
pub open spec fn start_before(starts: Seq<usize>, offset: int) -> int
    decreases starts.len(),
{
    if starts.len() == 0 {
        0
    } else if starts.last() < offset {
        starts.last() as int
    } else {
        start_before(starts.drop_last(), offset)
    }
}

/// The first start after `offset`, or the end of the text.
pub open spec fn start_after(starts: Seq<usize>, offset: int, end: int) -> int
    decreases starts.len(),
{
    if starts.len() == 0 {
        end
    } else if starts[0] > offset {
        starts[0] as int
    } else {
        start_after(starts.drop_first(), offset, end)
    }
}

// ---------------------------------------------------------------------------
// Lines.

/// How many line feeds stand in `bytes[from..to]`. A line feed is one byte, and part of no
/// other character.
pub open spec fn newlines_between(bytes: Seq<u8>, from: int, to: int) -> int
    decreases to - from,
{
    if from >= to {
        0
    } else {
        (if bytes[from] == LF {
            1int
        } else {
            0
        }) + newlines_between(bytes, from + 1, to)
    }
}

/// The byte ranges of the lines, without the newline, from a line that starts at `start`
/// and goes on at `at`.
pub open spec fn line_ranges(bytes: Seq<u8>, start: int, at: int) -> Seq<Range<usize>>
    decreases bytes.len() - at,
{
    if at >= bytes.len() {
        seq![Range { start: start as usize, end: bytes.len() as usize }]
    } else if bytes[at] == LF {
        seq![Range { start: start as usize, end: at as usize }] + line_ranges(
            bytes,
            at + 1,
            at + 1,
        )
    } else {
        line_ranges(bytes, start, at + 1)
    }
}

proof fn lemma_newlines_bound(bytes: Seq<u8>, from: int, to: int)
    ensures
        0 <= newlines_between(bytes, from, to),
        from <= to ==> newlines_between(bytes, from, to) <= to - from,
    decreases to - from,
{
    if from < to {
        lemma_newlines_bound(bytes, from + 1, to);
    }
}

/// The line that holds `offset` is found by counting line feeds before it.
pub proof fn lemma_line_holds(bytes: Seq<u8>, start: int, at: int, offset: int)
    requires
        bytes.len() <= usize::MAX,
        0 <= start <= at <= offset <= bytes.len(),
    ensures
        ({
            let n = newlines_between(bytes, at, offset);
            let lines = line_ranges(bytes, start, at);
            &&& 0 <= n < lines.len()
            &&& lines[n].start <= offset <= lines[n].end
        }),
    decreases bytes.len() - at,
{
    lemma_newlines_bound(bytes, at, offset);
    if at < bytes.len() {
        if bytes[at] == LF {
            if at < offset {
                lemma_line_holds(bytes, at + 1, at + 1, offset);
                let rest = line_ranges(bytes, at + 1, at + 1);
                let n = newlines_between(bytes, at, offset);
                assert(line_ranges(bytes, start, at)[n] == rest[n - 1]);
            }
        } else if at < offset {
            lemma_line_holds(bytes, start, at + 1, offset);
        } else {
            lemma_first_line(bytes, start, at + 1);
        }
    }
}

proof fn lemma_first_line(bytes: Seq<u8>, start: int, at: int)
    requires
        bytes.len() <= usize::MAX,
        0 <= start <= at <= bytes.len(),
    ensures
        line_ranges(bytes, start, at).len() > 0,
        line_ranges(bytes, start, at)[0].start == start,
        line_ranges(bytes, start, at)[0].end >= at,
    decreases bytes.len() - at,
{
    if at < bytes.len() && bytes[at] != LF {
        lemma_first_line(bytes, start, at + 1);
    }
}

/// Lines start and end where characters do.
pub proof fn lemma_line_boundaries(bytes: Seq<u8>, start: int, at: int, n: int)
    requires
        bytes.len() <= usize::MAX,
        0 <= start <= at <= bytes.len(),
        utf8::boundary(bytes, start),
        0 <= n < line_ranges(bytes, start, at).len(),
    ensures
        ({
            let line = line_ranges(bytes, start, at)[n];
            &&& line.start <= line.end
            &&& utf8::boundary(bytes, line.start as int)
            &&& utf8::boundary(bytes, line.end as int)
        }),
    decreases bytes.len() - at,
{
    utf8::lemma_ends(bytes);
    if at < bytes.len() {
        if bytes[at] == LF {
            utf8::lemma_ascii_boundaries(bytes, at);
            if n > 0 {
                lemma_line_boundaries(bytes, at + 1, at + 1, n - 1);
                assert(line_ranges(bytes, start, at)[n] == line_ranges(bytes, at + 1, at + 1)[n
                    - 1]);
            }
        } else {
            lemma_line_boundaries(bytes, start, at + 1, n);
        }
    }
}

// ---------------------------------------------------------------------------
// UTF-16.

/// How many UTF-16 units a character takes.
pub open spec fn utf16_units(c: char) -> nat {
    if (c as u32) < 0x10000 {
        1
    } else {
        2
    }
}

/// How many UTF-16 units a text takes.
pub open spec fn utf16_len(text: Seq<char>) -> nat
    decreases text.len(),
{
    if text.len() == 0 {
        0
    } else {
        utf16_len(text.drop_last()) + utf16_units(text.last())
    }
}

/// The byte offset of the first character, from character `k` on, before which at least
/// `units` UTF-16 units stand; or the end of the text.
pub open spec fn byte_at_utf16(text: Seq<char>, units: int, k: int) -> int
    decreases text.len() - k,
{
    if k >= text.len() {
        utf8::byte_of(text, text.len() as int)
    } else if utf16_len(text.take(k)) >= units {
        utf8::byte_of(text, k)
    } else {
        byte_at_utf16(text, units, k + 1)
    }
}

fn units_of(c: char) -> (units: usize)
    ensures
        units == utf16_units(c),
{
    if (c as u32) < 0x10000 {
        1
    } else {
        2
    }
}

proof fn lemma_utf16_less(text: Seq<char>, i: int, j: int)
    requires
        0 <= i < j <= text.len(),
    ensures
        utf16_len(text.take(i)) < utf16_len(text.take(j)),
    decreases j - i,
{
    assert(text.take(j).drop_last() =~= text.take(j - 1));
    if i < j - 1 {
        lemma_utf16_less(text, i, j - 1);
    }
}

proof fn lemma_utf16_bytes(text: Seq<char>)
    ensures
        utf16_len(text) <= vstd::utf8::encode_utf8(text).len(),
    decreases text.len(),
{
    if text.len() > 0 {
        lemma_utf16_bytes(text.drop_last());
        utf8::lemma_encode_push(text.drop_last(), text.last());
        assert(text.drop_last().push(text.last()) =~= text);
    }
}

/// Counting UTF-16 units up to a character, and then finding the character by that count,
/// leads back to it.
pub proof fn law_utf16_round_trip(text: Seq<char>, k: int)
    requires
        0 <= k <= text.len(),
    ensures
        byte_at_utf16(text, utf16_len(text.take(k)) as int, 0) == utf8::byte_of(text, k),
{
    lemma_utf16_round_trip(text, k, 0);
}

proof fn lemma_utf16_round_trip(text: Seq<char>, k: int, from: int)
    requires
        0 <= from <= k <= text.len(),
    ensures
        byte_at_utf16(text, utf16_len(text.take(k)) as int, from) == utf8::byte_of(text, k),
    decreases text.len() - from,
{
    if from < k {
        lemma_utf16_less(text, from, k);
        lemma_utf16_round_trip(text, k, from + 1);
    }
}

/// A later position in UTF-16 units is no earlier in bytes.
proof fn lemma_utf16_order(text: Seq<char>, first: int, second: int, k: int)
    requires
        first <= second,
        0 <= k <= text.len(),
    ensures
        utf8::byte_of(text, k) <= byte_at_utf16(text, second, k),
        byte_at_utf16(text, first, k) <= byte_at_utf16(text, second, k),
    decreases text.len() - k,
{
    if k < text.len() {
        utf8::lemma_byte_of_step(text, k);
        lemma_utf16_order(text, first, second, k + 1);
    }
}

// ---------------------------------------------------------------------------
// The buffer.

#[derive(Debug)]
pub struct TextBuffer {
    text: String,
    selection: Range<usize>,
    /// The cursor is at `selection.start` instead of `selection.end`.
    reversed: bool,
    /// IME composition in progress.
    pub marked: Option<Range<usize>>,
    /// Column (in graphemes) that vertical movement tries to keep.
    goal_column: Option<usize>,
}

/// What a buffer holds.
pub struct BufferView {
    /// The text in UTF-8.
    pub bytes: Seq<u8>,
    pub start: usize,
    pub end: usize,
    pub reversed: bool,
    pub marked: Option<Range<usize>>,
    pub goal: Option<usize>,
}

impl BufferView {
    /// The selection lies within the text, between characters.
    pub open spec fn wf(self) -> bool {
        &&& utf8::boundary(self.bytes, self.start as int)
        &&& utf8::boundary(self.bytes, self.end as int)
        &&& self.start <= self.end
    }

    /// Where the cursor is.
    pub open spec fn cursor(self) -> usize {
        if self.reversed {
            self.start
        } else {
            self.end
        }
    }

    /// The buffer with the cursor at `offset` and nothing selected.
    pub open spec fn moved(self, offset: usize) -> BufferView {
        BufferView { start: offset, end: offset, reversed: false, goal: None, ..self }
    }

    /// The buffer with the cursor end of the selection at `offset`. Where that crosses the
    /// other end, the two change roles.
    pub open spec fn selected_to(self, offset: usize) -> BufferView {
        let (start, end) = if self.reversed {
            (offset, self.end)
        } else {
            (self.start, offset)
        };
        if end < start {
            BufferView { start: end, end: start, reversed: !self.reversed, goal: None, ..self }
        } else {
            BufferView { start, end, goal: None, ..self }
        }
    }

    /// The cursor at `offset`, selecting or not.
    pub open spec fn gone(self, offset: usize, select: bool) -> BufferView {
        if select {
            self.selected_to(offset)
        } else {
            self.moved(offset)
        }
    }

    /// `new` in place of the bytes `from..to`, and the cursor behind it.
    pub open spec fn replaced(self, from: int, to: int, new: Seq<u8>) -> BufferView {
        let cursor = (from + new.len()) as usize;
        BufferView {
            bytes: self.bytes.subrange(0, from) + new + self.bytes.subrange(
                to,
                self.bytes.len() as int,
            ),
            start: cursor,
            end: cursor,
            reversed: false,
            marked: None,
            goal: None,
        }
    }

    /// The grapheme start before `offset`.
    pub open spec fn before(self, offset: usize) -> usize {
        start_before(starts_of(self.bytes), offset as int) as usize
    }

    /// The grapheme start after `offset`.
    pub open spec fn after(self, offset: usize) -> usize {
        start_after(starts_of(self.bytes), offset as int, self.bytes.len() as int) as usize
    }

    /// The lines of the text.
    pub open spec fn lines(self) -> Seq<Range<usize>> {
        line_ranges(self.bytes, 0, 0)
    }

    /// The line that `offset` is in.
    pub open spec fn line_of(self, offset: usize) -> int {
        newlines_between(self.bytes, 0, offset as int)
    }

    /// The column that vertical movement keeps: the goal, or else how many graphemes stand
    /// before the cursor in its line.
    pub open spec fn column(self) -> usize {
        match self.goal {
            Some(column) => column,
            None => starts_of(
                self.bytes.subrange(
                    self.lines()[self.line_of(self.cursor())].start as int,
                    self.cursor() as int,
                ),
            ).len() as usize,
        }
    }

    /// Where a column is in a line; the end of the line if it is shorter.
    pub open spec fn column_in(self, line: Range<usize>, column: usize) -> usize {
        let starts = starts_of(self.bytes.subrange(line.start as int, line.end as int));
        if column < starts.len() {
            (line.start + starts[column as int]) as usize
        } else {
            line.end
        }
    }

    /// Where vertical movement leads: the column in the line above or below, the start of
    /// the text above its first line, and the end below its last.
    pub open spec fn vertical_target(self, up: bool) -> usize {
        let line = self.line_of(self.cursor());
        if up && line == 0 {
            0
        } else if !up && line + 1 >= self.lines().len() {
            self.bytes.len() as usize
        } else {
            self.column_in(
                self.lines()[if up {
                    line - 1
                } else {
                    line + 1
                }],
                self.column(),
            )
        }
    }

    /// Vertical movement; the goal column stays.
    pub open spec fn vertical(self, up: bool, select: bool) -> BufferView {
        BufferView { goal: Some(self.column()), ..self.gone(self.vertical_target(up), select) }
    }
}

impl View for TextBuffer {
    type V = BufferView;

    closed spec fn view(&self) -> BufferView {
        BufferView {
            bytes: vstd::utf8::encode_utf8(self.text@),
            start: self.selection.start,
            end: self.selection.end,
            reversed: self.reversed,
            marked: self.marked,
            goal: self.goal_column,
        }
    }
}

impl Default for TextBuffer {
    /// An empty buffer.
    fn default() -> (buffer: Self)
        ensures
            buffer@ == (BufferView {
                bytes: Seq::empty(),
                start: 0,
                end: 0,
                reversed: false,
                marked: None,
                goal: None,
            }),
            buffer@.wf(),
    {
        let buffer = TextBuffer {
            text: String::new(),
            selection: Range { start: 0, end: 0 },
            reversed: false,
            marked: None,
            goal_column: None,
        };
        assert(buffer@.bytes =~= Seq::<u8>::empty());
        proof {
            utf8::lemma_ends(buffer@.bytes);
        }
        buffer
    }
}

impl TextBuffer {
    /// The text of every buffer is valid UTF-8.
    proof fn lemma_valid(&self)
        ensures
            vstd::utf8::valid_utf8(self@.bytes),
            vstd::utf8::decode_utf8(self@.bytes) == self.text@,
    {
        vstd::utf8::encode_utf8_valid_utf8(self.text@);
        vstd::utf8::encode_utf8_decode_utf8(self.text@);
    }

    /// The text.
    pub fn text(&self) -> (text: &str)
        ensures
            vstd::utf8::encode_utf8(text@) == self@.bytes,
    {
        self.text.as_str()
    }

    fn len(&self) -> (len: usize)
        ensures
            len == self@.bytes.len(),
    {
        self.text.as_str().as_bytes().len()
    }

    /// The selected range.
    pub fn selection(&self) -> (range: Range<usize>)
        ensures
            range.start == self@.start,
            range.end == self@.end,
    {
        Range { start: self.selection.start, end: self.selection.end }
    }

    /// Whether the cursor is at the start of the selection.
    pub fn is_reversed(&self) -> (reversed: bool)
        ensures
            reversed == self@.reversed,
    {
        self.reversed
    }

    /// Where the cursor is.
    pub fn cursor(&self) -> (offset: usize)
        ensures
            offset == self@.cursor(),
    {
        if self.reversed {
            self.selection.start
        } else {
            self.selection.end
        }
    }

    /// The composition in progress.
    pub fn marked(&self) -> (range: Option<Range<usize>>)
        ensures
            range == self@.marked,
    {
        match &self.marked {
            Some(range) => Some(Range { start: range.start, end: range.end }),
            None => None,
        }
    }

    /// Sets the composition in progress.
    pub fn set_marked(&mut self, marked: Option<Range<usize>>)
        ensures
            final(self)@ == (BufferView { marked, ..old(self)@ }),
    {
        self.marked = marked;
    }

    /// Starts over with a text; the cursor goes to its end.
    pub fn set_text(&mut self, text: &str)
        ensures
            final(self)@ == (BufferView {
                bytes: vstd::utf8::encode_utf8(text@),
                start: vstd::utf8::encode_utf8(text@).len() as usize,
                end: vstd::utf8::encode_utf8(text@).len() as usize,
                reversed: false,
                marked: None,
                goal: None,
            }),
            final(self)@.end == final(self)@.bytes.len(),
            final(self)@.wf(),
    {
        self.text = text.to_owned();
        let end: usize = self.len();
        self.selection = Range { start: end, end };
        self.reversed = false;
        self.marked = None;
        self.goal_column = None;
        proof {
            self.lemma_valid();
            utf8::lemma_ends(self@.bytes);
        }
    }

    /// Byte ranges of each line, without the newline.
    pub fn lines(&self) -> (lines: Vec<Range<usize>>)
        ensures
            lines@ == self@.lines(),
    {
        let bytes = self.text.as_str().as_bytes();
        let mut lines: Vec<Range<usize>> = Vec::new();
        let mut start: usize = 0;
        let mut at: usize = 0;
        assert(lines@ + self@.lines() =~= self@.lines());
        while at < bytes.len()
            invariant
                bytes@ == self@.bytes,
                start <= at <= bytes@.len(),
                lines@ + line_ranges(bytes@, start as int, at as int) == self@.lines(),
            decreases bytes.len() - at,
        {
            let ghost before = lines@;
            if bytes[at] == LF {
                lines.push(Range { start, end: at });
                start = at + 1;
                assert(lines@ + line_ranges(bytes@, at + 1, at + 1) =~= before + (seq![
                    lines@.last(),
                ] + line_ranges(bytes@, at + 1, at + 1)));
            }
            at = at + 1;
        }
        lines.push(Range { start, end: bytes.len() });
        assert(lines@ =~= self@.lines());
        lines
    }

    /// Index of the line containing `offset`.
    pub fn line_of(&self, offset: usize) -> (line: usize)
        requires
            offset <= self@.bytes.len(),
        ensures
            line == self@.line_of(offset),
    {
        let bytes = self.text.as_str().as_bytes();
        let mut count: usize = 0;
        let mut at: usize = offset;
        while at > 0
            invariant
                at <= offset <= bytes@.len(),
                bytes@ == self@.bytes,
                count == newlines_between(bytes@, at as int, offset as int),
                count <= offset - at,
            decreases at,
        {
            at = at - 1;
            if bytes[at] == LF {
                count = count + 1;
            }
        }
        count
    }

    /// Puts `new_text` in place of `range`, and the cursor behind it.
    pub fn replace(&mut self, range: Range<usize>, new_text: &str)
        requires
            utf8::boundary(old(self)@.bytes, range.start as int),
            utf8::boundary(old(self)@.bytes, range.end as int),
            range.start <= range.end,
        ensures
            final(self)@ == old(self)@.replaced(
                range.start as int,
                range.end as int,
                vstd::utf8::encode_utf8(new_text@),
            ),
            final(self)@.start == range.start + vstd::utf8::encode_utf8(new_text@).len(),
            final(self)@.wf(),
    {
        let ghost bytes = self@.bytes;
        let ghost new = vstd::utf8::encode_utf8(new_text@);
        let end: usize = self.len();
        proof {
            utf8::lemma_ends(bytes);
            utf8::lemma_boundary_range(bytes, range.start as int);
            utf8::lemma_boundary_range(bytes, range.end as int);
        }
        let mut text = slice_text(self.text.as_str(), 0, range.start).to_owned();
        let tail = slice_text(self.text.as_str(), range.end, end);
        proof {
            utf8::lemma_encode_concat(text@, new_text@);
            utf8::lemma_encode_concat(text@ + new_text@, tail@);
        }
        text.append(new_text);
        text.append(tail);
        self.text = text;
        let ghost whole = bytes.subrange(0, range.start as int) + new + bytes.subrange(
            range.end as int,
            bytes.len() as int,
        );
        assert(self@.bytes =~= whole);
        let total: usize = self.len();
        assert(whole.len() == total);
        let cursor: usize = range.start + new_text.as_bytes().len();
        self.selection = Range { start: cursor, end: cursor };
        self.reversed = false;
        self.marked = None;
        self.goal_column = None;
        proof {
            utf8::lemma_splice(bytes, range.start as int, range.end as int, new_text@);
        }
    }

    /// Types `new_text`: it replaces the composition in progress, or else the selection.
    pub fn insert(&mut self, new_text: &str)
        requires
            match old(self)@.marked {
                Some(range) => {
                    &&& utf8::boundary(old(self)@.bytes, range.start as int)
                    &&& utf8::boundary(old(self)@.bytes, range.end as int)
                    &&& range.start <= range.end
                },
                None => old(self)@.wf(),
            },
        ensures
            final(self)@ == (match old(self)@.marked {
                Some(range) => old(self)@.replaced(
                    range.start as int,
                    range.end as int,
                    vstd::utf8::encode_utf8(new_text@),
                ),
                None => old(self)@.replaced(
                    old(self)@.start as int,
                    old(self)@.end as int,
                    vstd::utf8::encode_utf8(new_text@),
                ),
            }),
            final(self)@.wf(),
    {
        let range = match &self.marked {
            Some(range) => Range { start: range.start, end: range.end },
            None => Range { start: self.selection.start, end: self.selection.end },
        };
        self.replace(range, new_text);
    }

    /// Deletes the selection, or else the grapheme before the cursor.
    pub fn backspace(&mut self)
        requires
            old(self)@.wf(),
        ensures
            final(self)@ == (if old(self)@.start == old(self)@.end {
                old(self)@.replaced(
                    old(self)@.before(old(self)@.cursor()) as int,
                    old(self)@.cursor() as int,
                    Seq::empty(),
                )
            } else {
                old(self)@.replaced(
                    old(self)@.start as int,
                    old(self)@.end as int,
                    Seq::empty(),
                )
            }),
            final(self)@.wf(),
    {
        let (start, end) = (self.selection.start, self.selection.end);
        let range = if start == end {
            let cursor: usize = self.cursor();
            Range { start: self.previous_boundary(cursor), end: cursor }
        } else {
            Range { start, end }
        };
        proof {
            reveal_strlit("");
            assert(""@ =~= Seq::<char>::empty());
            assert(vstd::utf8::encode_utf8(""@) =~= Seq::<u8>::empty());
        }
        self.replace(range, "");
    }

    /// Deletes the selection, or else the grapheme after the cursor.
    pub fn delete(&mut self)
        requires
            old(self)@.wf(),
        ensures
            final(self)@ == (if old(self)@.start == old(self)@.end {
                old(self)@.replaced(
                    old(self)@.cursor() as int,
                    old(self)@.after(old(self)@.cursor()) as int,
                    Seq::empty(),
                )
            } else {
                old(self)@.replaced(
                    old(self)@.start as int,
                    old(self)@.end as int,
                    Seq::empty(),
                )
            }),
            final(self)@.wf(),
    {
        let (start, end) = (self.selection.start, self.selection.end);
        let range = if start == end {
            let cursor: usize = self.cursor();
            proof {
                utf8::lemma_boundary_range(self@.bytes, cursor as int);
            }
            Range { start: cursor, end: self.next_boundary(cursor) }
        } else {
            Range { start, end }
        };
        proof {
            reveal_strlit("");
            assert(""@ =~= Seq::<char>::empty());
            assert(vstd::utf8::encode_utf8(""@) =~= Seq::<u8>::empty());
        }
        self.replace(range, "");
    }

    /// Puts the cursor at `offset` and selects nothing.
    pub fn move_to(&mut self, offset: usize)
        ensures
            final(self)@ == old(self)@.moved(offset),
    {
        self.selection = Range { start: offset, end: offset };
        self.reversed = false;
        self.goal_column = None;
    }

    /// Moves the cursor end of the selection to `offset`.
    pub fn select_to(&mut self, offset: usize)
        ensures
            final(self)@ == old(self)@.selected_to(offset),
    {
        let (start, end) = if self.reversed {
            (offset, self.selection.end)
        } else {
            (self.selection.start, offset)
        };
        if end < start {
            self.reversed = !self.reversed;
            self.selection = Range { start: end, end: start };
        } else {
            self.selection = Range { start, end };
        }
        self.goal_column = None;
    }

    /// Selects the whole text.
    pub fn select_all(&mut self)
        ensures
            final(self)@ == (BufferView {
                start: 0,
                end: old(self)@.bytes.len() as usize,
                reversed: false,
                ..old(self)@
            }),
            final(self)@.end == old(self)@.bytes.len(),
            final(self)@.wf(),
    {
        let end: usize = self.len();
        self.selection = Range { start: 0, end };
        self.reversed = false;
        proof {
            self.lemma_valid();
            utf8::lemma_ends(self@.bytes);
        }
    }

    /// Moves one grapheme back; from a selection, to its start.
    pub fn left(&mut self, select: bool)
        ensures
            final(self)@ == (if !select && old(self)@.start < old(self)@.end {
                old(self)@.moved(old(self)@.start)
            } else {
                old(self)@.gone(old(self)@.before(old(self)@.cursor()), select)
            }),
            old(self)@.wf() ==> final(self)@.wf(),
    {
        if !select && self.selection.start < self.selection.end {
            self.move_to(self.selection.start);
        } else {
            let to: usize = self.previous_boundary(self.cursor());
            self.go(to, select);
        }
    }

    /// Moves one grapheme forward; from a selection, to its end.
    pub fn right(&mut self, select: bool)
        ensures
            final(self)@ == (if !select && old(self)@.start < old(self)@.end {
                old(self)@.moved(old(self)@.end)
            } else {
                old(self)@.gone(old(self)@.after(old(self)@.cursor()), select)
            }),
            old(self)@.wf() ==> final(self)@.wf(),
    {
        if !select && self.selection.start < self.selection.end {
            self.move_to(self.selection.end);
        } else {
            let to: usize = self.next_boundary(self.cursor());
            self.go(to, select);
        }
    }

    /// Moves one line up.
    pub fn up(&mut self, select: bool)
        requires
            old(self)@.wf(),
        ensures
            final(self)@ == old(self)@.vertical(true, select),
            final(self)@.wf(),
    {
        self.vertical(true, select);
    }

    /// Moves one line down.
    pub fn down(&mut self, select: bool)
        requires
            old(self)@.wf(),
        ensures
            final(self)@ == old(self)@.vertical(false, select),
            final(self)@.wf(),
    {
        self.vertical(false, select);
    }

    /// Moves to the start of the cursor's line.
    pub fn line_start(&mut self, select: bool)
        requires
            old(self)@.wf(),
        ensures
            final(self)@ == old(self)@.gone(
                old(self)@.lines()[old(self)@.line_of(old(self)@.cursor())].start,
                select,
            ),
            final(self)@.wf(),
    {
        let line = self.cursor_line();
        self.go(line.start, select);
    }

    /// Moves to the end of the cursor's line.
    pub fn line_end(&mut self, select: bool)
        requires
            old(self)@.wf(),
        ensures
            final(self)@ == old(self)@.gone(
                old(self)@.lines()[old(self)@.line_of(old(self)@.cursor())].end,
                select,
            ),
            final(self)@.wf(),
    {
        let line = self.cursor_line();
        self.go(line.end, select);
    }

    fn cursor_line(&self) -> (line: Range<usize>)
        requires
            self@.wf(),
        ensures
            line == self@.lines()[self@.line_of(self@.cursor())],
            0 <= self@.line_of(self@.cursor()) < self@.lines().len(),
            line.start <= self@.cursor() <= line.end,
            utf8::boundary(self@.bytes, line.start as int),
            utf8::boundary(self@.bytes, line.end as int),
    {
        let lines = self.lines();
        let cursor: usize = self.cursor();
        let len: usize = self.len();
        proof {
            self.lemma_valid();
            utf8::lemma_boundary_range(self@.bytes, cursor as int);
            utf8::lemma_ends(self@.bytes);
            lemma_line_holds(self@.bytes, 0, 0, cursor as int);
            lemma_line_boundaries(self@.bytes, 0, 0, self@.line_of(cursor));
        }
        let line = &lines[self.line_of(cursor)];
        Range { start: line.start, end: line.end }
    }

    fn go(&mut self, offset: usize, select: bool)
        ensures
            final(self)@ == old(self)@.gone(offset, select),
            old(self)@.wf() && utf8::boundary(old(self)@.bytes, offset as int)
                ==> final(self)@.wf(),
    {
        if select {
            self.select_to(offset);
        } else {
            self.move_to(offset);
        }
    }

    fn column_in(&self, line: Range<usize>, column: usize) -> (offset: usize)
        requires
            line.start <= line.end,
            utf8::boundary(self@.bytes, line.start as int),
            utf8::boundary(self@.bytes, line.end as int),
        ensures
            offset == self@.column_in(line, column),
            utf8::boundary(self@.bytes, offset as int),
    {
        let part = slice_text(self.text.as_str(), line.start, line.end);
        let ghost bytes = self@.bytes.subrange(line.start as int, line.end as int);
        let starts = graphemes(part);
        proof {
            vstd::utf8::encode_utf8_decode_utf8(part@);
            utf8::lemma_slice(self@.bytes, line.start as int, line.end as int);
        }
        if column < starts.len() {
            proof {
                assert(utf8::boundary(bytes, starts@[column as int] as int));
            }
            line.start + starts[column]
        } else {
            line.end
        }
    }

    fn vertical(&mut self, up: bool, select: bool)
        requires
            old(self)@.wf(),
        ensures
            final(self)@ == old(self)@.vertical(up, select),
            final(self)@.wf(),
    {
        let lines = self.lines();
        let cursor: usize = self.cursor();
        let len: usize = self.len();
        let here = self.cursor_line();
        proof {
            self.lemma_valid();
            utf8::lemma_boundary_range(self@.bytes, cursor as int);
            utf8::lemma_ends(self@.bytes);
        }
        let line: usize = self.line_of(cursor);
        let column: usize = match self.goal_column {
            Some(column) => column,
            None => {
                let part = slice_text(self.text.as_str(), here.start, cursor);
                proof {
                    vstd::utf8::encode_utf8_decode_utf8(part@);
                }
                graphemes(part).len()
            },
        };
        let offset: usize = if up && line == 0 {
            0
        } else if !up && lines.len() - line <= 1 {
            len
        } else {
            let target: usize = if up {
                line - 1
            } else {
                line + 1
            };
            proof {
                lemma_line_boundaries(self@.bytes, 0, 0, target as int);
            }
            let range = &lines[target];
            self.column_in(Range { start: range.start, end: range.end }, column)
        };
        self.go(offset, select);
        self.goal_column = Some(column);
    }

    /// The grapheme start before `offset`, or the start of the text.
    pub fn previous_boundary(&self, offset: usize) -> (start: usize)
        ensures
            start == self@.before(offset),
            utf8::boundary(self@.bytes, start as int),
            start <= offset,
            segmented(self@.bytes),
    {
        let starts = graphemes(self.text.as_str());
        proof {
            self.lemma_valid();
            utf8::lemma_ends(self@.bytes);
        }
        let mut i: usize = starts.len();
        assert(starts@.take(starts@.len() as int) =~= starts@);
        while i > 0
            invariant
                i <= starts@.len(),
                starts@ == starts_of(self@.bytes),
                divides(self@.bytes, starts@),
                keeps_lines(self@.bytes, starts@),
                vstd::utf8::valid_utf8(self@.bytes),
                utf8::boundary(self@.bytes, 0),
                start_before(starts@, offset as int) == start_before(
                    starts@.take(i as int),
                    offset as int,
                ),
            decreases i,
        {
            assert(starts@.take(i as int).drop_last() =~= starts@.take(i - 1));
            i = i - 1;
            if starts[i] < offset {
                return starts[i];
            }
        }
        0
    }

    /// The grapheme start after `offset`, or the end of the text.
    pub fn next_boundary(&self, offset: usize) -> (start: usize)
        ensures
            start == self@.after(offset),
            utf8::boundary(self@.bytes, start as int),
            offset <= self@.bytes.len() ==> offset <= start,
            segmented(self@.bytes),
    {
        let starts = graphemes(self.text.as_str());
        let len: usize = self.len();
        proof {
            self.lemma_valid();
            utf8::lemma_ends(self@.bytes);
        }
        let mut i: usize = 0;
        assert(starts@.skip(0) =~= starts@);
        while i < starts.len()
            invariant
                i <= starts@.len(),
                len == self@.bytes.len(),
                starts@ == starts_of(self@.bytes),
                divides(self@.bytes, starts@),
                keeps_lines(self@.bytes, starts@),
                vstd::utf8::valid_utf8(self@.bytes),
                start_after(starts@, offset as int, len as int) == start_after(
                    starts@.skip(i as int),
                    offset as int,
                    len as int,
                ),
            decreases starts.len() - i,
        {
            assert(starts@.skip(i as int).drop_first() =~= starts@.skip(i + 1));
            if starts[i] > offset {
                return starts[i];
            }
            i = i + 1;
        }
        len
    }

    /// How many UTF-16 units stand before `offset`.
    pub fn offset_to_utf16(&self, offset: usize) -> (units: usize)
        requires
            utf8::boundary(self@.bytes, offset as int),
        ensures
            units == utf16_len(
                vstd::utf8::decode_utf8(self@.bytes.subrange(0, offset as int)),
            ),
    {
        proof {
            self.lemma_valid();
            utf8::lemma_ends(self@.bytes);
            utf8::lemma_boundary_range(self@.bytes, offset as int);
        }
        let part = slice_text(self.text.as_str(), 0, offset);
        let len: usize = part.as_bytes().len();
        let chars = chars_of(part);
        proof {
            vstd::utf8::encode_utf8_decode_utf8(part@);
        }
        let mut units: usize = 0;
        let mut i: usize = 0;
        while i < chars.len()
            invariant
                i <= chars@.len(),
                chars@ == part@,
                len == vstd::utf8::encode_utf8(part@).len(),
                units == utf16_len(part@.take(i as int)),
            decreases chars.len() - i,
        {
            proof {
                assert(part@.take(i + 1).drop_last() =~= part@.take(i as int));
                lemma_utf16_bytes(part@.take(i + 1));
                utf8::lemma_byte_of_boundary(part@, i + 1);
            }
            units = units + units_of(chars[i]);
            i = i + 1;
        }
        assert(part@.take(i as int) =~= part@);
        units
    }

    /// The offset of the first character before which at least `utf16` units stand.
    pub fn offset_from_utf16(&self, utf16: usize) -> (offset: usize)
        ensures
            offset == byte_at_utf16(vstd::utf8::decode_utf8(self@.bytes), utf16 as int, 0),
            utf8::boundary(self@.bytes, offset as int),
    {
        let ghost text = self.text@;
        proof {
            self.lemma_valid();
        }
        let len: usize = self.len();
        let chars = chars_of(self.text.as_str());
        let mut units: usize = 0;
        let mut offset: usize = 0;
        let mut i: usize = 0;
        assert(text.take(0) =~= Seq::<char>::empty());
        while i < chars.len()
            invariant
                i <= chars@.len(),
                chars@ == text,
                self@.bytes == vstd::utf8::encode_utf8(text),
                text == vstd::utf8::decode_utf8(self@.bytes),
                len == self@.bytes.len(),
                units == utf16_len(text.take(i as int)),
                offset == utf8::byte_of(text, i as int),
                byte_at_utf16(text, utf16 as int, 0) == byte_at_utf16(
                    text,
                    utf16 as int,
                    i as int,
                ),
            decreases chars.len() - i,
        {
            proof {
                utf8::lemma_byte_of_boundary(text, i as int);
            }
            if units >= utf16 {
                return offset;
            }
            proof {
                assert(text.take(i + 1).drop_last() =~= text.take(i as int));
                lemma_utf16_bytes(text.take(i + 1));
                utf8::lemma_byte_of_boundary(text, i + 1);
                utf8::lemma_byte_of_step(text, i as int);
            }
            units = units + units_of(chars[i]);
            offset = offset + char_bytes(chars[i]);
            i = i + 1;
        }
        proof {
            utf8::lemma_byte_of_boundary(text, text.len() as int);
        }
        offset
    }

    /// A byte range in UTF-16 units.
    pub fn range_to_utf16(&self, range: &Range<usize>) -> (units: Range<usize>)
        requires
            utf8::boundary(self@.bytes, range.start as int),
            utf8::boundary(self@.bytes, range.end as int),
        ensures
            units.start == utf16_len(
                vstd::utf8::decode_utf8(self@.bytes.subrange(0, range.start as int)),
            ),
            units.end == utf16_len(
                vstd::utf8::decode_utf8(self@.bytes.subrange(0, range.end as int)),
            ),
    {
        Range { start: self.offset_to_utf16(range.start), end: self.offset_to_utf16(range.end) }
    }

    /// A range in UTF-16 units as a byte range.
    pub fn range_from_utf16(&self, range: &Range<usize>) -> (bytes: Range<usize>)
        ensures
            utf8::boundary(self@.bytes, bytes.start as int),
            utf8::boundary(self@.bytes, bytes.end as int),
            range.start <= range.end ==> bytes.start <= bytes.end,
            bytes.start == byte_at_utf16(
                vstd::utf8::decode_utf8(self@.bytes),
                range.start as int,
                0,
            ),
            bytes.end == byte_at_utf16(
                vstd::utf8::decode_utf8(self@.bytes),
                range.end as int,
                0,
            ),
    {
        proof {
            if range.start <= range.end {
                lemma_utf16_order(
                    vstd::utf8::decode_utf8(self@.bytes),
                    range.start as int,
                    range.end as int,
                    0,
                );
            }
        }
        Range {
            start: self.offset_from_utf16(range.start),
            end: self.offset_from_utf16(range.end),
        }
    }
}

// ---------------------------------------------------------------------------
// Laws.

proof fn lemma_start_before(starts: Seq<usize>, offset: int, i: int)
    requires
        0 <= i < starts.len(),
        starts[i] < offset,
        forall|j: int| i < j < starts.len() ==> offset <= #[trigger] starts[j],
    ensures
        start_before(starts, offset) == starts[i],
    decreases starts.len(),
{
    if i < starts.len() - 1 {
        assert(offset <= starts[starts.len() - 1]);
        assert(starts.drop_last()[i] == starts[i]);
        assert forall|j: int| i < j < starts.drop_last().len() implies offset
            <= #[trigger] starts.drop_last()[j] by {
            assert(starts.drop_last()[j] == starts[j]);
        }
        lemma_start_before(starts.drop_last(), offset, i);
    }
}

proof fn lemma_start_after(starts: Seq<usize>, offset: int, end: int, i: int)
    requires
        0 <= i <= starts.len(),
        forall|j: int| 0 <= j < i ==> #[trigger] starts[j] <= offset,
        i < starts.len() ==> starts[i] > offset,
    ensures
        start_after(starts, offset, end) == (if i < starts.len() {
            starts[i] as int
        } else {
            end
        }),
    decreases starts.len(),
{
    if i > 0 {
        assert(starts[0] <= offset);
        let rest = starts.drop_first();
        assert forall|j: int| 0 <= j < i - 1 implies #[trigger] rest[j] <= offset by {
            assert(rest[j] == starts[j + 1]);
        }
        lemma_start_after(rest, offset, end, i - 1);
    }
}

/// Where the graphemes of a buffer start, and its end.
pub open spec fn is_boundary(b: BufferView, offset: usize) -> bool {
    starts_of(b.bytes).contains(offset) || offset == b.bytes.len()
}

/// The next and the previous boundary lead back to where one came from: from every boundary
/// but the end forward and back, from every one but the start back and forward.
pub proof fn law_boundaries_are_inverse(b: BufferView, offset: usize)
    requires
        b.bytes.len() <= usize::MAX,
        divides(b.bytes, starts_of(b.bytes)),
        is_boundary(b, offset),
    ensures
        offset < b.bytes.len() ==> b.before(b.after(offset)) == offset && is_boundary(
            b,
            b.after(offset),
        ),
        offset > 0 ==> b.after(b.before(offset)) == offset && is_boundary(b, b.before(offset)),
{
    let starts = starts_of(b.bytes);
    let end = b.bytes.len() as int;
    let i = if offset < end {
        starts.index_of(offset)
    } else {
        starts.len() as int
    };
    if offset < end {
        assert(starts[i] == offset);
        lemma_start_after(starts, offset as int, end, i + 1);
        let next = if i + 1 < starts.len() {
            starts[i + 1] as int
        } else {
            end
        };
        assert(b.after(offset) == next);
        if i + 1 < starts.len() {
            assert(starts.contains(starts[i + 1]));
        }
        lemma_start_before(starts, next, i);
    }
    if offset > 0 {
        assert(i > 0);
        lemma_start_before(starts, offset as int, i - 1);
        assert(b.before(offset) == starts[i - 1]);
        assert(starts.contains(starts[i - 1]));
        lemma_start_after(starts, starts[i - 1] as int, end, i);
    }
}

/// Later lines start later.
proof fn lemma_later_line(bytes: Seq<u8>, start: int, at: int, n: int)
    requires
        bytes.len() <= usize::MAX,
        0 <= start <= at <= bytes.len(),
        0 < n < line_ranges(bytes, start, at).len(),
    ensures
        line_ranges(bytes, start, at)[n].start > at,
    decreases bytes.len() - at,
{
    if at < bytes.len() {
        if bytes[at] == LF {
            let rest = line_ranges(bytes, at + 1, at + 1);
            assert(line_ranges(bytes, start, at)[n] == rest[n - 1]);
            if n == 1 {
                lemma_first_line(bytes, at + 1, at + 1);
            } else {
                lemma_later_line(bytes, at + 1, at + 1, n - 1);
            }
        } else {
            lemma_later_line(bytes, start, at + 1, n);
        }
    }
}

/// Counting line feeds before an offset gives the line that it is in.
proof fn lemma_line_counted(bytes: Seq<u8>, start: int, at: int, n: int, offset: int)
    requires
        bytes.len() <= usize::MAX,
        0 <= start <= at <= offset <= bytes.len(),
        0 <= n < line_ranges(bytes, start, at).len(),
        line_ranges(bytes, start, at)[n].start <= offset <= line_ranges(bytes, start, at)[n].end,
    ensures
        newlines_between(bytes, at, offset) == n,
    decreases bytes.len() - at,
{
    if n > 0 {
        lemma_later_line(bytes, start, at, n);
    }
    if at < offset {
        if bytes[at] == LF {
            let rest = line_ranges(bytes, at + 1, at + 1);
            if n > 0 {
                assert(line_ranges(bytes, start, at)[n] == rest[n - 1]);
                lemma_line_counted(bytes, at + 1, at + 1, n - 1, offset);
            }
        } else {
            lemma_line_counted(bytes, start, at + 1, n, offset);
        }
    }
}

/// Lines start with the text or behind a line feed.
proof fn lemma_line_start(bytes: Seq<u8>, start: int, at: int, n: int)
    requires
        bytes.len() <= usize::MAX,
        0 <= start <= at <= bytes.len(),
        start == 0 || bytes[start - 1] == LF,
        0 <= n < line_ranges(bytes, start, at).len(),
    ensures
        ({
            let first = line_ranges(bytes, start, at)[n].start;
            first == 0 || bytes[first - 1] == LF
        }),
    decreases bytes.len() - at,
{
    if at < bytes.len() {
        if bytes[at] == LF {
            if n > 0 {
                lemma_line_start(bytes, at + 1, at + 1, n - 1);
                assert(line_ranges(bytes, start, at)[n] == line_ranges(bytes, at + 1, at + 1)[n
                    - 1]);
            }
        } else {
            lemma_line_start(bytes, start, at + 1, n);
        }
    }
}

/// Whether starts are in order.
spec fn rises(starts: Seq<usize>) -> bool {
    forall|i: int, j: int|
        #![trigger starts[i], starts[j]]
        0 <= i < j < starts.len() ==> starts[i] < starts[j]
}

proof fn lemma_cut_range(starts: Seq<usize>, from: int, to: int)
    requires
        0 <= from <= to,
    ensures
        forall|i: int|
            0 <= i < cut(starts, from, to).len() ==> #[trigger] cut(starts, from, to)[i] < to
                - from,
    decreases starts.len(),
{
    if starts.len() > 0 {
        lemma_cut_range(starts.drop_last(), from, to);
        let before = cut(starts.drop_last(), from, to);
        let all = cut(starts, from, to);
        assert forall|i: int| 0 <= i < all.len() implies #[trigger] all[i] < to - from by {
            if i < before.len() {
                assert(all[i] == before[i]);
            }
        }
    }
}

/// Starts that all lie before `at` are cut there as further on.
proof fn lemma_cut_same(starts: Seq<usize>, from: int, at: int, to: int)
    requires
        at <= to,
        forall|i: int| 0 <= i < starts.len() ==> #[trigger] starts[i] < at,
    ensures
        cut(starts, from, at) == cut(starts, from, to),
    decreases starts.len(),
{
    if starts.len() > 0 {
        assert(starts[starts.len() - 1] < at);
        assert forall|i: int| 0 <= i < starts.drop_last().len() implies
            #[trigger] starts.drop_last()[i] < at by {
            assert(starts.drop_last()[i] == starts[i]);
        }
        lemma_cut_same(starts.drop_last(), from, at, to);
    }
}

/// A start that stands behind as many others is found by their number.
proof fn lemma_cut_finds(starts: Seq<usize>, from: int, at: usize, to: int)
    requires
        rises(starts),
        0 <= from <= at < to <= usize::MAX,
        starts.contains(at),
    ensures
        cut(starts, from, at as int).len() < cut(starts, from, to).len(),
        cut(starts, from, to)[cut(starts, from, at as int).len() as int] == at - from,
    decreases starts.len(),
{
    let k = starts.index_of(at);
    assert(starts[k] == at);
    let rest = starts.drop_last();
    assert(rises(rest)) by {
        assert forall|i: int, j: int|
            #![trigger rest[i], rest[j]]
            0 <= i < j < rest.len() implies rest[i] < rest[j] by {
            assert(starts[i] < starts[j]);
        }
    }
    if k == starts.len() - 1 {
        assert forall|i: int| 0 <= i < rest.len() implies #[trigger] rest[i] < at by {
            assert(rest[i] == starts[i]);
            assert(starts[i] < starts[k]);
        }
        lemma_cut_same(rest, from, at as int, to);
    } else {
        assert(rest[k] == at);
        assert(starts[k] < starts[starts.len() - 1]);
        lemma_cut_finds(rest, from, at, to);
    }
}

/// A grapheme boundary is where its own column leads.
proof fn lemma_column_leads_back(b: BufferView)
    requires
        b.bytes.len() <= usize::MAX,
        b.wf(),
        segmented(b.bytes),
        is_boundary(b, b.cursor()),
        b.goal is None,
    ensures
        b.column_in(b.lines()[b.line_of(b.cursor())], b.column()) == b.cursor(),
{
    let starts = starts_of(b.bytes);
    let at = b.cursor();
    let n = b.line_of(at);
    utf8::lemma_boundary_range(b.bytes, at as int);
    utf8::lemma_ends(b.bytes);
    lemma_line_holds(b.bytes, 0, 0, at as int);
    lemma_line_boundaries(b.bytes, 0, 0, n);
    lemma_line_start(b.bytes, 0, 0, n);
    let line = b.lines()[n];
    utf8::lemma_boundary_range(b.bytes, line.end as int);
    let (from, to) = (line.start as int, line.end as int);
    assert(starts_of(b.bytes.subrange(from, at as int)) == cut(starts, from, at as int));
    assert(starts_of(b.bytes.subrange(from, to)) == cut(starts, from, to));
    lemma_cut_len(starts, from, at as int);
    lemma_cut_len(starts, from, to);
    lemma_rises_within(starts, b.bytes.len() as int);
    if at < line.end {
        lemma_cut_finds(starts, from, at, to);
    }
}

proof fn lemma_rises_within(starts: Seq<usize>, end: int)
    requires
        rises(starts),
        forall|i: int| 0 <= i < starts.len() ==> #[trigger] starts[i] < end,
    ensures
        starts.len() > 0 ==> starts.len() <= end,
    decreases starts.len(),
{
    if starts.len() > 1 {
        let rest = starts.drop_last();
        let last = starts[starts.len() - 1] as int;
        assert forall|i: int| 0 <= i < rest.len() implies #[trigger] rest[i] < last by {
            assert(rest[i] == starts[i]);
        }
        assert forall|i: int, j: int|
            #![trigger rest[i], rest[j]]
            0 <= i < j < rest.len() implies rest[i] < rest[j] by {
            assert(starts[i] < starts[j]);
        }
        lemma_rises_within(rest, last);
    } else if starts.len() == 1 {
        assert(starts[0] < end);
    }
}

proof fn lemma_cut_len(starts: Seq<usize>, from: int, to: int)
    ensures
        cut(starts, from, to).len() <= starts.len(),
    decreases starts.len(),
{
    if starts.len() > 0 {
        lemma_cut_len(starts.drop_last(), from, to);
    }
}

/// Down and then up comes back to the cursor: from every grapheme boundary that isn't in the
/// last line, whatever the length of the line below. Once more up from the first line leads
/// to the start.
pub proof fn law_up_comes_back_from_down(b: BufferView, offset: usize)
    requires
        b.bytes.len() <= usize::MAX,
        segmented(b.bytes),
        utf8::boundary(b.bytes, offset as int),
        is_boundary(b, offset),
        b.line_of(offset) + 1 < b.lines().len(),
    ensures
        ({
            let back = b.moved(offset).vertical(false, false).vertical(true, false);
            &&& back.bytes == b.bytes
            &&& back.cursor() == offset
            &&& back.start == offset && back.end == offset
            &&& b.line_of(offset) == 0 ==> back.vertical(true, false).cursor() == 0
        }),
{
    let b = b.moved(offset);
    let line = b.line_of(offset);
    utf8::lemma_boundary_range(b.bytes, offset as int);
    lemma_column_leads_back(b);
    lemma_line_holds(b.bytes, 0, 0, offset as int);
    utf8::lemma_ends(b.bytes);
    lemma_line_boundaries(b.bytes, 0, 0, line + 1);
    lemma_line_start(b.bytes, 0, 0, line + 1);
    let down = b.vertical(false, false);
    let below = b.lines()[line + 1];
    utf8::lemma_boundary_range(b.bytes, below.end as int);
    let (from, to) = (below.start as int, below.end as int);
    assert(starts_of(b.bytes.subrange(from, to)) == cut(starts_of(b.bytes), from, to));
    lemma_cut_range(starts_of(b.bytes), from, to);
    assert(below.start <= down.cursor() <= below.end);
    lemma_line_counted(b.bytes, 0, 0, line + 1, down.cursor() as int);
}

/// Text that is typed stands where it was typed, with all that was before it before it and all
/// that was behind it behind it, and the cursor follows it.
pub proof fn law_typing_keeps_the_rest(b: BufferView, from: int, to: int, new: Seq<u8>)
    requires
        0 <= from <= to <= b.bytes.len(),
        b.bytes.len() + new.len() <= usize::MAX,
    ensures
        ({
            let after = b.replaced(from, to, new);
            let end = from + new.len();
            &&& after.bytes.len() == b.bytes.len() - (to - from) + new.len()
            &&& after.bytes.take(from) == b.bytes.take(from)
            &&& after.bytes.subrange(from, end) == new
            &&& after.bytes.skip(end) == b.bytes.skip(to)
            &&& after.cursor() == end && after.start == end && after.end == end
            &&& after.marked is None
        }),
{
    let after = b.replaced(from, to, new);
    let end = from + new.len();
    assert(after.bytes.take(from) =~= b.bytes.take(from));
    assert(after.bytes.subrange(from, end) =~= new);
    assert(after.bytes.skip(end) =~= b.bytes.skip(to));
}

/// Selecting moves the cursor and leaves the other end of the selection where it is, also when the
/// two change places; moving leaves nothing selected.
pub proof fn law_selecting_keeps_the_other_end(b: BufferView, offset: usize)
    requires
        b.start <= b.end,
    ensures
        ({
            let fixed = if b.reversed {
                b.end
            } else {
                b.start
            };
            let after = b.selected_to(offset);
            &&& after.cursor() == offset || (offset == fixed && after.start == after.end)
            &&& after.start <= after.end
            &&& after.start == fixed || after.end == fixed
            &&& after.start == offset || after.end == offset
            &&& after.bytes == b.bytes
        }),
        b.moved(offset).cursor() == offset,
        b.moved(offset).start == offset && b.moved(offset).end == offset,
        b.moved(offset).bytes == b.bytes,
{
}

} // verus!
