//! The commit message editor: multi-line plain text with selection, clipboard and input
//! methods. The editing model lives in [`TextBuffer`]; this module routes input to it and says
//! what each line shows.
use vstd::prelude::*;

use core::ops::Range;

use crate::text::{chars_of, copy_text};
use crate::text_buffer;
use crate::text_buffer::{BufferView, TextBuffer};
use crate::utf8;
use crate::utf8::slice_text;

verus! {

/// How many lines the editor has room for at least.
pub const MIN_LINES: usize = 3;

/// An editor, and whether the mouse is selecting.
#[derive(Debug)]
pub struct CommitEditor {
    pub buffer: TextBuffer,
    pub is_selecting: bool,
}

/// Whether a range lies within a text, between characters.
pub open spec fn range_ok(bytes: Seq<u8>, range: Range<usize>) -> bool {
    &&& utf8::boundary(bytes, range.start as int)
    &&& utf8::boundary(bytes, range.end as int)
    &&& range.start <= range.end
}

/// Whether the selection and the composition in progress lie within the text, between
/// characters.
pub open spec fn buffer_ok(b: BufferView) -> bool {
    b.wf() && (b.marked matches Some(range) ==> range_ok(b.bytes, range))
}

/// A text with each carriage return that comes before a line feed left out.
pub open spec fn unix_lines(text: Seq<char>) -> Seq<char>
    decreases text.len(),
{
    if text.len() == 0 {
        text
    } else if text.len() > 1 && text[0] == '\r' && text[1] == '\n' {
        unix_lines(text.drop_first())
    } else {
        seq![text[0]] + unix_lines(text.drop_first())
    }
}

/// A text with each carriage return that comes before a line feed left out.
pub fn to_unix_lines(text: &str) -> (result: String)
    ensures
        result@ == unix_lines(text@),
{
    let chars = chars_of(text);
    proof {
        reveal_strlit("");
    }
    let mut result = copy_text("");
    let mut i: usize = 0;
    let total: usize = chars.len();
    assert(chars@.skip(0) =~= chars@);
    assert(result@ + unix_lines(chars@.skip(0)) =~= unix_lines(chars@));
    while i < total
        invariant
            total == chars@.len(),
            i <= total,
            result@ + unix_lines(chars@.skip(i as int)) == unix_lines(chars@),
        decreases total - i,
    {
        let ghost before = result@;
        assert(chars@.skip(i as int).drop_first() =~= chars@.skip(i + 1));
        let skipped = chars[i] == '\r' && i + 1 < total && chars[i + 1] == '\n';
        if !skipped {
            result.push(chars[i]);
            assert(result@ + unix_lines(chars@.skip(i + 1)) =~= before + (seq![chars@[i as int]]
                + unix_lines(chars@.skip(i + 1))));
        }
        i = i + 1;
    }
    assert(chars@.skip(i as int) =~= seq![]);
    assert(result@ =~= unix_lines(chars@));
    result
}

/// What an edit at a range in UTF-16 units applies to: that range, else the composition in
/// progress, else the selection.
pub open spec fn edited(b: BufferView, utf16: Option<Range<usize>>) -> (int, int) {
    match utf16 {
        Some(range) => (
            text_buffer::byte_at_utf16(vstd::utf8::decode_utf8(b.bytes), range.start as int, 0),
            text_buffer::byte_at_utf16(vstd::utf8::decode_utf8(b.bytes), range.end as int, 0),
        ),
        None => match b.marked {
            Some(range) => (range.start as int, range.end as int),
            None => (b.start as int, b.end as int),
        },
    }
}

/// The UTF-16 units before a byte of a text.
pub open spec fn units_before(bytes: Seq<u8>, offset: usize) -> nat {
    text_buffer::utf16_len(vstd::utf8::decode_utf8(bytes.subrange(0, offset as int)))
}

/// The buffer after a composition: `new` is put in place of a range and marked, and the
/// selection, in UTF-16 units of `new`, is set within it.
pub open spec fn composed(
    b: BufferView,
    from: int,
    to: int,
    new: Seq<char>,
    selected: Option<Range<usize>>,
) -> BufferView {
    let enc = vstd::utf8::encode_utf8(new);
    let placed = BufferView {
        marked: if enc.len() == 0 {
            None
        } else {
            Some(Range { start: from as usize, end: (from + enc.len()) as usize })
        },
        ..b.replaced(from, to, enc)
    };
    match selected {
        Some(range) => placed.moved(
            (from + text_buffer::byte_at_utf16(new, range.start as int, 0)) as usize,
        ).selected_to((from + text_buffer::byte_at_utf16(new, range.end as int, 0)) as usize),
        None => placed,
    }
}

/// A stretch of a line that is drawn in one way.
#[derive(Debug, Clone, Copy, PartialEq, Eq, Structural)]
pub struct TextRun {
    pub len: usize,
    /// Part of the composition in progress.
    pub underlined: bool,
}

/// What is selected of a line, from its start; `past_end` where the selection covers its line
/// feed.
#[derive(Debug, Clone, Copy, PartialEq, Eq, Structural)]
pub struct LineSelection {
    pub from: usize,
    pub to: usize,
    pub past_end: bool,
}

/// What a line of the editor shows.
#[derive(Debug)]
pub struct LinePlan {
    pub range: Range<usize>,
    pub runs: Vec<TextRun>,
    pub selection: Option<LineSelection>,
}

/// The stretches of a line: the composition in progress is underlined where it lies within the
/// line.
pub open spec fn runs_of(line: Range<usize>, marked: Option<Range<usize>>) -> Seq<TextRun> {
    match marked {
        Some(m) if line.start <= m.start && m.end <= line.end && m.start < m.end => without_empty(
            (m.start - line.start) as usize,
            (m.end - m.start) as usize,
            (line.end - m.end) as usize,
        ),
        _ => seq![TextRun { len: (line.end - line.start) as usize, underlined: false }],
    }
}

/// A plain stretch, an underlined one and a plain one, without those that are empty.
pub open spec fn without_empty(before: usize, marked: usize, after: usize) -> Seq<TextRun> {
    (if before > 0 {
        seq![TextRun { len: before, underlined: false }]
    } else {
        seq![]
    }) + seq![TextRun { len: marked, underlined: true }] + (if after > 0 {
        seq![TextRun { len: after, underlined: false }]
    } else {
        seq![]
    })
}

/// What is selected of a line, extending past its end where the selection covers its line feed.
pub open spec fn selection_on(line: Range<usize>, start: usize, end: usize) -> Option<LineSelection> {
    if start < end && start <= line.end && end >= line.start {
        Some(
            LineSelection {
                from: (if start > line.start {
                    start - line.start
                } else {
                    0
                }) as usize,
                to: (if end < line.end {
                    end - line.start
                } else {
                    line.end - line.start
                }) as usize,
                past_end: end > line.end,
            },
        )
    } else {
        None
    }
}

/// Whether a plan shows a line.
pub open spec fn plans_line(b: BufferView, line: Range<usize>, plan: LinePlan) -> bool {
    &&& plan.range == line
    &&& plan.runs@ == runs_of(line, b.marked)
    &&& plan.selection == selection_on(line, b.start, b.end)
}

fn plan_line(range: Range<usize>, marked: &Option<Range<usize>>, start: usize, end: usize) -> (plan:
    LinePlan)
    requires
        range.start <= range.end,
    ensures
        plan.range == range,
        plan.runs@ == runs_of(range, *marked),
        plan.selection == selection_on(range, start, end),
{
    let mut runs: Vec<TextRun> = Vec::new();
    let whole = TextRun { len: range.end - range.start, underlined: false };
    match marked {
        Some(m) if range.start <= m.start && m.end <= range.end && m.start < m.end => {
            if m.start > range.start {
                runs.push(TextRun { len: m.start - range.start, underlined: false });
            }
            runs.push(TextRun { len: m.end - m.start, underlined: true });
            if range.end > m.end {
                runs.push(TextRun { len: range.end - m.end, underlined: false });
            }
        },
        _ => {
            runs.push(whole);
        },
    }
    assert(runs@ =~= runs_of(range, *marked));
    let selection = if start < end && start <= range.end && end >= range.start {
        Some(
            LineSelection {
                from: if start > range.start {
                    start - range.start
                } else {
                    0
                },
                to: if end < range.end {
                    end - range.start
                } else {
                    range.end - range.start
                },
                past_end: end > range.end,
            },
        )
    } else {
        None
    };
    LinePlan { range, runs, selection }
}

/// What the editor shows: its lines, and where the cursor is (its line, and how far into it)
/// unless something is selected.
#[derive(Debug)]
pub struct EditorPlan {
    pub lines: Vec<LinePlan>,
    pub cursor: Option<(usize, usize)>,
    /// How many lines the editor takes.
    pub height: usize,
    /// The text is empty: what should be typed is shown instead.
    pub placeholder: bool,
}

impl CommitEditor {
    pub open spec fn wf(self) -> bool {
        buffer_ok(self.buffer@)
    }

    /// An empty editor.
    pub fn new() -> (editor: CommitEditor)
        ensures
            editor.wf(),
            editor.buffer@.bytes.len() == 0,
            !editor.is_selecting,
    {
        CommitEditor { buffer: TextBuffer::default(), is_selecting: false }
    }

    pub fn text(&self) -> (text: &str)
        ensures
            vstd::utf8::encode_utf8(text@) == self.buffer@.bytes,
    {
        self.buffer.text()
    }

    pub fn set_text(&mut self, text: &str)
        ensures
            final(self).wf(),
            final(self).is_selecting == old(self).is_selecting,
            final(self).buffer@ == (BufferView {
                bytes: vstd::utf8::encode_utf8(text@),
                start: vstd::utf8::encode_utf8(text@).len() as usize,
                end: vstd::utf8::encode_utf8(text@).len() as usize,
                reversed: false,
                marked: None,
                goal: None,
            }),
            final(self).buffer@.end == final(self).buffer@.bytes.len(),
    {
        self.buffer.set_text(text);
    }

    // -----------------------------------------------------------------------
    // The clipboard.

    /// What is selected, for the clipboard.
    pub fn copy(&self) -> (text: Option<String>)
        requires
            self.wf(),
        ensures
            match text {
                Some(t) => self.buffer@.start < self.buffer@.end && vstd::utf8::encode_utf8(t@)
                    == self.buffer@.bytes.subrange(
                    self.buffer@.start as int,
                    self.buffer@.end as int,
                ),
                None => self.buffer@.start == self.buffer@.end,
            },
    {
        let range = self.buffer.selection();
        if range.start < range.end {
            Some(copy_text(slice_text(self.buffer.text(), range.start, range.end)))
        } else {
            None
        }
    }

    /// Takes what is selected out, for the clipboard.
    pub fn cut(&mut self) -> (text: Option<String>)
        requires
            old(self).wf(),
        ensures
            final(self).wf(),
            final(self).is_selecting == old(self).is_selecting,
            ({
                let b = old(self).buffer@;
                match text {
                    Some(t) => {
                        &&& b.start < b.end
                        &&& vstd::utf8::encode_utf8(t@) == b.bytes.subrange(
                            b.start as int,
                            b.end as int,
                        )
                        &&& final(self).buffer@ == b.replaced(
                            edited(b, None).0,
                            edited(b, None).1,
                            seq![],
                        )
                    },
                    None => b.start == b.end && final(self).buffer@ == b,
                }
            }),
    {
        let text = self.copy();
        if text.is_some() {
            proof {
                reveal_strlit("");
                assert(""@ =~= seq![]);
                assert(vstd::utf8::encode_utf8(""@) =~= seq![]);
            }
            self.buffer.insert("");
        }
        text
    }

    /// Types a text from the clipboard.
    pub fn paste(&mut self, text: &str)
        requires
            old(self).wf(),
        ensures
            final(self).wf(),
            final(self).is_selecting == old(self).is_selecting,
            final(self).buffer@ == old(self).buffer@.replaced(
                edited(old(self).buffer@, None).0,
                edited(old(self).buffer@, None).1,
                vstd::utf8::encode_utf8(unix_lines(text@)),
            ),
    {
        self.buffer.insert(to_unix_lines(text).as_str());
    }

    // -----------------------------------------------------------------------
    // The mouse.

    /// The mouse went down at a character: it begins to select.
    pub fn mouse_down(&mut self, offset: usize, extend: bool)
        requires
            old(self).wf(),
            utf8::boundary(old(self).buffer@.bytes, offset as int),
        ensures
            final(self).wf(),
            final(self).is_selecting,
            final(self).buffer@ == old(self).buffer@.gone(offset, extend),
    {
        self.is_selecting = true;
        if extend {
            self.buffer.select_to(offset);
        } else {
            self.buffer.move_to(offset);
        }
    }

    /// The mouse moved to a character.
    pub fn mouse_move(&mut self, offset: usize)
        requires
            old(self).wf(),
            utf8::boundary(old(self).buffer@.bytes, offset as int),
        ensures
            final(self).wf(),
            final(self).is_selecting == old(self).is_selecting,
            final(self).buffer@ == (if old(self).is_selecting {
                old(self).buffer@.selected_to(offset)
            } else {
                old(self).buffer@
            }),
    {
        if self.is_selecting {
            self.buffer.select_to(offset);
        }
    }

    /// The mouse came up.
    pub fn mouse_up(&mut self)
        requires
            old(self).wf(),
        ensures
            final(self).wf(),
            !final(self).is_selecting,
            final(self).buffer@ == old(self).buffer@,
    {
        self.is_selecting = false;
    }

    // -----------------------------------------------------------------------
    // Input methods.

    /// The text in a range in UTF-16 units, and the range that it covers.
    pub fn text_for_range(&self, utf16: &Range<usize>) -> (found: (String, Range<usize>))
        requires
            self.wf(),
            utf16.start <= utf16.end,
        ensures
            ({
                let (from, to) = edited(self.buffer@, Some(*utf16));
                &&& vstd::utf8::encode_utf8(found.0@) == self.buffer@.bytes.subrange(from, to)
                &&& found.1.start == units_before(self.buffer@.bytes, from as usize)
                &&& found.1.end == units_before(self.buffer@.bytes, to as usize)
            }),
    {
        let range = self.buffer.range_from_utf16(utf16);
        let actual = self.buffer.range_to_utf16(&range);
        (copy_text(slice_text(self.buffer.text(), range.start, range.end)), actual)
    }

    /// The selection in UTF-16 units, and whether the cursor is at its start.
    pub fn selected_text_range(&self) -> (found: (Range<usize>, bool))
        requires
            self.wf(),
        ensures
            found.0.start == units_before(self.buffer@.bytes, self.buffer@.start),
            found.0.end == units_before(self.buffer@.bytes, self.buffer@.end),
            found.1 == self.buffer@.reversed,
    {
        (self.buffer.range_to_utf16(&self.buffer.selection()), self.buffer.is_reversed())
    }

    /// The composition in progress in UTF-16 units.
    pub fn marked_text_range(&self) -> (found: Option<Range<usize>>)
        requires
            self.wf(),
        ensures
            match (self.buffer@.marked, found) {
                (Some(range), Some(units)) => units.start == units_before(
                    self.buffer@.bytes,
                    range.start,
                ) && units.end == units_before(self.buffer@.bytes, range.end),
                (None, None) => true,
                _ => false,
            },
    {
        match self.buffer.marked() {
            Some(range) => Some(self.buffer.range_to_utf16(&range)),
            None => None,
        }
    }

    /// Ends the composition in progress.
    pub fn unmark_text(&mut self)
        requires
            old(self).wf(),
        ensures
            final(self).wf(),
            final(self).is_selecting == old(self).is_selecting,
            final(self).buffer@ == (BufferView { marked: None, ..old(self).buffer@ }),
    {
        self.buffer.set_marked(None);
    }

    fn edit_range(&self, utf16: Option<Range<usize>>) -> (range: Range<usize>)
        requires
            self.wf(),
            utf16 matches Some(r) ==> r.start <= r.end,
        ensures
            range_ok(self.buffer@.bytes, range),
            edited(self.buffer@, utf16) == (range.start as int, range.end as int),
    {
        match utf16 {
            Some(r) => self.buffer.range_from_utf16(&r),
            None => match self.buffer.marked() {
                Some(range) => range,
                None => self.buffer.selection(),
            },
        }
    }

    /// Puts a text in place of a range in UTF-16 units, else of the composition in progress,
    /// else of the selection.
    pub fn replace_text_in_range(&mut self, utf16: Option<Range<usize>>, new_text: &str)
        requires
            old(self).wf(),
            utf16 matches Some(r) ==> r.start <= r.end,
        ensures
            final(self).wf(),
            final(self).is_selecting == old(self).is_selecting,
            final(self).buffer@ == old(self).buffer@.replaced(
                edited(old(self).buffer@, utf16).0,
                edited(old(self).buffer@, utf16).1,
                vstd::utf8::encode_utf8(new_text@),
            ),
    {
        let range = self.edit_range(utf16);
        self.buffer.replace(range, new_text);
    }

    /// Composes: puts a text in place of a range and marks it, and selects within it.
    pub fn replace_and_mark_text_in_range(
        &mut self,
        utf16: Option<Range<usize>>,
        new_text: &str,
        selected: Option<Range<usize>>,
    )
        requires
            old(self).wf(),
            utf16 matches Some(r) ==> r.start <= r.end,
        ensures
            final(self).wf(),
            final(self).is_selecting == old(self).is_selecting,
            final(self).buffer@ == composed(
                old(self).buffer@,
                edited(old(self).buffer@, utf16).0,
                edited(old(self).buffer@, utf16).1,
                new_text@,
                selected,
            ),
    {
        let ghost before = self.buffer@;
        let ghost enc = vstd::utf8::encode_utf8(new_text@);
        let range = self.edit_range(utf16);
        let (from, to) = (range.start, range.end);
        self.buffer.replace(range, new_text);
        let total: usize = self.buffer.text().as_bytes().len();
        let len: usize = new_text.as_bytes().len();
        let ghost whole = self.buffer@.bytes;
        proof {
            utf8::lemma_splice(before.bytes, from as int, to as int, new_text@);
            utf8::lemma_slice(whole, from as int, from + enc.len());
            assert(whole.subrange(from as int, from + enc.len()) =~= enc);
        }
        self.buffer.set_marked(
            if len == 0 {
                None
            } else {
                Some(Range { start: from, end: from + len })
            },
        );
        if let Some(range) = selected {
            // The selection is relative to the inserted text.
            let mut inserted = TextBuffer::default();
            inserted.set_text(new_text);
            proof {
                vstd::utf8::encode_utf8_decode_utf8(new_text@);
            }
            let start = inserted.offset_from_utf16(range.start);
            let end = inserted.offset_from_utf16(range.end);
            proof {
                assert(utf8::boundary(whole.subrange(from as int, from + enc.len()), start as int));
                assert(utf8::boundary(whole.subrange(from as int, from + enc.len()), end as int));
            }
            self.buffer.move_to(from + start);
            self.buffer.select_to(from + end);
        }
    }

    // -----------------------------------------------------------------------
    // Layout.

    /// What the editor shows.
    pub fn plan(&self) -> (plan: EditorPlan)
        requires
            self.wf(),
        ensures
            ({
                let b = self.buffer@;
                let lines = b.lines();
                &&& plan.lines@.len() == lines.len()
                &&& forall|i: int|
                    0 <= i < lines.len() ==> plans_line(b, lines[i], #[trigger] plan.lines@[i])
                &&& match plan.cursor {
                    Some((line, column)) => b.start == b.end && line == b.line_of(b.cursor())
                        && column == b.cursor() - lines[b.line_of(b.cursor())].start,
                    None => b.start < b.end,
                }
                &&& plan.height == (if lines.len() < MIN_LINES {
                    MIN_LINES as nat
                } else {
                    lines.len()
                })
                &&& plan.placeholder == (b.bytes.len() == 0)
            }),
    {
        let ghost b = self.buffer@;
        let total: usize = self.buffer.text().as_bytes().len();
        let ranges = self.buffer.lines();
        let marked = self.buffer.marked();
        let selection = self.buffer.selection();
        let (start, end) = (selection.start, selection.end);
        let mut lines: Vec<LinePlan> = Vec::new();
        let mut i: usize = 0;
        proof {
            utf8::lemma_ends(b.bytes);
        }
        while i < ranges.len()
            invariant
                i <= ranges@.len(),
                ranges@ == b.lines(),
                b == self.buffer@,
                b.bytes.len() == total,
                utf8::boundary(b.bytes, 0),
                marked == b.marked,
                start == b.start,
                end == b.end,
                lines@.len() == i,
                forall|j: int| 0 <= j < i ==> plans_line(b, ranges@[j], #[trigger] lines@[j]),
            decreases ranges.len() - i,
        {
            proof {
                text_buffer::lemma_line_boundaries(b.bytes, 0, 0, i as int);
            }
            let range = Range { start: ranges[i].start, end: ranges[i].end };
            lines.push(plan_line(range, &marked, start, end));
            i = i + 1;
        }
        let cursor = if start == end {
            let offset = self.buffer.cursor();
            proof {
                utf8::lemma_boundary_range(b.bytes, offset as int);
                text_buffer::lemma_line_holds(b.bytes, 0, 0, offset as int);
            }
            let line = self.buffer.line_of(offset);
            Some((line, offset - ranges[line].start))
        } else {
            None
        };
        let count: usize = lines.len();
        EditorPlan {
            lines,
            cursor,
            height: if count < MIN_LINES {
                MIN_LINES
            } else {
                count
            },
            placeholder: total == 0,
        }
    }
}

/// Cutting takes out what was selected and nothing else, where nothing is being composed.
pub proof fn law_cutting_removes_the_selection(b: BufferView)
    requires
        b.wf(),
        b.marked is None,
    ensures
        b.replaced(edited(b, None).0, edited(b, None).1, seq![]).bytes == b.bytes.subrange(
            0,
            b.start as int,
        ) + b.bytes.subrange(b.end as int, b.bytes.len() as int),
{
    assert(b.replaced(edited(b, None).0, edited(b, None).1, seq![]).bytes =~= b.bytes.subrange(
        0,
        b.start as int,
    ) + b.bytes.subrange(b.end as int, b.bytes.len() as int));
}

/// A text without carriage returns is pasted as it is.
pub proof fn law_text_without_returns_is_pasted_as_it_is(text: Seq<char>)
    requires
        !text.contains('\r'),
    ensures
        unix_lines(text) == text,
    decreases text.len(),
{
    if text.len() > 0 {
        let rest = text.drop_first();
        assert(text[0] != '\r');
        assert(!rest.contains('\r')) by {
            if rest.contains('\r') {
                let k = rest.index_of('\r');
                assert(text[k + 1] == '\r');
            }
        }
        law_text_without_returns_is_pasted_as_it_is(rest);
        assert(seq![text[0]] + rest =~= text);
    }
}

} // verus!
