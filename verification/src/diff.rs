//! Line diffs with git-compatible hunks.
//!
//! Diffs are computed over raw bytes (lines include their terminator, as git does), so a
//! change in line endings or a missing final newline is a real change, and the output can
//! be turned back into a patch that `git apply` accepts.
use vstd::prelude::*;

use std::ops::Range;

use crate::bytes::{append, append_str, push_signed_decimal, CR, LF};

verus! {

/// Lines of context around each change, matching git's default `-U3`.
pub const DEFAULT_CONTEXT: u32 = 3;

/// git treats a file as binary if its first 8000 bytes contain a NUL.
pub const BINARY_SNIFF_LEN: usize = 8000;

/// Maximum length of a hunk header's function context, as in git.
pub const FUNC_CONTEXT_MAX: usize = 80;

/// Upper limit (exclusive) on the number of lines of either side of a diff.
pub const MAX_LINES: usize = 0x7fff_ffff;

/// Whether a NUL stands among the first [`BINARY_SNIFF_LEN`] bytes.
pub open spec fn binary_content(bytes: Seq<u8>) -> bool {
    exists|i: int| 0 <= i < bytes.len() && i < BINARY_SNIFF_LEN && bytes[i] == 0u8
}

/// Whether git would treat a file with this content as binary.
pub fn is_binary(bytes: &[u8]) -> (result: bool)
    ensures
        result == binary_content(bytes@),
{
    let mut i: usize = 0;
    while i < bytes.len() && i < BINARY_SNIFF_LEN
        invariant
            i <= bytes.len(),
            i <= BINARY_SNIFF_LEN,
            forall|j: int| 0 <= j < i ==> bytes@[j] != 0u8,
        decreases bytes.len() - i,
    {
        if bytes[i] == 0 {
            return true;
        }
        i = i + 1;
    }
    false
}

// ---------------------------------------------------------------------------
// Lines of a text.

/// End of the line that position `p` lies in: just past its line feed, or the end of the
/// text.
pub open spec fn line_end(bytes: Seq<u8>, p: int) -> int
    decreases bytes.len() - p,
{
    if p >= bytes.len() {
        bytes.len() as int
    } else if bytes[p] == LF {
        p + 1
    } else {
        line_end(bytes, p + 1)
    }
}

/// A line is not empty and ends within the text; a line feed stands only at its end.
pub proof fn lemma_line_end(bytes: Seq<u8>, p: int)
    requires
        0 <= p < bytes.len(),
    ensures
        p < line_end(bytes, p) <= bytes.len(),
        line_end(bytes, p) < bytes.len() ==> bytes[line_end(bytes, p) - 1] == LF,
        forall|i: int| p <= i < line_end(bytes, p) - 1 ==> bytes[i] != LF,
    decreases bytes.len() - p,
{
    if bytes[p] != LF {
        if p + 1 < bytes.len() {
            lemma_line_end(bytes, p + 1);
        } else {
            assert(line_end(bytes, p + 1) == bytes.len());
        }
    }
}

/// Where the lines of a text start, from position `p` on.
pub open spec fn starts_from(bytes: Seq<u8>, p: int) -> Seq<int>
    decreases bytes.len() - p,
{
    if p < 0 || p >= bytes.len() {
        Seq::empty()
    } else {
        proof {
            lemma_line_end(bytes, p);
        }
        seq![p] + starts_from(bytes, line_end(bytes, p))
    }
}

/// The lines of a text from position `p` on, each with its terminator.
pub open spec fn lines_from(bytes: Seq<u8>, p: int) -> Seq<Seq<u8>>
    decreases bytes.len() - p,
{
    if p < 0 || p >= bytes.len() {
        Seq::empty()
    } else {
        proof {
            lemma_line_end(bytes, p);
        }
        seq![bytes.subrange(p, line_end(bytes, p))] + lines_from(bytes, line_end(bytes, p))
    }
}

/// The lines of a text, each with its terminator.
pub open spec fn lines_of(bytes: Seq<u8>) -> Seq<Seq<u8>> {
    lines_from(bytes, 0)
}

/// Where line `ix` of a text starts.
pub open spec fn line_start(bytes: Seq<u8>, ix: int) -> int {
    starts_from(bytes, 0)[ix]
}

/// Each line has one start, and the first line starts where the text does.
proof fn lemma_starts(bytes: Seq<u8>, p: int)
    requires
        0 <= p,
    ensures
        starts_from(bytes, p).len() == lines_from(bytes, p).len(),
        starts_from(bytes, p).len() <= bytes.len(),
        p < bytes.len() ==> starts_from(bytes, p).len() > 0 && starts_from(bytes, p)[0] == p,
    decreases bytes.len() - p,
{
    if p < bytes.len() {
        let e = line_end(bytes, p);
        lemma_line_end(bytes, p);
        lemma_starts(bytes, e);
        lemma_starts_bound(bytes, p);
    }
}

/// There are no more lines than bytes.
proof fn lemma_starts_bound(bytes: Seq<u8>, p: int)
    requires
        0 <= p <= bytes.len(),
    ensures
        starts_from(bytes, p).len() <= bytes.len() - p,
    decreases bytes.len() - p,
{
    if p < bytes.len() {
        lemma_line_end(bytes, p);
        lemma_starts_bound(bytes, line_end(bytes, p));
    }
}

/// Starts and lines correspond: each line reaches from its start to the next one.
proof fn lemma_start_at(bytes: Seq<u8>, p: int, k: int)
    requires
        0 <= p,
        0 <= k < starts_from(bytes, p).len(),
    ensures
        starts_from(bytes, p).len() == lines_from(bytes, p).len(),
        p <= starts_from(bytes, p)[k] < bytes.len(),
        lines_from(bytes, p)[k] == bytes.subrange(
            starts_from(bytes, p)[k],
            line_end(bytes, starts_from(bytes, p)[k]),
        ),
        line_end(bytes, starts_from(bytes, p)[k]) == (if k + 1 < starts_from(bytes, p).len() {
            starts_from(bytes, p)[k + 1]
        } else {
            bytes.len() as int
        }),
    decreases bytes.len() - p,
{
    let e = line_end(bytes, p);
    lemma_starts(bytes, p);
    lemma_line_end(bytes, p);
    lemma_starts(bytes, e);
    let rest = starts_from(bytes, e);
    assert(starts_from(bytes, p) == seq![p] + rest);
    if k > 0 {
        lemma_start_at(bytes, e, k - 1);
        assert(starts_from(bytes, p)[k] == rest[k - 1]);
        if k + 1 < starts_from(bytes, p).len() {
            assert(starts_from(bytes, p)[k + 1] == rest[k]);
        }
    } else if rest.len() > 0 {
        assert(starts_from(bytes, p)[1] == rest[0]);
    }
}

/// Line `ix` reaches from its start to the start of the next line, or to the end of the
/// text.
pub proof fn lemma_line(bytes: Seq<u8>, ix: int)
    requires
        0 <= ix < lines_of(bytes).len(),
    ensures
        starts_from(bytes, 0).len() == lines_of(bytes).len(),
        0 <= line_start(bytes, ix) < line_end(bytes, line_start(bytes, ix)) <= bytes.len(),
        lines_of(bytes)[ix] == bytes.subrange(
            line_start(bytes, ix),
            line_end(bytes, line_start(bytes, ix)),
        ),
        line_end(bytes, line_start(bytes, ix)) == (if ix + 1 < lines_of(bytes).len() {
            line_start(bytes, ix + 1)
        } else {
            bytes.len() as int
        }),
        ix + 1 < lines_of(bytes).len() ==> lines_of(bytes)[ix].last() == LF,
{
    lemma_starts(bytes, 0);
    lemma_start_at(bytes, 0, ix);
    lemma_line_end(bytes, starts_from(bytes, 0)[ix]);
    if ix + 1 < lines_of(bytes).len() {
        lemma_start_at(bytes, 0, ix + 1);
    }
}

/// The lines of a text put together again are the text.
pub proof fn lemma_lines_flatten(bytes: Seq<u8>, p: int)
    requires
        0 <= p <= bytes.len(),
    ensures
        lines_from(bytes, p).flatten() == bytes.subrange(p, bytes.len() as int),
    decreases bytes.len() - p,
{
    if p < bytes.len() {
        let e = line_end(bytes, p);
        lemma_line_end(bytes, p);
        lemma_lines_flatten(bytes, e);
        let all = lines_from(bytes, p);
        assert(all.drop_first() =~= lines_from(bytes, e));
        assert(all.flatten() == all[0] + lines_from(bytes, e).flatten());
        assert(all.flatten() =~= bytes.subrange(p, bytes.len() as int));
    } else {
        assert(lines_from(bytes, p).flatten() =~= bytes.subrange(p, bytes.len() as int));
    }
}

/// File contents with a line index. Lines are byte ranges that include their terminator.
#[derive(Debug)]
pub struct Text {
    bytes: Vec<u8>,
    line_starts: Vec<usize>,
}

impl View for Text {
    type V = Seq<u8>;

    closed spec fn view(&self) -> Seq<u8> {
        self.bytes@
    }
}

impl Text {
    #[verifier::type_invariant]
    spec fn indexed(self) -> bool {
        &&& self.line_starts@.len() == starts_from(self.bytes@, 0).len()
        &&& forall|k: int|
            0 <= k < self.line_starts@.len() ==> self.line_starts@[k] == #[trigger] starts_from(
                self.bytes@,
                0,
            )[k]
    }

    /// Indexes the lines of a file's content.
    pub fn new(bytes: Vec<u8>) -> (text: Self)
        ensures
            text@ == bytes@,
    {
        let mut line_starts: Vec<usize> = Vec::new();
        let mut at: usize = 0;
        let ghost all = starts_from(bytes@, 0);
        while at < bytes.len()
            invariant
                at <= bytes@.len(),
                all == starts_from(bytes@, 0),
                line_starts@.map_values(|s: usize| s as int) + starts_from(bytes@, at as int)
                    == all,
            decreases bytes.len() - at,
        {
            let ghost before = line_starts@;
            let start = at;
            proof {
                lemma_line_end(bytes@, at as int);
            }
            while at < bytes.len() && bytes[at] != LF
                invariant
                    start <= at <= bytes@.len(),
                    line_end(bytes@, at as int) == line_end(bytes@, start as int),
                decreases bytes.len() - at,
            {
                at = at + 1;
            }
            if at < bytes.len() {
                at = at + 1;
            }
            assert(at == line_end(bytes@, start as int));
            line_starts.push(start);
            assert(line_starts@.map_values(|s: usize| s as int) =~= before.map_values(
                |s: usize| s as int,
            ) + seq![start as int]);
            assert(starts_from(bytes@, start as int) == seq![start as int] + starts_from(
                bytes@,
                at as int,
            ));
            assert(line_starts@.map_values(|s: usize| s as int) + starts_from(bytes@, at as int)
                =~= all);
        }
        assert(line_starts@.map_values(|s: usize| s as int) =~= all);
        assert forall|k: int| 0 <= k < line_starts@.len() implies line_starts@[k]
            == #[trigger] all[k] by {
            assert(line_starts@.map_values(|s: usize| s as int)[k] == line_starts@[k]);
        }
        Text { bytes, line_starts }
    }

    /// The whole content.
    pub fn bytes(&self) -> (bytes: &[u8])
        ensures
            bytes@ == self@,
    {
        self.bytes.as_slice()
    }

    /// How many lines the content has.
    pub fn line_count(&self) -> (count: usize)
        ensures
            count == lines_of(self@).len(),
    {
        proof {
            use_type_invariant(self);
            lemma_starts(self@, 0);
        }
        self.line_starts.len()
    }

    /// Byte range of line `ix` (0-based), including its terminator.
    pub fn line_range(&self, ix: usize) -> (range: Range<usize>)
        requires
            ix < lines_of(self@).len(),
        ensures
            range.start == line_start(self@, ix as int),
            range.end == line_end(self@, line_start(self@, ix as int)),
            range.start < range.end <= self@.len(),
            self@.subrange(range.start as int, range.end as int) == lines_of(self@)[ix as int],
    {
        proof {
            use_type_invariant(self);
            lemma_line(self@, ix as int);
        }
        let start: usize = self.line_starts[ix];
        assert(start == starts_from(self@, 0)[ix as int]);
        let count: usize = self.line_starts.len();
        let end: usize = if ix + 1 < count {
            assert(self.line_starts@[ix + 1] == starts_from(self@, 0)[ix + 1]);
            self.line_starts[ix + 1]
        } else {
            self.bytes.len()
        };
        Range { start, end }
    }

    /// Line `ix` (0-based), including its terminator.
    pub fn line(&self, ix: usize) -> (line: &[u8])
        requires
            ix < lines_of(self@).len(),
        ensures
            line@ == lines_of(self@)[ix as int],
    {
        let range = self.line_range(ix);
        vstd::slice::slice_subrange(self.bytes.as_slice(), range.start, range.end)
    }
}

// ---------------------------------------------------------------------------
// Diff lines and hunks.

#[derive(Debug, Clone, Copy, PartialEq, Eq, Structural)]
pub enum LineKind {
    Context,
    Added,
    Removed,
}

#[derive(Debug, PartialEq, Eq)]
pub struct DiffLine {
    pub kind: LineKind,
    /// 1-based line number in the old text (context and removed lines).
    pub old_no: Option<u32>,
    /// 1-based line number in the new text (context and added lines).
    pub new_no: Option<u32>,
    /// Byte range of the line's content without its terminator, in the old text for
    /// removed lines and in the new text otherwise.
    pub content: Range<usize>,
    /// The line is the last line of its file and has no terminating newline.
    pub no_newline: bool,
}

#[derive(Debug, PartialEq, Eq)]
pub struct Hunk {
    pub old_start: u32,
    pub old_len: u32,
    pub new_start: u32,
    pub new_len: u32,
    /// Byte range in the old text of the nearest preceding "function" line, shown after
    /// the `@@` header the way git does.
    pub func_context: Option<Range<usize>>,
    /// Range into [`FileDiff::lines`].
    pub lines: Range<usize>,
}

/// One change of an edit script: the old lines `old_start..old_end` are replaced by the
/// new lines `new_start..new_end` (0-based).
#[derive(Debug, Clone, Copy, PartialEq, Eq, Structural)]
pub struct Change {
    pub old_start: u32,
    pub old_end: u32,
    pub new_start: u32,
    pub new_end: u32,
}

/// Length of a line without its terminator (`\n` or `\r\n`).
pub open spec fn content_len(line: Seq<u8>) -> int {
    if line.len() >= 2 && line[line.len() - 2] == CR && line.last() == LF {
        line.len() - 2
    } else if line.len() >= 1 && line.last() == LF {
        line.len() - 1
    } else {
        line.len() as int
    }
}

/// Whether a line ends in a line feed.
pub open spec fn has_newline(line: Seq<u8>) -> bool {
    line.len() > 0 && line.last() == LF
}

/// Byte range of the content of line `ix`.
pub open spec fn content_of(text: Seq<u8>, ix: int) -> Range<usize> {
    Range {
        start: line_start(text, ix) as usize,
        end: (line_start(text, ix) + content_len(lines_of(text)[ix])) as usize,
    }
}

/// The diff line for line `o` of the old text, which is line `n` of the new text.
pub open spec fn context_line(new: Seq<u8>, o: int, n: int) -> DiffLine {
    DiffLine {
        kind: LineKind::Context,
        old_no: Some((o + 1) as u32),
        new_no: Some((n + 1) as u32),
        content: content_of(new, n),
        no_newline: !has_newline(lines_of(new)[n]),
    }
}

/// The diff line for line `o` of the old text, which the new text lacks.
pub open spec fn removed_line(old: Seq<u8>, o: int) -> DiffLine {
    DiffLine {
        kind: LineKind::Removed,
        old_no: Some((o + 1) as u32),
        new_no: None,
        content: content_of(old, o),
        no_newline: !has_newline(lines_of(old)[o]),
    }
}

/// The diff line for line `n` of the new text, which the old text lacks.
pub open spec fn added_line(new: Seq<u8>, n: int) -> DiffLine {
    DiffLine {
        kind: LineKind::Added,
        old_no: None,
        new_no: Some((n + 1) as u32),
        content: content_of(new, n),
        no_newline: !has_newline(lines_of(new)[n]),
    }
}

/// The `count` old lines from `o` on are the new lines from `n` on.
pub open spec fn same_lines(old: Seq<u8>, new: Seq<u8>, o: int, n: int, count: int) -> bool {
    &&& 0 <= count
    &&& 0 <= o
    &&& 0 <= n
    &&& o + count <= lines_of(old).len()
    &&& n + count <= lines_of(new).len()
    &&& forall|k: int|
        #![trigger lines_of(old)[o + k]]
        0 <= k < count ==> lines_of(old)[o + k] == lines_of(new)[n + k]
}

/// Whether the changes from index `i` on turn the rest of the old lines, from `o` on, into
/// the rest of the new lines, from `n` on. Between two changes stands at least one line
/// that both sides share.
pub open spec fn script_from(
    old: Seq<u8>,
    new: Seq<u8>,
    changes: Seq<Change>,
    i: int,
    o: int,
    n: int,
) -> bool
    decreases changes.len() - i,
{
    if i >= changes.len() {
        &&& same_lines(old, new, o, n, lines_of(old).len() - o)
        &&& lines_of(old).len() - o == lines_of(new).len() - n
    } else {
        let c = changes[i];
        &&& same_lines(old, new, o, n, c.old_start - o)
        &&& c.old_start - o == c.new_start - n
        &&& i > 0 ==> c.old_start > o
        &&& c.old_start <= c.old_end <= lines_of(old).len()
        &&& c.new_start <= c.new_end <= lines_of(new).len()
        &&& c.old_start < c.old_end || c.new_start < c.new_end
        &&& script_from(old, new, changes, i + 1, c.old_end as int, c.new_end as int)
    }
}

/// Whether the changes are an edit script: applied in order they turn the old text's lines
/// into the new text's lines.
pub open spec fn edit_script(old: Seq<u8>, new: Seq<u8>, changes: Seq<Change>) -> bool {
    script_from(old, new, changes, 0, 0, 0)
}

/// A run of `count` context lines.
pub open spec fn context_run(new: Seq<u8>, o: int, n: int, count: int) -> Seq<DiffLine> {
    Seq::new(count as nat, |k: int| context_line(new, o + k, n + k))
}

/// The old lines `from..to` as removed lines.
pub open spec fn removed_run(old: Seq<u8>, from: int, to: int) -> Seq<DiffLine> {
    Seq::new((to - from) as nat, |k: int| removed_line(old, from + k))
}

/// The new lines `from..to` as added lines.
pub open spec fn added_run(new: Seq<u8>, from: int, to: int) -> Seq<DiffLine> {
    Seq::new((to - from) as nat, |k: int| added_line(new, from + k))
}

/// A change as diff lines: what it removes, then what it adds.
pub open spec fn change_lines(old: Seq<u8>, new: Seq<u8>, c: Change) -> Seq<DiffLine> {
    removed_run(old, c.old_start as int, c.old_end as int) + added_run(
        new,
        c.new_start as int,
        c.new_end as int,
    )
}

/// The changes `a..b` as diff lines, with the shared lines between them.
pub open spec fn changes_lines(
    old: Seq<u8>,
    new: Seq<u8>,
    changes: Seq<Change>,
    a: int,
    b: int,
) -> Seq<DiffLine>
    decreases b - a,
{
    if a >= b {
        Seq::empty()
    } else if a + 1 == b {
        change_lines(old, new, changes[a])
    } else {
        change_lines(old, new, changes[a]) + context_run(
            new,
            changes[a].old_end as int,
            changes[a].new_end as int,
            changes[a + 1].old_start - changes[a].old_end,
        ) + changes_lines(old, new, changes, a + 1, b)
    }
}

/// End of the group of changes that starts at `a`: changes are shown in one hunk where
/// their context would touch or overlap (git: gap <= 2 * context).
pub open spec fn group_end(changes: Seq<Change>, a: int, context: int) -> int
    decreases changes.len() - a,
{
    if a + 1 < changes.len() && changes[a + 1].old_start - changes[a].old_end <= 2 * context {
        group_end(changes, a + 1, context)
    } else {
        a + 1
    }
}

/// How many lines of context stand before the change `c`.
pub open spec fn lead_of(c: Change, context: int) -> int {
    if c.old_start < context {
        c.old_start as int
    } else {
        context
    }
}

/// How many lines of context stand after the change `c`.
pub open spec fn trail_of(old: Seq<u8>, c: Change, context: int) -> int {
    if lines_of(old).len() - c.old_end < context {
        lines_of(old).len() - c.old_end
    } else {
        context
    }
}

/// The diff lines of the hunk that shows the changes `a..b`.
pub open spec fn hunk_lines(
    old: Seq<u8>,
    new: Seq<u8>,
    changes: Seq<Change>,
    a: int,
    b: int,
    context: int,
) -> Seq<DiffLine> {
    let first = changes[a];
    let last = changes[b - 1];
    let lead = lead_of(first, context);
    context_run(new, first.old_start - lead, first.new_start - lead, lead) + changes_lines(
        old,
        new,
        changes,
        a,
        b,
    ) + context_run(new, last.old_end as int, last.new_end as int, trail_of(old, last, context))
}

/// git's default function-name heuristic: a line starting with a letter, `_`, or `$`.
pub open spec fn func_line(line: Seq<u8>) -> bool {
    line.len() > 0 && (65 <= line[0] <= 90 || 97 <= line[0] <= 122 || line[0] == 95 || line[0]
        == 36)
}

/// The nearest function line before line `before`.
pub open spec fn last_func_line(lines: Seq<Seq<u8>>, before: int) -> Option<int>
    decreases before,
{
    if before <= 0 {
        None
    } else if func_line(lines[before - 1]) {
        Some(before - 1)
    } else {
        last_func_line(lines, before - 1)
    }
}

/// Space, tab, line feed, form feed or carriage return.
pub open spec fn ascii_space(b: u8) -> bool {
    b == 32 || b == 9 || b == 10 || b == 12 || b == 13
}

/// The largest `m <= n` such that the first `m` bytes do not end in white space.
pub open spec fn trimmed_len(line: Seq<u8>, n: int) -> int
    decreases n,
{
    if n > 0 && ascii_space(line[n - 1]) {
        trimmed_len(line, n - 1)
    } else {
        n
    }
}

/// Byte range of a function line as a hunk header shows it: its first
/// [`FUNC_CONTEXT_MAX`] bytes without trailing white space.
pub open spec fn func_context_of(text: Seq<u8>, ix: int) -> Range<usize> {
    let line = lines_of(text)[ix];
    let len = if line.len() < FUNC_CONTEXT_MAX {
        line.len() as int
    } else {
        FUNC_CONTEXT_MAX as int
    };
    Range {
        start: line_start(text, ix) as usize,
        end: (line_start(text, ix) + trimmed_len(line, len)) as usize,
    }
}

/// The number a hunk header gives for a side that starts at line `from` (0-based): git
/// names the line before the hunk when the hunk is empty on that side.
pub open spec fn header_line(from: int, len: int) -> int {
    if len == 0 {
        from
    } else {
        from + 1
    }
}

/// The hunk that shows the changes `a..b`; its lines start at `at`.
pub open spec fn hunk_of(
    old: Seq<u8>,
    new: Seq<u8>,
    changes: Seq<Change>,
    a: int,
    b: int,
    context: int,
    at: int,
) -> Hunk {
    let first = changes[a];
    let last = changes[b - 1];
    let lead = lead_of(first, context);
    let trail = trail_of(old, last, context);
    let old_from = first.old_start - lead;
    let new_from = first.new_start - lead;
    let old_len = last.old_end + trail - old_from;
    let new_len = last.new_end + trail - new_from;
    Hunk {
        old_start: header_line(old_from, old_len) as u32,
        old_len: old_len as u32,
        new_start: header_line(new_from, new_len) as u32,
        new_len: new_len as u32,
        func_context: match last_func_line(lines_of(old), old_from) {
            Some(l) => Some(func_context_of(old, l)),
            None => None,
        },
        lines: Range {
            start: at as usize,
            end: (at + hunk_lines(old, new, changes, a, b, context).len()) as usize,
        },
    }
}

/// A group holds at least one change.
pub proof fn lemma_group_end(changes: Seq<Change>, a: int, context: int)
    requires
        a < changes.len(),
    ensures
        a < group_end(changes, a, context) <= changes.len(),
    decreases changes.len() - a,
{
    if a + 1 < changes.len() && changes[a + 1].old_start - changes[a].old_end <= 2 * context {
        lemma_group_end(changes, a + 1, context);
    }
}

/// The diff lines of all hunks from the group that starts at `a` on.
pub open spec fn diff_lines(
    old: Seq<u8>,
    new: Seq<u8>,
    changes: Seq<Change>,
    a: int,
    context: int,
) -> Seq<DiffLine>
    decreases changes.len() - a,
{
    if a >= changes.len() {
        Seq::empty()
    } else {
        proof {
            lemma_group_end(changes, a, context);
        }
        let b = group_end(changes, a, context);
        hunk_lines(old, new, changes, a, b, context) + diff_lines(old, new, changes, b, context)
    }
}

/// The hunks from the group that starts at `a` on; their lines start at `at`.
pub open spec fn diff_hunks(
    old: Seq<u8>,
    new: Seq<u8>,
    changes: Seq<Change>,
    a: int,
    context: int,
    at: int,
) -> Seq<Hunk>
    decreases changes.len() - a,
{
    if a >= changes.len() {
        Seq::empty()
    } else {
        proof {
            lemma_group_end(changes, a, context);
        }
        let b = group_end(changes, a, context);
        seq![hunk_of(old, new, changes, a, b, context, at)] + diff_hunks(
            old,
            new,
            changes,
            b,
            context,
            at + hunk_lines(old, new, changes, a, b, context).len(),
        )
    }
}

/// How many of the lines stand on the old side.
pub open spec fn old_count(lines: Seq<DiffLine>) -> int
    decreases lines.len(),
{
    if lines.len() == 0 {
        0
    } else {
        (if lines[0].kind == LineKind::Added {
            0int
        } else {
            1
        }) + old_count(lines.drop_first())
    }
}

/// How many of the lines stand on the new side.
pub open spec fn new_count(lines: Seq<DiffLine>) -> int
    decreases lines.len(),
{
    if lines.len() == 0 {
        0
    } else {
        (if lines[0].kind == LineKind::Removed {
            0int
        } else {
            1
        }) + new_count(lines.drop_first())
    }
}

/// Whether the diff lines lead through the two texts from line `o` of the old one and
/// line `n` of the new one: context lines are on both sides and the same there, removed
/// lines are the next old lines, added lines the next new lines.
pub open spec fn walks(old: Seq<u8>, new: Seq<u8>, lines: Seq<DiffLine>, o: int, n: int) -> bool
    decreases lines.len(),
{
    if lines.len() == 0 {
        true
    } else {
        let rest = lines.drop_first();
        match lines[0].kind {
            LineKind::Context => {
                &&& 0 <= o < lines_of(old).len()
                &&& 0 <= n < lines_of(new).len()
                &&& lines[0] == context_line(new, o, n)
                &&& lines_of(old)[o] == lines_of(new)[n]
                &&& walks(old, new, rest, o + 1, n + 1)
            },
            LineKind::Removed => {
                &&& 0 <= o < lines_of(old).len()
                &&& lines[0] == removed_line(old, o)
                &&& walks(old, new, rest, o + 1, n)
            },
            LineKind::Added => {
                &&& 0 <= n < lines_of(new).len()
                &&& lines[0] == added_line(new, n)
                &&& walks(old, new, rest, o, n + 1)
            },
        }
    }
}

impl Hunk {
    /// 0-based first line of the hunk's old side.
    pub open spec fn old_from(self) -> int {
        if self.old_len == 0 {
            self.old_start as int
        } else {
            self.old_start - 1
        }
    }

    /// 0-based first line of the hunk's new side.
    pub open spec fn new_from(self) -> int {
        if self.new_len == 0 {
            self.new_start as int
        } else {
            self.new_start - 1
        }
    }

    /// The hunk's lines.
    pub open spec fn body(self, lines: Seq<DiffLine>) -> Seq<DiffLine> {
        lines.subrange(self.lines.start as int, self.lines.end as int)
    }
}

/// Whether the hunks from index `i` on, whose lines start at `at`, lead through the rest
/// of the two texts, from line `o` of the old one and line `n` of the new one: what lies
/// between hunks is the same on both sides, and within a hunk its lines lead through both.
pub open spec fn hunks_walk(
    old: Seq<u8>,
    new: Seq<u8>,
    hunks: Seq<Hunk>,
    lines: Seq<DiffLine>,
    i: int,
    o: int,
    n: int,
    at: int,
) -> bool
    decreases hunks.len() - i,
{
    if i >= hunks.len() {
        &&& at == lines.len()
        &&& same_lines(old, new, o, n, lines_of(old).len() - o)
        &&& lines_of(old).len() - o == lines_of(new).len() - n
    } else {
        let h = hunks[i];
        &&& h.old_from() - o == h.new_from() - n
        &&& same_lines(old, new, o, n, h.old_from() - o)
        &&& h.lines.start == at
        &&& at <= h.lines.end <= lines.len()
        &&& walks(old, new, h.body(lines), h.old_from(), h.new_from())
        &&& h.old_len == old_count(h.body(lines))
        &&& h.new_len == new_count(h.body(lines))
        &&& h.func_context matches Some(r) ==> r.start <= r.end <= old.len()
        &&& h.old_from() + h.old_len <= lines_of(old).len()
        &&& h.new_from() + h.new_len <= lines_of(new).len()
        &&& hunks_walk(
            old,
            new,
            hunks,
            lines,
            i + 1,
            h.old_from() + h.old_len,
            h.new_from() + h.new_len,
            h.lines.end as int,
        )
    }
}

#[derive(Debug)]
pub struct FileDiff {
    pub old: Text,
    pub new: Text,
    pub hunks: Vec<Hunk>,
    pub lines: Vec<DiffLine>,
}

impl FileDiff {
    /// The hunks and lines show how the old text differs from the new one: everything
    /// outside the hunks is the same on both sides, and each hunk's lines lead through
    /// both.
    pub open spec fn wf(self) -> bool {
        &&& lines_of(self.old@).len() < MAX_LINES
        &&& lines_of(self.new@).len() < MAX_LINES
        &&& hunks_walk(self.old@, self.new@, self.hunks@, self.lines@, 0, 0, 0, 0)
    }
}

// ---------------------------------------------------------------------------
// Computing a diff.

fn ends_with_newline(line: &[u8]) -> (result: bool)
    ensures
        result == has_newline(line@),
{
    line.len() > 0 && line[line.len() - 1] == LF
}

fn content_range(text: &Text, ix: usize) -> (range: Range<usize>)
    requires
        ix < lines_of(text@).len(),
    ensures
        range == content_of(text@, ix as int),
{
    let range = text.line_range(ix);
    let line = text.line(ix);
    let len: usize = line.len();
    let trim: usize = if len >= 2 && line[len - 2] == CR && line[len - 1] == LF {
        2
    } else if len >= 1 && line[len - 1] == LF {
        1
    } else {
        0
    };
    Range { start: range.start, end: range.end - trim }
}

fn is_func_line(line: &[u8]) -> (result: bool)
    ensures
        result == func_line(line@),
{
    if line.len() == 0 {
        return false;
    }
    let b: u8 = line[0];
    (65 <= b && b <= 90) || (97 <= b && b <= 122) || b == 95 || b == 36
}

/// Trimming stops within the bytes it starts from.
pub proof fn lemma_trimmed_len(line: Seq<u8>, n: int)
    requires
        0 <= n,
    ensures
        0 <= trimmed_len(line, n) <= n,
    decreases n,
{
    if n > 0 && ascii_space(line[n - 1]) {
        lemma_trimmed_len(line, n - 1);
    }
}

fn func_context_range(text: &Text, ix: usize) -> (range: Range<usize>)
    requires
        ix < lines_of(text@).len(),
    ensures
        range == func_context_of(text@, ix as int),
        range.start <= range.end <= text@.len(),
{
    let range = text.line_range(ix);
    let line = text.line(ix);
    let mut len: usize = if line.len() < FUNC_CONTEXT_MAX {
        line.len()
    } else {
        FUNC_CONTEXT_MAX
    };
    let ghost full = len as int;
    while len > 0 && (line[len - 1] == 32 || line[len - 1] == 9 || line[len - 1] == 10 || line[len
        - 1] == 12 || line[len - 1] == 13)
        invariant
            len <= full <= line@.len(),
            trimmed_len(line@, len as int) == trimmed_len(line@, full),
        decreases len,
    {
        len = len - 1;
    }
    Range { start: range.start, end: range.start + len }
}

/// git prints the line before the hunk when the hunk is empty on that side.
fn header_start(from: usize, len: usize) -> (start: u32)
    requires
        from < MAX_LINES,
    ensures
        start == header_line(from as int, len as int),
{
    if len == 0 {
        from as u32
    } else {
        from as u32 + 1
    }
}

fn push_context_run(lines: &mut Vec<DiffLine>, new: &Text, o: usize, n: usize, count: usize)
    requires
        o + count < MAX_LINES,
        n + count <= lines_of(new@).len() < MAX_LINES,
    ensures
        final(lines)@ == old(lines)@ + context_run(new@, o as int, n as int, count as int),
{
    let mut k: usize = 0;
    let ghost before = lines@;
    while k < count
        invariant
            k <= count,
            o + count < MAX_LINES,
            n + count <= lines_of(new@).len() < MAX_LINES,
            lines@ == before + context_run(new@, o as int, n as int, k as int),
        decreases count - k,
    {
        lines.push(
            DiffLine {
                kind: LineKind::Context,
                old_no: Some((o + k) as u32 + 1),
                new_no: Some((n + k) as u32 + 1),
                content: content_range(new, n + k),
                no_newline: !ends_with_newline(new.line(n + k)),
            },
        );
        k = k + 1;
        assert(lines@ =~= before + context_run(new@, o as int, n as int, k as int));
    }
}

fn push_removed_run(lines: &mut Vec<DiffLine>, old_text: &Text, from: usize, to: usize)
    requires
        from <= to <= lines_of(old_text@).len() < MAX_LINES,
    ensures
        final(lines)@ == old(lines)@ + removed_run(old_text@, from as int, to as int),
{
    let mut ix: usize = from;
    let ghost before = lines@;
    while ix < to
        invariant
            from <= ix <= to <= lines_of(old_text@).len() < MAX_LINES,
            lines@ == before + removed_run(old_text@, from as int, ix as int),
        decreases to - ix,
    {
        lines.push(
            DiffLine {
                kind: LineKind::Removed,
                old_no: Some(ix as u32 + 1),
                new_no: None,
                content: content_range(old_text, ix),
                no_newline: !ends_with_newline(old_text.line(ix)),
            },
        );
        ix = ix + 1;
        assert(lines@ =~= before + removed_run(old_text@, from as int, ix as int));
    }
}

fn push_added_run(lines: &mut Vec<DiffLine>, new: &Text, from: usize, to: usize)
    requires
        from <= to <= lines_of(new@).len() < MAX_LINES,
    ensures
        final(lines)@ == old(lines)@ + added_run(new@, from as int, to as int),
{
    let mut ix: usize = from;
    let ghost before = lines@;
    while ix < to
        invariant
            from <= ix <= to <= lines_of(new@).len() < MAX_LINES,
            lines@ == before + added_run(new@, from as int, ix as int),
        decreases to - ix,
    {
        lines.push(
            DiffLine {
                kind: LineKind::Added,
                old_no: None,
                new_no: Some(ix as u32 + 1),
                content: content_range(new, ix),
                no_newline: !ends_with_newline(new.line(ix)),
            },
        );
        ix = ix + 1;
        assert(lines@ =~= before + added_run(new@, from as int, ix as int));
    }
}

/// What holds of each change of an edit script.
proof fn lemma_script_at(
    old: Seq<u8>,
    new: Seq<u8>,
    changes: Seq<Change>,
    i: int,
    o: int,
    n: int,
    j: int,
)
    requires
        0 <= i <= j < changes.len(),
        script_from(old, new, changes, i, o, n),
    ensures
        o <= changes[j].old_start <= changes[j].old_end <= lines_of(old).len(),
        n <= changes[j].new_start <= changes[j].new_end <= lines_of(new).len(),
        changes[j].old_start < changes[j].old_end || changes[j].new_start < changes[j].new_end,
        script_from(
            old,
            new,
            changes,
            j + 1,
            changes[j].old_end as int,
            changes[j].new_end as int,
        ),
        i == 0 && o == 0 && n == 0 && j == 0 ==> changes[j].old_start == changes[j].new_start,
        j > i ==> changes[j].old_start - changes[j - 1].old_end == changes[j].new_start
            - changes[j - 1].new_end,
        j > i ==> changes[j].old_start > changes[j - 1].old_end,
        j > i ==> same_lines(
            old,
            new,
            changes[j - 1].old_end as int,
            changes[j - 1].new_end as int,
            changes[j].old_start - changes[j - 1].old_end,
        ),
    decreases changes.len() - i,
{
    if j > i {
        lemma_script_at(
            old,
            new,
            changes,
            i + 1,
            changes[i].old_end as int,
            changes[i].new_end as int,
            j,
        );
    }
}

// ---------------------------------------------------------------------------
// The computed lines lead through both texts.

/// Lines that lead on where others stop lead through both texts together.
pub proof fn lemma_walks_append(
    old: Seq<u8>,
    new: Seq<u8>,
    a: Seq<DiffLine>,
    b: Seq<DiffLine>,
    o: int,
    n: int,
)
    requires
        walks(old, new, a, o, n),
        walks(old, new, b, o + old_count(a), n + new_count(a)),
    ensures
        walks(old, new, a + b, o, n),
        old_count(a + b) == old_count(a) + old_count(b),
        new_count(a + b) == new_count(a) + new_count(b),
    decreases a.len(),
{
    if a.len() == 0 {
        assert(a + b =~= b);
    } else {
        let rest = a.drop_first();
        assert((a + b).drop_first() =~= rest + b);
        match a[0].kind {
            LineKind::Context => lemma_walks_append(old, new, rest, b, o + 1, n + 1),
            LineKind::Removed => lemma_walks_append(old, new, rest, b, o + 1, n),
            LineKind::Added => lemma_walks_append(old, new, rest, b, o, n + 1),
        }
    }
}

proof fn lemma_context_run(old: Seq<u8>, new: Seq<u8>, o: int, n: int, count: int)
    requires
        same_lines(old, new, o, n, count),
    ensures
        walks(old, new, context_run(new, o, n, count), o, n),
        old_count(context_run(new, o, n, count)) == count,
        new_count(context_run(new, o, n, count)) == count,
    decreases count,
{
    if count > 0 {
        assert(lines_of(old)[o + 0] == lines_of(new)[n + 0]);
        assert forall|k: int| 0 <= k < count - 1 implies #[trigger] lines_of(old)[o + 1 + k]
            == lines_of(new)[n + 1 + k] by {
            assert(lines_of(old)[o + (k + 1)] == lines_of(new)[n + (k + 1)]);
        }
        lemma_context_run(old, new, o + 1, n + 1, count - 1);
        assert(context_run(new, o, n, count).drop_first() =~= context_run(
            new,
            o + 1,
            n + 1,
            count - 1,
        ));
    }
}

proof fn lemma_removed_run(old: Seq<u8>, new: Seq<u8>, from: int, to: int, n: int)
    requires
        0 <= from <= to <= lines_of(old).len(),
    ensures
        walks(old, new, removed_run(old, from, to), from, n),
        old_count(removed_run(old, from, to)) == to - from,
        new_count(removed_run(old, from, to)) == 0,
    decreases to - from,
{
    if from < to {
        lemma_removed_run(old, new, from + 1, to, n);
        assert(removed_run(old, from, to).drop_first() =~= removed_run(old, from + 1, to));
    }
}

proof fn lemma_added_run(old: Seq<u8>, new: Seq<u8>, o: int, from: int, to: int)
    requires
        0 <= from <= to <= lines_of(new).len(),
    ensures
        walks(old, new, added_run(new, from, to), o, from),
        old_count(added_run(new, from, to)) == 0,
        new_count(added_run(new, from, to)) == to - from,
    decreases to - from,
{
    if from < to {
        lemma_added_run(old, new, o, from + 1, to);
        assert(added_run(new, from, to).drop_first() =~= added_run(new, from + 1, to));
    }
}

proof fn lemma_change_lines(old: Seq<u8>, new: Seq<u8>, c: Change)
    requires
        c.old_start <= c.old_end <= lines_of(old).len(),
        c.new_start <= c.new_end <= lines_of(new).len(),
    ensures
        walks(old, new, change_lines(old, new, c), c.old_start as int, c.new_start as int),
        old_count(change_lines(old, new, c)) == c.old_end - c.old_start,
        new_count(change_lines(old, new, c)) == c.new_end - c.new_start,
{
    let removed = removed_run(old, c.old_start as int, c.old_end as int);
    let added = added_run(new, c.new_start as int, c.new_end as int);
    lemma_removed_run(old, new, c.old_start as int, c.old_end as int, c.new_start as int);
    lemma_added_run(old, new, c.old_end as int, c.new_start as int, c.new_end as int);
    lemma_walks_append(old, new, removed, added, c.old_start as int, c.new_start as int);
}

proof fn lemma_changes_lines(old: Seq<u8>, new: Seq<u8>, changes: Seq<Change>, a: int, b: int)
    requires
        edit_script(old, new, changes),
        0 <= a < b <= changes.len(),
    ensures
        walks(
            old,
            new,
            changes_lines(old, new, changes, a, b),
            changes[a].old_start as int,
            changes[a].new_start as int,
        ),
        old_count(changes_lines(old, new, changes, a, b)) == changes[b - 1].old_end
            - changes[a].old_start,
        new_count(changes_lines(old, new, changes, a, b)) == changes[b - 1].new_end
            - changes[a].new_start,
    decreases b - a,
{
    let c = changes[a];
    lemma_script_at(old, new, changes, 0, 0, 0, a);
    lemma_change_lines(old, new, c);
    if a + 1 < b {
        lemma_script_at(old, new, changes, 0, 0, 0, a + 1);
        lemma_changes_lines(old, new, changes, a + 1, b);
        let gap = changes[a + 1].old_start - c.old_end;
        let mine = change_lines(old, new, c);
        let between = context_run(new, c.old_end as int, c.new_end as int, gap);
        lemma_context_run(old, new, c.old_end as int, c.new_end as int, gap);
        lemma_walks_append(old, new, mine, between, c.old_start as int, c.new_start as int);
        lemma_walks_append(
            old,
            new,
            mine + between,
            changes_lines(old, new, changes, a + 1, b),
            c.old_start as int,
            c.new_start as int,
        );
    }
}

/// Part of a run of shared lines is a run of shared lines.
proof fn lemma_same_part(
    old: Seq<u8>,
    new: Seq<u8>,
    o: int,
    n: int,
    count: int,
    skip: int,
    part: int,
)
    requires
        same_lines(old, new, o, n, count),
        0 <= skip,
        0 <= part,
        skip + part <= count,
    ensures
        same_lines(old, new, o + skip, n + skip, part),
{
    assert forall|k: int| 0 <= k < part implies #[trigger] lines_of(old)[o + skip + k]
        == lines_of(new)[n + skip + k] by {
        assert(lines_of(old)[o + (skip + k)] == lines_of(new)[n + (skip + k)]);
    }
}

/// The end of a group is followed by a gap that is wider than twice the context.
proof fn lemma_group_gap(changes: Seq<Change>, a: int, context: int)
    requires
        0 <= a < changes.len(),
        group_end(changes, a, context) < changes.len(),
    ensures
        changes[group_end(changes, a, context)].old_start - changes[group_end(changes, a, context)
            - 1].old_end > 2 * context,
    decreases changes.len() - a,
{
    if a + 1 < changes.len() && changes[a + 1].old_start - changes[a].old_end <= 2 * context {
        lemma_group_gap(changes, a + 1, context);
    }
}

/// Where the lines shared before change `a` start.
pub open spec fn gap_old(changes: Seq<Change>, a: int) -> int {
    if a <= 0 {
        0
    } else {
        changes[a - 1].old_end as int
    }
}

/// Where the lines shared before change `a` start in the new text.
pub open spec fn gap_new(changes: Seq<Change>, a: int) -> int {
    if a <= 0 {
        0
    } else {
        changes[a - 1].new_end as int
    }
}

/// The lines before change `a` (or after the last one) are shared.
proof fn lemma_gap(old: Seq<u8>, new: Seq<u8>, changes: Seq<Change>, a: int)
    requires
        edit_script(old, new, changes),
        0 <= a <= changes.len(),
    ensures
        script_from(old, new, changes, a, gap_old(changes, a), gap_new(changes, a)),
        0 <= gap_old(changes, a) <= lines_of(old).len(),
        0 <= gap_new(changes, a) <= lines_of(new).len(),
{
    if a > 0 {
        lemma_script_at(old, new, changes, 0, 0, 0, a - 1);
    }
}

/// What a hunk's context on either side rests on.
proof fn lemma_group_context(
    old: Seq<u8>,
    new: Seq<u8>,
    changes: Seq<Change>,
    a: int,
    b: int,
    context: int,
)
    requires
        edit_script(old, new, changes),
        0 <= context,
        0 <= a < b <= changes.len(),
        a > 0 ==> changes[a].old_start - changes[a - 1].old_end > 2 * context,
        b < changes.len() ==> changes[b].old_start - changes[b - 1].old_end > 2 * context,
    ensures
        ({
            let first = changes[a];
            let last = changes[b - 1];
            let lead = lead_of(first, context);
            let trail = trail_of(old, last, context);
            &&& 0 <= lead <= first.old_start - gap_old(changes, a)
            &&& lead <= first.new_start - gap_new(changes, a)
            &&& same_lines(old, new, first.old_start - lead, first.new_start - lead, lead)
            &&& 0 <= trail
            &&& last.old_end + trail <= lines_of(old).len()
            &&& last.new_end + trail <= lines_of(new).len()
            &&& same_lines(old, new, last.old_end as int, last.new_end as int, trail)
            &&& b < changes.len() ==> trail <= context
            &&& first.old_start <= last.old_end
            &&& first.new_start <= last.new_end
        }),
{
    let first = changes[a];
    let last = changes[b - 1];
    lemma_gap(old, new, changes, a);
    lemma_gap(old, new, changes, b);
    lemma_script_at(old, new, changes, 0, 0, 0, a);
    lemma_script_at(old, new, changes, 0, 0, 0, b - 1);
    if a + 1 < b {
        lemma_gap(old, new, changes, a + 1);
        lemma_script_at(
            old,
            new,
            changes,
            a + 1,
            first.old_end as int,
            first.new_end as int,
            b - 1,
        );
    }
    let lead = lead_of(first, context);
    let gap = first.old_start - gap_old(changes, a);
    lemma_same_part(
        old,
        new,
        gap_old(changes, a),
        gap_new(changes, a),
        gap,
        gap - lead,
        lead,
    );
    let trail = trail_of(old, last, context);
    let rest = if b < changes.len() {
        changes[b].old_start - last.old_end
    } else {
        lines_of(old).len() - last.old_end
    };
    lemma_same_part(old, new, last.old_end as int, last.new_end as int, rest, 0, trail);
}

/// The lines of one hunk lead through both texts.
proof fn lemma_hunk_lines(
    old: Seq<u8>,
    new: Seq<u8>,
    changes: Seq<Change>,
    a: int,
    b: int,
    context: int,
)
    requires
        edit_script(old, new, changes),
        0 <= context,
        0 <= a < b <= changes.len(),
        a > 0 ==> changes[a].old_start - changes[a - 1].old_end > 2 * context,
        b < changes.len() ==> changes[b].old_start - changes[b - 1].old_end > 2 * context,
    ensures
        ({
            let first = changes[a];
            let last = changes[b - 1];
            let lead = lead_of(first, context);
            let trail = trail_of(old, last, context);
            let body = hunk_lines(old, new, changes, a, b, context);
            &&& walks(old, new, body, first.old_start - lead, first.new_start - lead)
            &&& old_count(body) == last.old_end + trail - (first.old_start - lead)
            &&& new_count(body) == last.new_end + trail - (first.new_start - lead)
        }),
{
    let first = changes[a];
    let last = changes[b - 1];
    let lead = lead_of(first, context);
    let trail = trail_of(old, last, context);
    lemma_group_context(old, new, changes, a, b, context);
    let before = context_run(new, first.old_start - lead, first.new_start - lead, lead);
    let middle = changes_lines(old, new, changes, a, b);
    let after = context_run(new, last.old_end as int, last.new_end as int, trail);
    lemma_context_run(old, new, first.old_start - lead, first.new_start - lead, lead);
    lemma_changes_lines(old, new, changes, a, b);
    lemma_context_run(old, new, last.old_end as int, last.new_end as int, trail);
    lemma_walks_append(
        old,
        new,
        before,
        middle,
        first.old_start - lead,
        first.new_start - lead,
    );
    lemma_walks_append(
        old,
        new,
        before + middle,
        after,
        first.old_start - lead,
        first.new_start - lead,
    );
}

/// The function line of a hunk header lies within the old text.
proof fn lemma_func_context(old: Seq<u8>, before: int)
    requires
        0 <= before <= lines_of(old).len(),
        old.len() <= usize::MAX,
    ensures
        last_func_line(lines_of(old), before) matches Some(l) ==> {
            let r = func_context_of(old, l);
            r.start <= r.end <= old.len()
        },
    decreases before,
{
    if before > 0 {
        if func_line(lines_of(old)[before - 1]) {
            let line = lines_of(old)[before - 1];
            lemma_line(old, before - 1);
            lemma_trimmed_len(
                line,
                if line.len() < FUNC_CONTEXT_MAX {
                    line.len() as int
                } else {
                    FUNC_CONTEXT_MAX as int
                },
            );
        } else {
            lemma_func_context(old, before - 1);
        }
    }
}

/// The hunks and lines that are computed from an edit script lead through both texts.
#[verifier::spinoff_prover]
#[verifier::rlimit(60)]
proof fn lemma_computed_walk(
    old: Seq<u8>,
    new: Seq<u8>,
    changes: Seq<Change>,
    context: int,
    hunks: Seq<Hunk>,
    lines: Seq<DiffLine>,
    a: int,
    i: int,
    at: int,
    past: int,
)
    requires
        edit_script(old, new, changes),
        old.len() <= usize::MAX,
        lines_of(old).len() < MAX_LINES,
        lines_of(new).len() < MAX_LINES,
        0 <= context,
        0 <= a <= changes.len(),
        0 <= i <= hunks.len(),
        0 <= at <= lines.len() <= usize::MAX,
        hunks.skip(i) == diff_hunks(old, new, changes, a, context, at),
        lines.skip(at) == diff_lines(old, new, changes, a, context),
        0 <= past,
        a == 0 ==> past == 0,
        a < changes.len() ==> past <= context,
        0 < a < changes.len() ==> changes[a].old_start - changes[a - 1].old_end > 2 * context,
        gap_old(changes, a) + past <= lines_of(old).len(),
    ensures
        hunks_walk(
            old,
            new,
            hunks,
            lines,
            i,
            gap_old(changes, a) + past,
            gap_new(changes, a) + past,
            at,
        ),
    decreases changes.len() - a,
{
    let o = gap_old(changes, a) + past;
    let n = gap_new(changes, a) + past;
    lemma_gap(old, new, changes, a);
    if a >= changes.len() {
        assert(hunks.skip(i).len() == 0);
        assert(lines.skip(at).len() == 0);
        lemma_same_part(
            old,
            new,
            gap_old(changes, a),
            gap_new(changes, a),
            lines_of(old).len() - gap_old(changes, a),
            past,
            lines_of(old).len() - o,
        );
    } else {
        lemma_group_end(changes, a, context);
        let b = group_end(changes, a, context);
        if b < changes.len() {
            lemma_group_gap(changes, a, context);
        }
        let first = changes[a];
        let last = changes[b - 1];
        let lead = lead_of(first, context);
        let trail = trail_of(old, last, context);
        lemma_group_context(old, new, changes, a, b, context);
        lemma_hunk_lines(old, new, changes, a, b, context);
        lemma_func_context(old, first.old_start - lead);
        lemma_script_at(old, new, changes, 0, 0, 0, a);
        lemma_script_at(old, new, changes, 0, 0, 0, b - 1);
        let body = hunk_lines(old, new, changes, a, b, context);
        let h = hunks[i];
        let next = at + body.len();
        assert(hunks.skip(i).len() == hunks.len() - i);
        assert(hunks.skip(i)[0] == h);
        assert(h == hunk_of(old, new, changes, a, b, context, at));
        assert(lines.skip(at) == body + diff_lines(old, new, changes, b, context));
        assert(lines.skip(at).len() == lines.len() - at);
        assert(next <= lines.len());
        assert(h.body(lines) =~= body) by {
            assert forall|k: int| 0 <= k < body.len() implies #[trigger] h.body(lines)[k]
                == body[k] by {
                assert(lines.skip(at)[k] == body[k]);
            }
        }
        assert(hunks.skip(i + 1) =~= hunks.skip(i).drop_first());
        assert(hunks.skip(i).drop_first() =~= diff_hunks(old, new, changes, b, context, next));
        assert(lines.skip(next) =~= lines.skip(at).skip(body.len() as int));
        assert(lines.skip(at).skip(body.len() as int) =~= diff_lines(
            old,
            new,
            changes,
            b,
            context,
        ));
        lemma_same_part(
            old,
            new,
            gap_old(changes, a),
            gap_new(changes, a),
            first.old_start - gap_old(changes, a),
            past,
            first.old_start - lead - o,
        );
        lemma_computed_walk(
            old,
            new,
            changes,
            context,
            hunks,
            lines,
            b,
            i + 1,
            next,
            trail,
        );
    }
}

/// End of the group of changes that starts at `start`.
fn find_group_end(
    old: Ghost<Seq<u8>>,
    new: Ghost<Seq<u8>>,
    changes: &[Change],
    start: usize,
    context: u32,
) -> (end: usize)
    requires
        start < changes@.len(),
        edit_script(old@, new@, changes@),
    ensures
        end == group_end(changes@, start as int, context as int),
{
    let mut last: usize = start;
    while changes.len() - last > 1
        invariant
            start <= last < changes@.len(),
            edit_script(old@, new@, changes@),
            group_end(changes@, last as int, context as int) == group_end(
                changes@,
                start as int,
                context as int,
            ),
        decreases changes.len() - last,
    {
        proof {
            lemma_script_at(old@, new@, changes@, 0, 0, 0, last + 1);
        }
        let gap: u32 = changes[last + 1].old_start - changes[last].old_end;
        if gap as u64 > 2 * (context as u64) {
            return last + 1;
        }
        last = last + 1;
    }
    last + 1
}

/// The nearest function line before line `from`, where `func` is the nearest one before
/// line `searched`.
fn find_func_line(
    text: &Text,
    func: Option<usize>,
    searched: usize,
    from: usize,
) -> (found: Option<usize>)
    requires
        searched <= from <= lines_of(text@).len(),
        is_last_func_line(text@, func, searched as int),
    ensures
        is_last_func_line(text@, found, from as int),
{
    let mut l: usize = from;
    while l > searched
        invariant
            searched <= l <= from <= lines_of(text@).len(),
            last_func_line(lines_of(text@), from as int) == last_func_line(
                lines_of(text@),
                l as int,
            ),
        decreases l,
    {
        l = l - 1;
        if is_func_line(text.line(l)) {
            return Some(l);
        }
    }
    func
}

/// `found` is the nearest function line before line `from`.
spec fn is_last_func_line(text: Seq<u8>, found: Option<usize>, from: int) -> bool {
    match found {
        Some(l) => last_func_line(lines_of(text), from) == Some(l as int) && l < from,
        None => last_func_line(lines_of(text), from) is None,
    }
}

/// Appends the changes `a..b` as diff lines, with the shared lines between them.
fn push_changes(
    lines: &mut Vec<DiffLine>,
    old_text: &Text,
    new_text: &Text,
    changes: &[Change],
    a: usize,
    b: usize,
)
    requires
        a < b <= changes@.len(),
        lines_of(old_text@).len() < MAX_LINES,
        lines_of(new_text@).len() < MAX_LINES,
        edit_script(old_text@, new_text@, changes@),
    ensures
        final(lines)@ == old(lines)@ + changes_lines(
            old_text@,
            new_text@,
            changes@,
            a as int,
            b as int,
        ),
{
    let ghost before = lines@;
    let ghost all = changes_lines(old_text@, new_text@, changes@, a as int, b as int);
    let mut j: usize = a;
    while j < b
        invariant
            a <= j <= b <= changes@.len(),
            lines_of(old_text@).len() < MAX_LINES,
            lines_of(new_text@).len() < MAX_LINES,
            edit_script(old_text@, new_text@, changes@),
            lines@ + changes_lines(old_text@, new_text@, changes@, j as int, b as int) == before
                + all,
        decreases b - j,
    {
        let change = changes[j];
        proof {
            lemma_script_at(old_text@, new_text@, changes@, 0, 0, 0, j as int);
        }
        let ghost start = lines@;
        push_removed_run(lines, old_text, change.old_start as usize, change.old_end as usize);
        push_added_run(lines, new_text, change.new_start as usize, change.new_end as usize);
        assert(lines@ =~= start + change_lines(old_text@, new_text@, change));
        if j + 1 < b {
            proof {
                lemma_script_at(old_text@, new_text@, changes@, 0, 0, 0, j + 1);
            }
            let gap: usize = (changes[j + 1].old_start - change.old_end) as usize;
            push_context_run(
                lines,
                new_text,
                change.old_end as usize,
                change.new_end as usize,
                gap,
            );
        }
        j = j + 1;
        assert(lines@ + changes_lines(old_text@, new_text@, changes@, j as int, b as int) =~= start
            + changes_lines(old_text@, new_text@, changes@, j - 1, b as int));
    }
    assert(lines@ =~= before + all);
}

/// Appending piece by piece is appending the pieces together.
proof fn lemma_append_three<A>(start: Seq<A>, a: Seq<A>, b: Seq<A>, c: Seq<A>)
    ensures
        start + a + b + c == start + (a + b + c),
{
    assert(start + a + b + c =~= start + (a + b + c));
}

/// Appends the lines of the hunk that shows the changes `a..b` and returns the hunk.
/// `func` is the nearest function line among the first `searched` lines, and is moved on
/// to the start of the hunk.
fn push_hunk(
    lines: &mut Vec<DiffLine>,
    old_text: &Text,
    new_text: &Text,
    changes: &[Change],
    a: usize,
    b: usize,
    context: u32,
    func: &mut Option<usize>,
    searched: &mut usize,
) -> (hunk: Hunk)
    requires
        lines_of(old_text@).len() < MAX_LINES,
        lines_of(new_text@).len() < MAX_LINES,
        edit_script(old_text@, new_text@, changes@),
        a < b <= changes@.len(),
        a > 0 ==> changes@[a as int].old_start - changes@[a - 1].old_end > 2 * context,
        b < changes@.len() ==> changes@[b as int].old_start - changes@[b - 1].old_end > 2 * context,
        is_last_func_line(old_text@, *old(func), *old(searched) as int),
        *old(searched) <= gap_old(changes@, a as int),
    ensures
        final(lines)@ == old(lines)@ + hunk_lines(
            old_text@,
            new_text@,
            changes@,
            a as int,
            b as int,
            context as int,
        ),
        hunk == hunk_of(
            old_text@,
            new_text@,
            changes@,
            a as int,
            b as int,
            context as int,
            old(lines)@.len() as int,
        ),
        is_last_func_line(old_text@, *final(func), *final(searched) as int),
        *final(searched) <= gap_old(changes@, b as int),
{
    let ctx: usize = context as usize;
    let first = changes[a];
    let last = changes[b - 1];
    let ghost ghost_lead = lead_of(first, context as int);
    let ghost ghost_trail = trail_of(old_text@, last, context as int);
    assert({
        &&& 0 <= ghost_lead <= first.old_start - gap_old(changes@, a as int)
        &&& ghost_lead <= first.new_start
        &&& 0 <= ghost_trail
        &&& last.old_end + ghost_trail <= lines_of(old_text@).len()
        &&& last.new_end + ghost_trail <= lines_of(new_text@).len()
        &&& first.old_start <= last.old_end
        &&& first.new_start <= last.new_end
    }) by {
        lemma_gap(old_text@, new_text@, changes@, a as int);
        lemma_group_context(old_text@, new_text@, changes@, a as int, b as int, context as int);
    }
    let lead: usize = if (first.old_start as usize) < ctx {
        first.old_start as usize
    } else {
        ctx
    };
    let old_from: usize = first.old_start as usize - lead;
    let new_from: usize = first.new_start as usize - lead;
    let rest: usize = old_text.line_count() - last.old_end as usize;
    let trail: usize = if rest < ctx {
        rest
    } else {
        ctx
    };
    let old_len: usize = last.old_end as usize + trail - old_from;
    let new_len: usize = last.new_end as usize + trail - new_from;

    // git searches backwards from the line before the hunk, stopping at the previous
    // hunk's search start, and keeps the last match if none is found.
    *func = find_func_line(old_text, *func, *searched, old_from);
    *searched = old_from;
    let func_context: Option<Range<usize>> = match *func {
        Some(f) => Some(func_context_range(old_text, f)),
        None => None,
    };

    let ghost before = lines@;
    let start: usize = lines.len();
    push_context_run(lines, new_text, old_from, new_from, lead);
    push_changes(lines, old_text, new_text, changes, a, b);
    push_context_run(lines, new_text, last.old_end as usize, last.new_end as usize, trail);
    let end: usize = lines.len();
    proof {
        lemma_append_three(
            before,
            context_run(new_text@, old_from as int, new_from as int, lead as int),
            changes_lines(old_text@, new_text@, changes@, a as int, b as int),
            context_run(new_text@, last.old_end as int, last.new_end as int, trail as int),
        );
    }
    Hunk {
        old_start: header_start(old_from, old_len),
        old_len: old_len as u32,
        new_start: header_start(new_from, new_len),
        new_len: new_len as u32,
        func_context,
        lines: Range { start, end },
    }
}

impl FileDiff {
    /// The diff that shows an edit script with `context` lines around each change.
    pub fn from_changes(old: Text, new: Text, changes: &[Change], context: u32) -> (diff: Self)
        requires
            lines_of(old@).len() < MAX_LINES,
            lines_of(new@).len() < MAX_LINES,
            edit_script(old@, new@, changes@),
        ensures
            diff.wf(),
            diff.old@ == old@,
            diff.new@ == new@,
            diff.hunks@ == diff_hunks(old@, new@, changes@, 0, context as int, 0),
            diff.lines@ == diff_lines(old@, new@, changes@, 0, context as int),
    {
        let mut hunks: Vec<Hunk> = Vec::new();
        let mut lines: Vec<DiffLine> = Vec::new();
        let mut func: Option<usize> = None;
        let mut searched: usize = 0;

        let ghost ctx = context as int;
        let ghost all_lines = diff_lines(old@, new@, changes@, 0, ctx);
        let ghost all_hunks = diff_hunks(old@, new@, changes@, 0, ctx, 0);
        assert(lines@ + all_lines =~= all_lines);
        assert(hunks@ + all_hunks =~= all_hunks);
        let mut a: usize = 0;
        while a < changes.len()
            invariant
                a <= changes@.len(),
                ctx == context,
                lines_of(old@).len() < MAX_LINES,
                lines_of(new@).len() < MAX_LINES,
                edit_script(old@, new@, changes@),
                lines@ + diff_lines(old@, new@, changes@, a as int, ctx) == all_lines,
                hunks@ + diff_hunks(old@, new@, changes@, a as int, ctx, lines@.len() as int)
                    == all_hunks,
                0 < a < changes@.len() ==> changes@[a as int].old_start - changes@[a - 1].old_end
                    > 2 * ctx,
                is_last_func_line(old@, func, searched as int),
                searched <= gap_old(changes@, a as int),
            decreases changes.len() - a,
        {
            let b: usize = find_group_end(Ghost(old@), Ghost(new@), changes, a, context);
            proof {
                lemma_group_end(changes@, a as int, ctx);
                if b < changes@.len() {
                    lemma_group_gap(changes@, a as int, ctx);
                }
            }
            let ghost before_lines = lines@;
            let ghost before_hunks = hunks@;
            let hunk = push_hunk(
                &mut lines,
                &old,
                &new,
                changes,
                a,
                b,
                context,
                &mut func,
                &mut searched,
            );
            hunks.push(hunk);
            assert(lines@ + diff_lines(old@, new@, changes@, b as int, ctx) =~= before_lines
                + diff_lines(old@, new@, changes@, a as int, ctx));
            assert(hunks@ + diff_hunks(old@, new@, changes@, b as int, ctx, lines@.len() as int)
                =~= before_hunks + diff_hunks(
                old@,
                new@,
                changes@,
                a as int,
                ctx,
                before_lines.len() as int,
            ));
            a = b;
        }
        assert(lines@ =~= all_lines);
        assert(hunks@ =~= all_hunks);
        assert(lines.len() <= usize::MAX);
        assert(old.bytes.len() <= usize::MAX);
        proof {
            assert(hunks@.skip(0) =~= hunks@);
            assert(lines@.skip(0) =~= lines@);
            lemma_gap(old@, new@, changes@, 0);
            lemma_computed_walk(old@, new@, changes@, ctx, hunks@, lines@, 0, 0, 0, 0);
        }
        FileDiff { old, new, hunks, lines }
    }
}

// ---------------------------------------------------------------------------
// Reading a diff.

/// The change ranges that imara-diff's histogram algorithm finds between two texts.
pub uninterp spec fn line_changes(old: Seq<u8>, new: Seq<u8>) -> Seq<Change>;

/// Calls `imara_diff::Diff::compute` with `Algorithm::Histogram` on the lines of both
/// texts, then `Diff::postprocess_lines`, and collects `Diff::hunks`. The result depends on
/// the two texts alone. It is claimed to be an edit script, as `Diff::compute` documents:
/// in increasing order and with at least one line between two changes, as `HunkIter`
/// documents, and with the same lines outside the changes. Equal texts have no changes:
/// `Diff::compute_with` takes the lines that both begin with off before anything else.
/// imara-diff refuses inputs of `i32::MAX` tokens or more.
#[verifier::external_body]
fn histogram_changes(old: &[u8], new: &[u8]) -> (changes: Vec<Change>)
    requires
        lines_of(old@).len() < MAX_LINES,
        lines_of(new@).len() < MAX_LINES,
    ensures
        changes@ == line_changes(old@, new@),
        edit_script(old@, new@, changes@),
        old@ == new@ ==> changes@.len() == 0,
{
    let input = imara_diff::InternedInput::new(
        imara_diff::sources::byte_lines(old),
        imara_diff::sources::byte_lines(new),
    );
    let mut diff = imara_diff::Diff::compute(imara_diff::Algorithm::Histogram, &input);
    diff.postprocess_lines(&input);
    diff.hunks().map(
        |h| Change {
            old_start: h.before.start,
            old_end: h.before.end,
            new_start: h.after.start,
            new_end: h.after.end,
        },
    ).collect()
}

/// A diff line names a line of the texts.
pub open spec fn line_known(old: Seq<u8>, new: Seq<u8>, line: DiffLine) -> bool {
    match line.kind {
        LineKind::Removed => line.old_no matches Some(k) && 1 <= k <= lines_of(old).len() && line
            == removed_line(old, k - 1),
        LineKind::Added => line.new_no matches Some(k) && 1 <= k <= lines_of(new).len() && line
            == added_line(new, k - 1),
        LineKind::Context => line.new_no matches Some(n) && line.old_no matches Some(o) && 1 <= n
            <= lines_of(new).len() && 1 <= o <= lines_of(old).len() && line == context_line(
            new,
            o - 1,
            n - 1,
        ) && lines_of(old)[o - 1] == lines_of(new)[n - 1],
    }
}

/// The text line that a diff line shows, with its terminator.
pub open spec fn full_line(old: Seq<u8>, new: Seq<u8>, line: DiffLine) -> Seq<u8> {
    match line.kind {
        LineKind::Removed => lines_of(old)[line.old_no->Some_0 - 1],
        _ => lines_of(new)[line.new_no->Some_0 - 1],
    }
}

/// Each line of a walk names a line of the texts.
pub proof fn lemma_walk_known(
    old: Seq<u8>,
    new: Seq<u8>,
    lines: Seq<DiffLine>,
    o: int,
    n: int,
    k: int,
)
    requires
        walks(old, new, lines, o, n),
        lines_of(old).len() < MAX_LINES,
        lines_of(new).len() < MAX_LINES,
        0 <= k < lines.len(),
    ensures
        line_known(old, new, lines[k]),
    decreases lines.len(),
{
    if k > 0 {
        let rest = lines.drop_first();
        assert(lines[k] == rest[k - 1]);
        match lines[0].kind {
            LineKind::Context => lemma_walk_known(old, new, rest, o + 1, n + 1, k - 1),
            LineKind::Removed => lemma_walk_known(old, new, rest, o + 1, n, k - 1),
            LineKind::Added => lemma_walk_known(old, new, rest, o, n + 1, k - 1),
        }
    }
}

/// The remaining hunks lead through the rest of both texts.
pub open spec fn remaining(
    old: Seq<u8>,
    new: Seq<u8>,
    hunks: Seq<Hunk>,
    lines: Seq<DiffLine>,
    i: int,
) -> bool {
    exists|o: int, n: int, at: int|
        #![trigger hunks_walk(old, new, hunks, lines, i, o, n, at)]
        hunks_walk(old, new, hunks, lines, i, o, n, at)
}

/// What holds of the next hunk of a diff.
pub proof fn lemma_hunk(
    old: Seq<u8>,
    new: Seq<u8>,
    hunks: Seq<Hunk>,
    lines: Seq<DiffLine>,
    i: int,
)
    requires
        remaining(old, new, hunks, lines, i),
        lines_of(old).len() < MAX_LINES,
        lines_of(new).len() < MAX_LINES,
        0 <= i < hunks.len(),
    ensures
        remaining(old, new, hunks, lines, i + 1),
        hunks[i].lines.start <= hunks[i].lines.end <= lines.len(),
        hunks[i].func_context matches Some(r) ==> r.start <= r.end <= old.len(),
        forall|k: int|
            hunks[i].lines.start <= k < hunks[i].lines.end ==> line_known(
                old,
                new,
                #[trigger] lines[k],
            ),
{
    let (o, n, at) = choose|o: int, n: int, at: int|
        #![trigger hunks_walk(old, new, hunks, lines, i, o, n, at)]
        hunks_walk(old, new, hunks, lines, i, o, n, at);
    let h = hunks[i];
    assert(hunks_walk(
        old,
        new,
        hunks,
        lines,
        i + 1,
        h.old_from() + h.old_len,
        h.new_from() + h.new_len,
        h.lines.end as int,
    ));
    let body = h.body(lines);
    assert forall|k: int| h.lines.start <= k < h.lines.end implies line_known(
        old,
        new,
        #[trigger] lines[k],
    ) by {
        lemma_walk_known(old, new, body, h.old_from(), h.new_from(), k - h.lines.start);
        assert(body[k - h.lines.start] == lines[k]);
    }
}

/// What follows a last line without a newline, as in git's patches.
pub open spec fn newline_marker() -> Seq<u8> {
    vstd::utf8::encode_utf8("\n\\ No newline at end of file\n"@)
}

/// A text line after its prefix, as in a patch.
pub open spec fn marked_line(prefix: u8, line: Seq<u8>, no_newline: bool) -> Seq<u8> {
    seq![prefix] + line + if no_newline {
        newline_marker()
    } else {
        Seq::empty()
    }
}

/// The prefix of a line of this kind in a patch.
pub open spec fn kind_prefix(kind: LineKind) -> u8 {
    match kind {
        LineKind::Context => 32u8,
        LineKind::Added => 43u8,
        LineKind::Removed => 45u8,
    }
}

/// The lines `from..to` in git's unified format.
pub open spec fn unified_lines(
    old: Seq<u8>,
    new: Seq<u8>,
    lines: Seq<DiffLine>,
    from: int,
    to: int,
) -> Seq<u8>
    decreases to - from,
{
    if from >= to {
        Seq::empty()
    } else {
        marked_line(
            kind_prefix(lines[from].kind),
            full_line(old, new, lines[from]),
            lines[from].no_newline,
        ) + unified_lines(old, new, lines, from + 1, to)
    }
}

/// One side of a hunk header: the start, and the length unless it is 1.
pub open spec fn header_range(start: int, len: int) -> Seq<u8> {
    crate::bytes::signed_decimal(start) + if len == 1 {
        Seq::empty()
    } else {
        seq![44u8] + crate::bytes::signed_decimal(len)
    }
}

/// A hunk's `@@` line in git's unified format.
pub open spec fn unified_header(old: Seq<u8>, h: Hunk) -> Seq<u8> {
    vstd::utf8::encode_utf8("@@ -"@) + header_range(h.old_start as int, h.old_len as int)
        + vstd::utf8::encode_utf8(" +"@) + header_range(h.new_start as int, h.new_len as int)
        + vstd::utf8::encode_utf8(" @@"@) + (match h.func_context {
        Some(r) => seq![32u8] + old.subrange(r.start as int, r.end as int),
        None => Seq::empty(),
    }) + seq![LF]
}

/// The hunks from index `i` on in git's unified format.
pub open spec fn unified_hunks(
    old: Seq<u8>,
    new: Seq<u8>,
    hunks: Seq<Hunk>,
    lines: Seq<DiffLine>,
    i: int,
) -> Seq<u8>
    decreases hunks.len() - i,
{
    if i >= hunks.len() {
        Seq::empty()
    } else {
        unified_header(old, hunks[i]) + unified_lines(
            old,
            new,
            lines,
            hunks[i].lines.start as int,
            hunks[i].lines.end as int,
        ) + unified_hunks(old, new, hunks, lines, i + 1)
    }
}

/// Appends one side of a hunk header.
pub fn push_range(out: &mut Vec<u8>, start: i64, len: i64)
    ensures
        final(out)@ == old(out)@ + header_range(start as int, len as int),
{
    let ghost before = out@;
    push_signed_decimal(out, start);
    if len != 1 {
        out.push(44);
        push_signed_decimal(out, len);
    }
    assert(out@ =~= before + header_range(start as int, len as int));
}

/// Appends a text line after its prefix, as in a patch.
pub fn push_marked_line(out: &mut Vec<u8>, prefix: u8, line: &[u8], no_newline: bool)
    ensures
        final(out)@ == old(out)@ + marked_line(prefix, line@, no_newline),
{
    let ghost before = out@;
    out.push(prefix);
    append(out, line);
    if no_newline {
        append_str(out, "\n\\ No newline at end of file\n");
    }
    assert(out@ =~= before + marked_line(prefix, line@, no_newline));
}

impl FileDiff {
    /// The line diff of two texts, with `context` lines around each change.
    pub fn compute(old: Vec<u8>, new: Vec<u8>, context: u32) -> (diff: Self)
        requires
            lines_of(old@).len() < MAX_LINES,
            lines_of(new@).len() < MAX_LINES,
        ensures
            diff.wf(),
            diff.old@ == old@,
            diff.new@ == new@,
            edit_script(old@, new@, line_changes(old@, new@)),
            diff.hunks@ == diff_hunks(
                old@,
                new@,
                line_changes(old@, new@),
                0,
                context as int,
                0,
            ),
            diff.lines@ == diff_lines(old@, new@, line_changes(old@, new@), 0, context as int),
            diff.hunks@.len() == 0 <==> old@ == new@,
    {
        let old_text = Text::new(old);
        let new_text = Text::new(new);
        let changes = histogram_changes(old_text.bytes(), new_text.bytes());
        let diff = FileDiff::from_changes(old_text, new_text, changes.as_slice(), context);
        proof {
            if diff.hunks@.len() == 0 {
                lemma_same_texts(diff.old@, diff.new@);
            }
        }
        diff
    }

    /// Text of a line's content (no terminator).
    pub fn line_bytes(&self, line: &DiffLine) -> (bytes: &[u8])
        requires
            line.content.start <= line.content.end,
            line.kind == LineKind::Removed ==> line.content.end <= self.old@.len(),
            line.kind != LineKind::Removed ==> line.content.end <= self.new@.len(),
        ensures
            bytes@ == (if line.kind == LineKind::Removed {
                self.old@
            } else {
                self.new@
            }).subrange(line.content.start as int, line.content.end as int),
    {
        let text = match line.kind {
            LineKind::Removed => self.old.bytes(),
            LineKind::Context | LineKind::Added => self.new.bytes(),
        };
        vstd::slice::slice_subrange(text, line.content.start, line.content.end)
    }

    /// The text line that a diff line shows, with its terminator.
    pub fn line_text(&self, line: &DiffLine) -> (bytes: &[u8])
        requires
            line_known(self.old@, self.new@, *line),
        ensures
            bytes@ == full_line(self.old@, self.new@, *line),
    {
        match line.kind {
            LineKind::Removed => match line.old_no {
                Some(k) => self.old.line((k - 1) as usize),
                None => self.old.bytes(),
            },
            LineKind::Context | LineKind::Added => match line.new_no {
                Some(k) => self.new.line((k - 1) as usize),
                None => self.new.bytes(),
            },
        }
    }

    /// The function line that a hunk's header shows.
    pub fn func_context_bytes(&self, hunk: &Hunk) -> (bytes: Option<&[u8]>)
        requires
            hunk.func_context matches Some(r) ==> r.start <= r.end <= self.old@.len(),
        ensures
            match hunk.func_context {
                Some(r) => bytes matches Some(b) && b@ == self.old@.subrange(
                    r.start as int,
                    r.end as int,
                ),
                None => bytes is None,
            },
    {
        match &hunk.func_context {
            Some(r) => Some(vstd::slice::slice_subrange(self.old.bytes(), r.start, r.end)),
            None => None,
        }
    }

    /// Appends a hunk's `@@` line.
    fn push_header(&self, out: &mut Vec<u8>, hunk: &Hunk)
        requires
            hunk.func_context matches Some(r) ==> r.start <= r.end <= self.old@.len(),
        ensures
            final(out)@ == old(out)@ + unified_header(self.old@, *hunk),
    {
        let ghost before = out@;
        append_str(out, "@@ -");
        push_range(out, hunk.old_start as i64, hunk.old_len as i64);
        append_str(out, " +");
        push_range(out, hunk.new_start as i64, hunk.new_len as i64);
        append_str(out, " @@");
        if let Some(func) = self.func_context_bytes(hunk) {
            out.push(32);
            append(out, func);
        }
        out.push(LF);
        assert(out@ =~= before + unified_header(self.old@, *hunk));
    }

    /// The hunks in git's unified format, starting at the first `@@` line.
    pub fn to_unified_hunks(&self) -> (out: Vec<u8>)
        requires
            self.wf(),
        ensures
            out@ == unified_hunks(self.old@, self.new@, self.hunks@, self.lines@, 0),
    {
        let ghost (old, new, hunks, lines) = (self.old@, self.new@, self.hunks@, self.lines@);
        let mut out: Vec<u8> = Vec::new();
        let mut i: usize = 0;
        assert(remaining(old, new, hunks, lines, 0));
        assert(out@ + unified_hunks(old, new, hunks, lines, 0) =~= unified_hunks(
            old,
            new,
            hunks,
            lines,
            0,
        ));
        while i < self.hunks.len()
            invariant
                i <= hunks.len(),
                old == self.old@,
                new == self.new@,
                hunks == self.hunks@,
                lines == self.lines@,
                lines_of(old).len() < MAX_LINES,
                lines_of(new).len() < MAX_LINES,
                remaining(old, new, hunks, lines, i as int),
                out@ + unified_hunks(old, new, hunks, lines, i as int) == unified_hunks(
                    old,
                    new,
                    hunks,
                    lines,
                    0,
                ),
            decreases hunks.len() - i,
        {
            let hunk = &self.hunks[i];
            proof {
                lemma_hunk(old, new, hunks, lines, i as int);
            }
            let ghost before = out@;
            self.push_header(&mut out, hunk);
            let ghost headed = out@;
            let start: usize = hunk.lines.start;
            let end: usize = hunk.lines.end;
            let mut k: usize = start;
            assert(out@ + unified_lines(old, new, lines, k as int, end as int) =~= headed
                + unified_lines(old, new, lines, start as int, end as int));
            while k < end
                invariant
                    start <= k <= end <= lines.len(),
                    old == self.old@,
                    new == self.new@,
                    lines == self.lines@,
                    forall|j: int|
                        start <= j < end ==> line_known(old, new, #[trigger] lines[j]),
                    out@ + unified_lines(old, new, lines, k as int, end as int) == headed
                        + unified_lines(old, new, lines, start as int, end as int),
                decreases end - k,
            {
                let line = &self.lines[k];
                let prefix: u8 = match line.kind {
                    LineKind::Context => 32,
                    LineKind::Added => 43,
                    LineKind::Removed => 45,
                };
                let ghost at = out@;
                push_marked_line(&mut out, prefix, self.line_text(line), line.no_newline);
                k = k + 1;
                assert(out@ + unified_lines(old, new, lines, k as int, end as int) =~= at
                    + unified_lines(old, new, lines, k - 1, end as int));
            }
            assert(out@ =~= headed + unified_lines(old, new, lines, start as int, end as int));
            i = i + 1;
            assert(out@ + unified_hunks(old, new, hunks, lines, i as int) =~= before
                + unified_hunks(old, new, hunks, lines, i - 1));
        }
        assert(out@ =~= unified_hunks(old, new, hunks, lines, 0));
        out
    }
}

/// The bytes that a diff line shows, without the terminator.
pub open spec fn shown_bytes(old: Seq<u8>, new: Seq<u8>, line: DiffLine) -> Seq<u8> {
    (if line.kind == LineKind::Removed {
        old
    } else {
        new
    }).subrange(line.content.start as int, line.content.end as int)
}

/// The content of a line lies within its text, and is its line without the terminator.
pub proof fn lemma_known_content(old: Seq<u8>, new: Seq<u8>, line: DiffLine)
    requires
        line_known(old, new, line),
        old.len() <= usize::MAX,
        new.len() <= usize::MAX,
    ensures
        line.content.start <= line.content.end,
        line.kind == LineKind::Removed ==> line.content.end <= old.len(),
        line.kind != LineKind::Removed ==> line.content.end <= new.len(),
        shown_bytes(old, new, line) == full_line(old, new, line).take(
            content_len(full_line(old, new, line)),
        ),
{
    let (text, ix) = if line.kind == LineKind::Removed {
        (old, line.old_no->Some_0 - 1)
    } else {
        (new, line.new_no->Some_0 - 1)
    };
    lemma_line(text, ix);
    let full = lines_of(text)[ix];
    assert(shown_bytes(old, new, line) =~= full.take(content_len(full)));
}

proof fn lemma_all_known(diff: FileDiff, i: int, o: int, n: int, at: int, k: int)
    requires
        lines_of(diff.old@).len() < MAX_LINES,
        lines_of(diff.new@).len() < MAX_LINES,
        0 <= i,
        hunks_walk(diff.old@, diff.new@, diff.hunks@, diff.lines@, i, o, n, at),
        0 <= at <= k < diff.lines@.len(),
    ensures
        line_known(diff.old@, diff.new@, diff.lines@[k]),
        exists|j: int|
            i <= j < diff.hunks@.len() && #[trigger] diff.hunks@[j].lines.start <= k
                < diff.hunks@[j].lines.end,
    decreases diff.hunks@.len() - i,
{
    let h = diff.hunks@[i];
    if k < h.lines.end {
        let body = h.body(diff.lines@);
        lemma_walk_known(
            diff.old@,
            diff.new@,
            body,
            h.old_from(),
            h.new_from(),
            k - h.lines.start,
        );
        assert(body[k - h.lines.start] == diff.lines@[k]);
    } else {
        lemma_all_known(
            diff,
            i + 1,
            h.old_from() + h.old_len,
            h.new_from() + h.new_len,
            h.lines.end as int,
            k,
        );
    }
}

impl FileDiff {
    /// Each line of a diff belongs to a hunk, names a line of the texts, and its content lies
    /// within them.
    pub proof fn lemma_line_at(self, k: int)
        requires
            self.wf(),
            0 <= k < self.lines@.len(),
        ensures
            line_known(self.old@, self.new@, self.lines@[k]),
            ({
                let line = self.lines@[k];
                &&& line.content.start <= line.content.end
                &&& line.kind == LineKind::Removed ==> line.content.end <= self.old@.len()
                &&& line.kind != LineKind::Removed ==> line.content.end <= self.new@.len()
                &&& shown_bytes(self.old@, self.new@, line) == full_line(
                    self.old@,
                    self.new@,
                    line,
                ).take(content_len(full_line(self.old@, self.new@, line)))
            }),
            exists|j: int|
                0 <= j < self.hunks@.len() && #[trigger] self.hunks@[j].lines.start <= k
                    < self.hunks@[j].lines.end,
    {
        assert(self.old.bytes.len() <= usize::MAX);
        assert(self.new.bytes.len() <= usize::MAX);
        lemma_all_known(self, 0, 0, 0, 0, k);
        lemma_known_content(self.old@, self.new@, self.lines@[k]);
    }

    proof fn lemma_hunk_step(self, j: int)
        requires
            self.wf(),
            0 <= j <= self.hunks@.len(),
        ensures
            remaining(self.old@, self.new@, self.hunks@, self.lines@, j),
        decreases j,
    {
        if j > 0 {
            self.lemma_hunk_step(j - 1);
            lemma_hunk(self.old@, self.new@, self.hunks@, self.lines@, j - 1);
        } else {
            assert(hunks_walk(self.old@, self.new@, self.hunks@, self.lines@, 0, 0, 0, 0));
        }
    }

    /// The lines of each hunk of a diff are among its lines.
    pub proof fn lemma_hunk_at(self, j: int)
        requires
            self.wf(),
            0 <= j < self.hunks@.len(),
        ensures
            self.hunks@[j].lines.start <= self.hunks@[j].lines.end <= self.lines@.len(),
            self.hunks@[j].func_context matches Some(r) ==> r.start <= r.end <= self.old@.len(),
    {
        self.lemma_hunk_step(j);
        lemma_hunk(self.old@, self.new@, self.hunks@, self.lines@, j);
    }
}

/// Within a walk, later lines on a side have later numbers there.
proof fn lemma_walk_numbers(
    old: Seq<u8>,
    new: Seq<u8>,
    lines: Seq<DiffLine>,
    o: int,
    n: int,
    k: int,
)
    requires
        walks(old, new, lines, o, n),
        lines_of(old).len() < MAX_LINES,
        lines_of(new).len() < MAX_LINES,
        0 <= o,
        0 <= n,
        0 <= k < lines.len(),
    ensures
        lines[k].kind == LineKind::Removed ==> (lines[k].old_no matches Some(x) && o < x <= o
            + old_count(lines)),
        lines[k].kind != LineKind::Removed ==> (lines[k].new_no matches Some(x) && n < x <= n
            + new_count(lines)),
        0 <= old_count(lines),
        0 <= new_count(lines),
    decreases lines.len(),
{
    let rest = lines.drop_first();
    let (o2, n2) = match lines[0].kind {
        LineKind::Context => (o + 1, n + 1),
        LineKind::Removed => (o + 1, n),
        LineKind::Added => (o, n + 1),
    };
    if rest.len() > 0 {
        lemma_walk_numbers(
            old,
            new,
            rest,
            o2,
            n2,
            if k > 0 {
                k - 1
            } else {
                0
            },
        );
        assert(k > 0 ==> lines[k] == rest[k - 1]);
    } else {
        assert(old_count(rest) == 0 && new_count(rest) == 0);
    }
}

proof fn lemma_walk_order(
    old: Seq<u8>,
    new: Seq<u8>,
    lines: Seq<DiffLine>,
    o: int,
    n: int,
    i: int,
    j: int,
)
    requires
        walks(old, new, lines, o, n),
        lines_of(old).len() < MAX_LINES,
        lines_of(new).len() < MAX_LINES,
        0 <= o,
        0 <= n,
        0 <= i < j < lines.len(),
    ensures
        lines[i].kind == LineKind::Removed && lines[j].kind == LineKind::Removed
            ==> lines[i].old_no->Some_0 < lines[j].old_no->Some_0,
        lines[i].kind != LineKind::Removed && lines[j].kind != LineKind::Removed
            ==> lines[i].new_no->Some_0 < lines[j].new_no->Some_0,
    decreases lines.len(),
{
    let rest = lines.drop_first();
    let (o2, n2) = match lines[0].kind {
        LineKind::Context => (o + 1, n + 1),
        LineKind::Removed => (o + 1, n),
        LineKind::Added => (o, n + 1),
    };
    assert(lines[j] == rest[j - 1]);
    if i > 0 {
        assert(lines[i] == rest[i - 1]);
        lemma_walk_order(old, new, rest, o2, n2, i - 1, j - 1);
    } else {
        lemma_walk_numbers(old, new, rest, o2, n2, j - 1);
    }
}

/// Later lines on a side have later numbers there.
proof fn lemma_hunks_order(diff: FileDiff, h: int, o: int, n: int, at: int, i: int, j: int)
    requires
        lines_of(diff.old@).len() < MAX_LINES,
        lines_of(diff.new@).len() < MAX_LINES,
        0 <= h,
        0 <= o,
        0 <= n,
        hunks_walk(diff.old@, diff.new@, diff.hunks@, diff.lines@, h, o, n, at),
        0 <= at <= i <= j < diff.lines@.len(),
    ensures
        diff.lines@[j].kind == LineKind::Removed ==> o < diff.lines@[j].old_no->Some_0,
        diff.lines@[j].kind != LineKind::Removed ==> n < diff.lines@[j].new_no->Some_0,
        i < j && diff.lines@[i].kind == LineKind::Removed && diff.lines@[j].kind
            == LineKind::Removed ==> diff.lines@[i].old_no->Some_0
            < diff.lines@[j].old_no->Some_0,
        i < j && diff.lines@[i].kind != LineKind::Removed && diff.lines@[j].kind
            != LineKind::Removed ==> diff.lines@[i].new_no->Some_0
            < diff.lines@[j].new_no->Some_0,
    decreases diff.hunks@.len() - h,
{
    let hunk = diff.hunks@[h];
    let body = hunk.body(diff.lines@);
    let (o2, n2) = (hunk.old_from() + hunk.old_len, hunk.new_from() + hunk.new_len);
    let end = hunk.lines.end as int;
    if j < end {
        assert(body[j - at] == diff.lines@[j]);
        lemma_walk_numbers(
            diff.old@,
            diff.new@,
            body,
            hunk.old_from(),
            hunk.new_from(),
            j - at,
        );
        if i < j {
            assert(body[i - at] == diff.lines@[i]);
            lemma_walk_order(
                diff.old@,
                diff.new@,
                body,
                hunk.old_from(),
                hunk.new_from(),
                i - at,
                j - at,
            );
        }
    } else if i < end {
        assert(body[i - at] == diff.lines@[i]);
        lemma_walk_numbers(
            diff.old@,
            diff.new@,
            body,
            hunk.old_from(),
            hunk.new_from(),
            i - at,
        );
        lemma_hunks_order(diff, h + 1, o2, n2, end, j, j);
    } else {
        lemma_hunks_order(diff, h + 1, o2, n2, end, i, j);
    }
}

/// Lines follow one another: a line's content ends before a later line starts.
proof fn lemma_content_order(text: Seq<u8>, a: int, b: int)
    requires
        text.len() <= usize::MAX,
        0 <= a < b < lines_of(text).len(),
    ensures
        content_of(text, a).end <= content_of(text, b).start,
    decreases b - a,
{
    lemma_line(text, a);
    lemma_line(text, b);
    lemma_line(text, b - 1);
    if a < b - 1 {
        lemma_content_order(text, a, b - 1);
    }
}

impl FileDiff {
    /// The contents of the lines on one side are in order and don't overlap.
    pub proof fn lemma_content_before(self, i: int, j: int)
        requires
            self.wf(),
            0 <= i < j < self.lines@.len(),
            (self.lines@[i].kind == LineKind::Removed) == (self.lines@[j].kind
                == LineKind::Removed),
        ensures
            self.lines@[i].content.end <= self.lines@[j].content.start,
    {
        assert(self.old.bytes.len() <= usize::MAX);
        assert(self.new.bytes.len() <= usize::MAX);
        lemma_hunks_order(self, 0, 0, 0, 0, i, j);
        self.lemma_line_at(i);
        self.lemma_line_at(j);
        if self.lines@[i].kind == LineKind::Removed {
            lemma_content_order(
                self.old@,
                self.lines@[i].old_no->Some_0 - 1,
                self.lines@[j].old_no->Some_0 - 1,
            );
        } else {
            lemma_content_order(
                self.new@,
                self.lines@[i].new_no->Some_0 - 1,
                self.lines@[j].new_no->Some_0 - 1,
            );
        }
    }
}

// ---------------------------------------------------------------------------
// Laws.

/// Where a hunk's lines start: where those of the hunk before it end.
pub open spec fn lines_before(hunks: Seq<Hunk>, j: int) -> int {
    if j <= 0 {
        0
    } else {
        hunks[j - 1].lines.end as int
    }
}

/// Whether a line is numbered by its place among a hunk's lines: it has the next number of
/// each side that it stands on, and none of the other.
pub open spec fn is_numbered(body: Seq<DiffLine>, k: int, o: int, n: int) -> bool {
    &&& body[k].old_no == (if body[k].kind == LineKind::Added {
        None
    } else {
        Some((o + old_count(body.take(k)) + 1) as u32)
    })
    &&& body[k].new_no == (if body[k].kind == LineKind::Removed {
        None
    } else {
        Some((n + new_count(body.take(k)) + 1) as u32)
    })
}

/// The text lines that stand on the old side, with their terminators.
pub open spec fn old_texts(old: Seq<u8>, new: Seq<u8>, lines: Seq<DiffLine>) -> Seq<Seq<u8>>
    decreases lines.len(),
{
    if lines.len() == 0 {
        Seq::empty()
    } else {
        (if lines[0].kind == LineKind::Added {
            Seq::empty()
        } else {
            seq![full_line(old, new, lines[0])]
        }) + old_texts(old, new, lines.drop_first())
    }
}

/// The text lines that stand on the new side, with their terminators.
pub open spec fn new_texts(old: Seq<u8>, new: Seq<u8>, lines: Seq<DiffLine>) -> Seq<Seq<u8>>
    decreases lines.len(),
{
    if lines.len() == 0 {
        Seq::empty()
    } else {
        (if lines[0].kind == LineKind::Removed {
            Seq::empty()
        } else {
            seq![full_line(old, new, lines[0])]
        }) + new_texts(old, new, lines.drop_first())
    }
}

proof fn lemma_counts(lines: Seq<DiffLine>)
    ensures
        0 <= old_count(lines) <= lines.len(),
        0 <= new_count(lines) <= lines.len(),
    decreases lines.len(),
{
    if lines.len() > 0 {
        lemma_counts(lines.drop_first());
    }
}

proof fn lemma_walk_numbered(
    old: Seq<u8>,
    new: Seq<u8>,
    lines: Seq<DiffLine>,
    o: int,
    n: int,
    k: int,
)
    requires
        walks(old, new, lines, o, n),
        0 <= k < lines.len(),
    ensures
        is_numbered(lines, k, o, n),
    decreases lines.len(),
{
    let rest = lines.drop_first();
    if k == 0 {
        assert(lines.take(0) =~= Seq::empty());
    } else {
        assert(lines.take(k).drop_first() =~= rest.take(k - 1));
        assert(lines.take(k)[0] == lines[0]);
        match lines[0].kind {
            LineKind::Context => lemma_walk_numbered(old, new, rest, o + 1, n + 1, k - 1),
            LineKind::Removed => lemma_walk_numbered(old, new, rest, o + 1, n, k - 1),
            LineKind::Added => lemma_walk_numbered(old, new, rest, o, n + 1, k - 1),
        }
        assert(rest[k - 1] == lines[k]);
    }
}

proof fn lemma_walk_texts(old: Seq<u8>, new: Seq<u8>, lines: Seq<DiffLine>, o: int, n: int)
    requires
        walks(old, new, lines, o, n),
        0 <= o <= lines_of(old).len() < MAX_LINES,
        0 <= n <= lines_of(new).len() < MAX_LINES,
    ensures
        o + old_count(lines) <= lines_of(old).len(),
        n + new_count(lines) <= lines_of(new).len(),
        old_texts(old, new, lines) == lines_of(old).subrange(o, o + old_count(lines)),
        new_texts(old, new, lines) == lines_of(new).subrange(n, n + new_count(lines)),
    decreases lines.len(),
{
    lemma_counts(lines);
    if lines.len() > 0 {
        let rest = lines.drop_first();
        lemma_counts(rest);
        match lines[0].kind {
            LineKind::Context => {
                lemma_walk_texts(old, new, rest, o + 1, n + 1);
            },
            LineKind::Removed => {
                lemma_walk_texts(old, new, rest, o + 1, n);
            },
            LineKind::Added => {
                lemma_walk_texts(old, new, rest, o, n + 1);
            },
        }
        assert(old_texts(old, new, lines) =~= lines_of(old).subrange(o, o + old_count(lines)));
        assert(new_texts(old, new, lines) =~= lines_of(new).subrange(n, n + new_count(lines)));
    } else {
        assert(old_texts(old, new, lines) =~= lines_of(old).subrange(o, o));
        assert(new_texts(old, new, lines) =~= lines_of(new).subrange(n, n));
    }
}

proof fn lemma_hunks_tile(d: FileDiff, i: int, o: int, n: int, at: int, j: int)
    requires
        hunks_walk(d.old@, d.new@, d.hunks@, d.lines@, i, o, n, at),
        0 <= i <= j < d.hunks@.len(),
        0 <= o,
        0 <= n,
        at == lines_before(d.hunks@, i),
    ensures
        ({
            let h = d.hunks@[j];
            &&& h.lines.start == lines_before(d.hunks@, j)
            &&& h.lines.start <= h.lines.end <= d.lines@.len()
            &&& j + 1 == d.hunks@.len() ==> h.lines.end == d.lines@.len()
            &&& 0 <= h.old_from()
            &&& 0 <= h.new_from()
            &&& h.old_from() + h.old_len <= lines_of(d.old@).len()
            &&& h.new_from() + h.new_len <= lines_of(d.new@).len()
            &&& h.old_len == old_count(h.body(d.lines@))
            &&& h.new_len == new_count(h.body(d.lines@))
            &&& walks(d.old@, d.new@, h.body(d.lines@), h.old_from(), h.new_from())
        }),
    decreases j - i,
{
    let h = d.hunks@[i];
    assert(hunks_walk(
        d.old@,
        d.new@,
        d.hunks@,
        d.lines@,
        i + 1,
        h.old_from() + h.old_len,
        h.new_from() + h.new_len,
        h.lines.end as int,
    ));
    if i < j {
        lemma_hunks_tile(
            d,
            i + 1,
            h.old_from() + h.old_len,
            h.new_from() + h.new_len,
            h.lines.end as int,
            j,
        );
    }
}

/// The hunks divide the lines of a diff among them, in order and without a gap. Each header
/// counts its lines on either side, and the lines are numbered on from where the hunk starts.
pub proof fn law_hunks_tile_the_lines(d: FileDiff, j: int)
    requires
        d.wf(),
        0 <= j < d.hunks@.len(),
    ensures
        ({
            let h = d.hunks@[j];
            let body = h.body(d.lines@);
            &&& h.lines.start == lines_before(d.hunks@, j)
            &&& h.lines.start <= h.lines.end
            &&& j + 1 == d.hunks@.len() ==> h.lines.end == d.lines@.len()
            &&& h.old_len == old_count(body)
            &&& h.new_len == new_count(body)
            &&& forall|k: int|
                0 <= k < body.len() ==> #[trigger] is_numbered(
                    body,
                    k,
                    h.old_from(),
                    h.new_from(),
                )
        }),
{
    lemma_hunks_tile(d, 0, 0, 0, 0, j);
    let h = d.hunks@[j];
    let body = h.body(d.lines@);
    assert forall|k: int| 0 <= k < body.len() implies #[trigger] is_numbered(
        body,
        k,
        h.old_from(),
        h.new_from(),
    ) by {
        lemma_walk_numbered(d.old@, d.new@, body, h.old_from(), h.new_from(), k);
    }
}

proof fn lemma_hunk_holds_a_change(
    old: Seq<u8>,
    new: Seq<u8>,
    changes: Seq<Change>,
    a: int,
    b: int,
    context: int,
) -> (k: int)
    requires
        edit_script(old, new, changes),
        0 <= a < b <= changes.len(),
        0 <= context,
    ensures
        0 <= k < hunk_lines(old, new, changes, a, b, context).len(),
        hunk_lines(old, new, changes, a, b, context)[k].kind != LineKind::Context,
{
    lemma_script_at(old, new, changes, 0, 0, 0, a);
    let first = change_lines(old, new, changes[a]);
    let middle = changes_lines(old, new, changes, a, b);
    assert(first.len() > 0 && first[0].kind != LineKind::Context);
    assert(middle.len() > 0 && middle[0] == first[0]);
    let lead = lead_of(changes[a], context);
    assert(hunk_lines(old, new, changes, a, b, context)[lead] == middle[0]);
    lead
}

proof fn lemma_hunks_hold_changes(
    old: Seq<u8>,
    new: Seq<u8>,
    changes: Seq<Change>,
    a: int,
    context: int,
    at: int,
    j: int,
)
    requires
        edit_script(old, new, changes),
        0 <= a <= changes.len(),
        0 <= context,
        0 <= at,
        at + diff_lines(old, new, changes, a, context).len() <= usize::MAX,
        0 <= j < diff_hunks(old, new, changes, a, context, at).len(),
    ensures
        ({
            let h = diff_hunks(old, new, changes, a, context, at)[j];
            let lines = diff_lines(old, new, changes, a, context);
            exists|k: int|
                h.lines.start <= k < h.lines.end && at <= k < at + lines.len() && #[trigger] lines[k
                    - at].kind != LineKind::Context
        }),
    decreases changes.len() - a,
{
    lemma_group_end(changes, a, context);
    let b = group_end(changes, a, context);
    let here = hunk_lines(old, new, changes, a, b, context);
    let lines = diff_lines(old, new, changes, a, context);
    let next = diff_lines(old, new, changes, b, context);
    if j == 0 {
        let k = lemma_hunk_holds_a_change(old, new, changes, a, b, context);
        assert(lines[(at + k) - at] == here[k]);
    } else {
        let after = at + here.len();
        lemma_hunks_hold_changes(old, new, changes, b, context, after, j - 1);
        let h = diff_hunks(old, new, changes, b, context, after)[j - 1];
        assert(diff_hunks(old, new, changes, a, context, at)[j] == h);
        let k = choose|k: int|
            h.lines.start <= k < h.lines.end && after <= k < after + next.len()
                && #[trigger] next[k - after].kind != LineKind::Context;
        assert(lines[k - at] == next[k - after]);
    }
}

/// Each hunk of a diff that was computed holds a line that changed.
pub proof fn law_hunks_hold_a_change(d: FileDiff, changes: Seq<Change>, context: u32, j: int)
    requires
        edit_script(d.old@, d.new@, changes),
        d.hunks@ == diff_hunks(d.old@, d.new@, changes, 0, context as int, 0),
        d.lines@ == diff_lines(d.old@, d.new@, changes, 0, context as int),
        0 <= j < d.hunks@.len(),
    ensures
        exists|k: int|
            d.hunks@[j].lines.start <= k < d.hunks@[j].lines.end && 0 <= k < d.lines@.len()
                && #[trigger] d.lines@[k].kind != LineKind::Context,
{
    assert(d.lines.len() <= usize::MAX);
    lemma_hunks_hold_changes(d.old@, d.new@, changes, 0, context as int, 0, j);
    let h = d.hunks@[j];
    let k = choose|k: int|
        h.lines.start <= k < h.lines.end && 0 <= k < 0 + d.lines@.len() && #[trigger] d.lines@[k
            - 0].kind != LineKind::Context;
    assert(d.lines@[k].kind != LineKind::Context);
}

/// The lines of a hunk give back both texts: those behind a space or `-` are exactly the old
/// lines that its header names, terminators and all, and those behind a space or `+` the new
/// ones. Where a line has no newline, it is marked.
pub proof fn law_hunks_give_back_both_texts(d: FileDiff, j: int)
    requires
        d.wf(),
        0 <= j < d.hunks@.len(),
    ensures
        ({
            let h = d.hunks@[j];
            let body = h.body(d.lines@);
            &&& old_texts(d.old@, d.new@, body) == lines_of(d.old@).subrange(
                h.old_from(),
                h.old_from() + h.old_len,
            )
            &&& new_texts(d.old@, d.new@, body) == lines_of(d.new@).subrange(
                h.new_from(),
                h.new_from() + h.new_len,
            )
            &&& forall|k: int|
                0 <= k < body.len() ==> (#[trigger] body[k]).no_newline == !has_newline(
                    full_line(d.old@, d.new@, body[k]),
                )
        }),
{
    lemma_hunks_tile(d, 0, 0, 0, 0, j);
    let h = d.hunks@[j];
    let body = h.body(d.lines@);
    lemma_walk_texts(d.old@, d.new@, body, h.old_from(), h.new_from());
    assert forall|k: int| 0 <= k < body.len() implies (#[trigger] body[k]).no_newline
        == !has_newline(full_line(d.old@, d.new@, body[k])) by {
        lemma_walk_known(d.old@, d.new@, body, h.old_from(), h.new_from(), k);
    }
}

/// A diff that has no hunks where its texts are equal, as every computed one, is printed as
/// nothing exactly where they are.
pub proof fn law_equal_texts_print_nothing(d: FileDiff)
    requires
        d.wf(),
        d.old@ == d.new@ ==> d.hunks@.len() == 0,
    ensures
        unified_hunks(d.old@, d.new@, d.hunks@, d.lines@, 0).len() == 0 <==> d.old@ == d.new@,
{
    if d.hunks@.len() == 0 {
        lemma_same_texts(d.old@, d.new@);
    }
}

/// Texts without any difference in their lines are equal.
proof fn lemma_same_texts(old: Seq<u8>, new: Seq<u8>)
    requires
        same_lines(old, new, 0, 0, lines_of(old).len() as int),
        lines_of(old).len() == lines_of(new).len(),
    ensures
        old == new,
{
    assert forall|k: int| 0 <= k < lines_of(old).len() implies lines_of(old)[k] == #[trigger] lines_of(
        new,
    )[k] by {
        assert(lines_of(old)[0 + k] == lines_of(new)[0 + k]);
    }
    assert(lines_of(old) =~= lines_of(new));
    lemma_lines_flatten(old, 0);
    lemma_lines_flatten(new, 0);
    assert(old.subrange(0, old.len() as int) =~= old);
    assert(new.subrange(0, new.len() as int) =~= new);
}

/// The range in a hunk header reads back: the start, up to a comma or the end; and the length
/// behind the comma, or one without.
pub proof fn law_ranges_read_back(start: nat, len: nat)
    ensures
        ({
            let text = header_range(start as int, len as int);
            let comma = crate::bytes::find_byte(text, 44, 0);
            &&& 0 < comma <= text.len()
            &&& crate::bytes::decimal_value(text.take(comma)) == Some(start)
            &&& comma == text.len() <==> len == 1
            &&& len != 1 ==> comma + 1 < text.len() && crate::bytes::decimal_value(
                text.skip(comma + 1),
            ) == Some(len)
        }),
{
    let text = header_range(start as int, len as int);
    let first = crate::bytes::decimal(start);
    let second = crate::bytes::decimal(len);
    crate::bytes::law_decimals_read_back(start);
    crate::bytes::law_decimals_read_back(len);
    assert forall|i: int| 0 <= i < first.len() implies #[trigger] text[i] != 44 by {
        assert(text[i] == first[i]);
    }
    lemma_comma_at(text, 0, first.len() as int);
    assert(text.take(first.len() as int) =~= first);
    if len != 1 {
        assert(text.skip(first.len() as int + 1) =~= second);
    }
}

proof fn lemma_comma_at(text: Seq<u8>, from: int, at: int)
    requires
        0 <= from <= at <= text.len(),
        forall|i: int| from <= i < at ==> #[trigger] text[i] != 44,
        at < text.len() ==> text[at] == 44,
    ensures
        crate::bytes::find_byte(text, 44, from) == at,
    decreases at - from,
{
    if from < at {
        assert(text[from] != 44);
        lemma_comma_at(text, from + 1, at);
    }
}

} // verus!
