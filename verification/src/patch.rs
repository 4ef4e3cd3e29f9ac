//! Exact partial patches for `git apply`: a subset of a diff's changed lines, turned into
//! a patch that applies with zero fuzz.
//!
//! A *forward* patch applies to the diff's old side (staging worktree changes into the
//! index): unselected removals stay as context and unselected additions are dropped. A
//! *reverse* patch is applied with `-R` to the diff's new side (unstaging from the index,
//! discarding from the worktree): unselected additions stay as context and unselected
//! removals are dropped. Either way, the side the patch is matched against is exactly the
//! content on disk.
use vstd::prelude::*;

use crate::bytes::{append, append_byte, append_str, copy, LF};
use crate::diff::{push_marked_line, push_range, DiffLine, FileDiff, Hunk, LineKind, MAX_LINES};

verus! {

#[derive(Debug, Clone, Copy, PartialEq, Eq, Structural)]
pub enum Direction {
    /// Applied as-is to the old side.
    Forward,
    /// Applied with `git apply -R` to the new side.
    Reverse,
}

/// The file-level header of the patch.
#[derive(Debug, Clone, Copy, PartialEq, Eq)]
pub enum Header<'a> {
    /// The file exists on the side the patch applies to.
    Modify,
    /// The file doesn't exist yet (staging part of an untracked file).
    NewFile { mode: &'a str },
}

#[derive(Debug, Clone, Copy, PartialEq, Eq, Structural)]
pub enum PatchError {
    /// A line without a newline would not be the last on its side.
    SplitsFinalNewline,
}

impl PatchError {
    /// What to tell the user.
    pub fn message(&self) -> (text: &'static str)
        ensures
            text@
                == "this selection splits an end-of-file newline change; include the last line of the file"@,
    {
        "this selection splits an end-of-file newline change; include the last line of the file"
    }
}

// ---------------------------------------------------------------------------
// What a patch holds.

/// A line of a patch: line `ix` of the diff, shown as `kind`.
#[derive(Debug, Clone, Copy, PartialEq, Eq, Structural)]
pub struct OutLine {
    pub kind: LineKind,
    pub ix: usize,
}

/// How a patch shows a diff line, if it does: selected changes stay, unselected ones are
/// context where they stand on the side the patch applies to.
pub open spec fn out_kind(kind: LineKind, direction: Direction, selected: bool) -> Option<
    LineKind,
> {
    if kind == LineKind::Context || selected {
        Some(kind)
    } else if kind == base_missing(direction) {
        None
    } else {
        Some(LineKind::Context)
    }
}

/// The kind of line that is missing on the side the patch applies to.
pub open spec fn base_missing(direction: Direction) -> LineKind {
    match direction {
        Direction::Forward => LineKind::Added,
        Direction::Reverse => LineKind::Removed,
    }
}

/// The kind of line that is missing on the side the patch leads to.
pub open spec fn result_missing(direction: Direction) -> LineKind {
    match direction {
        Direction::Forward => LineKind::Removed,
        Direction::Reverse => LineKind::Added,
    }
}

/// The lines `from..to` of a diff as a patch shows them.
pub open spec fn out_lines(
    lines: Seq<DiffLine>,
    selected: Seq<bool>,
    direction: Direction,
    from: int,
    to: int,
) -> Seq<OutLine>
    decreases to - from,
{
    if from >= to {
        Seq::empty()
    } else {
        (match out_kind(lines[from].kind, direction, selected[from]) {
            Some(kind) => seq![OutLine { kind, ix: from as usize }],
            None => Seq::empty(),
        }) + out_lines(lines, selected, direction, from + 1, to)
    }
}

/// Whether any changed line of the hunk is selected.
pub open spec fn picked(lines: Seq<DiffLine>, selected: Seq<bool>, hunk: Hunk) -> bool {
    exists|ix: int|
        #![trigger selected[ix]]
        hunk.lines.start <= ix < hunk.lines.end && lines[ix].kind != LineKind::Context
            && selected[ix]
}

/// Whether two lines of a patch stand on one side.
pub open spec fn share_side(a: LineKind, b: LineKind) -> bool {
    (a != LineKind::Added && b != LineKind::Added) || (a != LineKind::Removed && b
        != LineKind::Removed)
}

/// Whether a line without a newline is not the last on its side.
pub open spec fn splits(lines: Seq<DiffLine>, outs: Seq<OutLine>) -> bool {
    exists|i: int, j: int|
        #![trigger outs[i], outs[j]]
        0 <= i < j < outs.len() && lines[outs[i].ix as int].no_newline && share_side(
            outs[i].kind,
            outs[j].kind,
        )
}

/// How many lines stand on the side that lacks lines of kind `missing`.
pub open spec fn side_len(outs: Seq<OutLine>, missing: LineKind) -> int
    decreases outs.len(),
{
    if outs.len() == 0 {
        0
    } else {
        side_len(outs.drop_last(), missing) + if outs.last().kind == missing {
            0int
        } else {
            1
        }
    }
}

/// A hunk of a patch. `old_first` and `new_first` are 1-based.
pub struct PatchHunk {
    pub old_first: int,
    pub old_len: int,
    pub new_first: int,
    pub new_len: int,
    pub lines: Seq<OutLine>,
}

/// The part of a hunk that a patch shows, where the hunks before it make the other side
/// longer by `offset` lines than the side the patch applies to. The side that exists on
/// disk keeps the original hunk's position.
pub open spec fn patch_hunk(
    lines: Seq<DiffLine>,
    selected: Seq<bool>,
    direction: Direction,
    hunk: Hunk,
    offset: int,
) -> PatchHunk {
    let outs = out_lines(
        lines,
        selected,
        direction,
        hunk.lines.start as int,
        hunk.lines.end as int,
    );
    PatchHunk {
        old_first: match direction {
            Direction::Forward => hunk.old_from() + 1,
            Direction::Reverse => hunk.new_from() + 1 - offset,
        },
        old_len: side_len(outs, LineKind::Added),
        new_first: match direction {
            Direction::Forward => hunk.old_from() + 1 + offset,
            Direction::Reverse => hunk.new_from() + 1,
        },
        new_len: side_len(outs, LineKind::Removed),
        lines: outs,
    }
}

/// By how much a hunk makes the other side longer than the side the patch applies to.
pub open spec fn growth(p: PatchHunk, direction: Direction) -> int {
    match direction {
        Direction::Forward => p.new_len - p.old_len,
        Direction::Reverse => p.old_len - p.new_len,
    }
}

/// The hunks of the patch for the selected lines, from the diff's hunk `i` on. Hunks in
/// which nothing is selected are left out.
pub open spec fn patch_hunks(
    hunks: Seq<Hunk>,
    lines: Seq<DiffLine>,
    selected: Seq<bool>,
    direction: Direction,
    i: int,
    offset: int,
) -> Seq<PatchHunk>
    decreases hunks.len() - i,
{
    if i >= hunks.len() {
        Seq::empty()
    } else if picked(lines, selected, hunks[i]) {
        let p = patch_hunk(lines, selected, direction, hunks[i], offset);
        seq![p] + patch_hunks(
            hunks,
            lines,
            selected,
            direction,
            i + 1,
            offset + growth(p, direction),
        )
    } else {
        patch_hunks(hunks, lines, selected, direction, i + 1, offset)
    }
}

/// Whether a hunk of the patch, from the diff's hunk `i` on, splits a final newline.
pub open spec fn any_splits(
    hunks: Seq<Hunk>,
    lines: Seq<DiffLine>,
    selected: Seq<bool>,
    direction: Direction,
    i: int,
) -> bool
    decreases hunks.len() - i,
{
    i < hunks.len() && ((picked(lines, selected, hunks[i]) && splits(
        lines,
        out_lines(
            lines,
            selected,
            direction,
            hunks[i].lines.start as int,
            hunks[i].lines.end as int,
        ),
    )) || any_splits(hunks, lines, selected, direction, i + 1))
}

// ---------------------------------------------------------------------------
// The patch as bytes.

/// A hunk header's range: for an empty side, git names the line *before* the hunk.
pub open spec fn shown_range(first: int, len: int) -> Seq<u8> {
    crate::diff::header_range(
        if len == 0 {
            first - 1
        } else {
            first
        },
        len,
    )
}

/// The lines of a hunk of a patch as bytes.
pub open spec fn rendered_lines(
    old: Seq<u8>,
    new: Seq<u8>,
    lines: Seq<DiffLine>,
    outs: Seq<OutLine>,
) -> Seq<u8>
    decreases outs.len(),
{
    if outs.len() == 0 {
        Seq::empty()
    } else {
        let last = outs.last();
        rendered_lines(old, new, lines, outs.drop_last()) + crate::diff::marked_line(
            crate::diff::kind_prefix(last.kind),
            crate::diff::full_line(old, new, lines[last.ix as int]),
            lines[last.ix as int].no_newline,
        )
    }
}

/// A hunk of a patch as bytes.
pub open spec fn rendered_hunk(
    old: Seq<u8>,
    new: Seq<u8>,
    lines: Seq<DiffLine>,
    p: PatchHunk,
) -> Seq<u8> {
    vstd::utf8::encode_utf8("@@ -"@) + shown_range(p.old_first, p.old_len)
        + vstd::utf8::encode_utf8(" +"@) + shown_range(p.new_first, p.new_len)
        + vstd::utf8::encode_utf8(" @@\n"@) + rendered_lines(old, new, lines, p.lines)
}

/// The hunks of a patch as bytes.
pub open spec fn rendered_hunks(
    old: Seq<u8>,
    new: Seq<u8>,
    lines: Seq<DiffLine>,
    ps: Seq<PatchHunk>,
) -> Seq<u8>
    decreases ps.len(),
{
    if ps.len() == 0 {
        Seq::empty()
    } else {
        rendered_hunk(old, new, lines, ps[0]) + rendered_hunks(old, new, lines, ps.drop_first())
    }
}

/// Whether git quotes a path for the sake of this byte.
pub open spec fn quoted_byte(b: u8) -> bool {
    b == 34 || b == 92 || b < 0x20 || b >= 0x7f
}

/// A byte within a quoted path: special characters are escaped, in octal where they have
/// no letter.
pub open spec fn escaped(b: u8) -> Seq<u8> {
    if b == 34 {
        seq![92u8, 34u8]
    } else if b == 92 {
        seq![92u8, 92u8]
    } else if b == 9 {
        seq![92u8, 116u8]
    } else if b == 10 {
        seq![92u8, 110u8]
    } else if b < 0x20 || b >= 0x7f {
        seq![92u8, (48 + b / 64) as u8, (48 + b / 8 % 8) as u8, (48 + b % 8) as u8]
    } else {
        seq![b]
    }
}

/// The bytes of a path, each escaped.
pub open spec fn escaped_path(path: Seq<u8>) -> Seq<u8>
    decreases path.len(),
{
    if path.len() == 0 {
        Seq::empty()
    } else {
        escaped_path(path.drop_last()) + escaped(path.last())
    }
}

/// A path as a patch names it.
pub open spec fn shown_path(prefix: Seq<u8>, path: Seq<u8>) -> Seq<u8> {
    if exists|i: int| 0 <= i < path.len() && quoted_byte(#[trigger] path[i]) {
        seq![34u8] + prefix + escaped_path(path) + seq![34u8]
    } else {
        prefix + path
    }
}

/// The lines of a patch before its first hunk.
pub open spec fn rendered_header(path: Seq<u8>, header: Header) -> Seq<u8> {
    let a = shown_path(vstd::utf8::encode_utf8("a/"@), path);
    let b = shown_path(vstd::utf8::encode_utf8("b/"@), path);
    vstd::utf8::encode_utf8("diff --git "@) + a + seq![32u8] + b + seq![LF] + (match header {
        Header::Modify => vstd::utf8::encode_utf8("--- "@) + a,
        Header::NewFile { mode } => vstd::utf8::encode_utf8("new file mode "@)
            + vstd::utf8::encode_utf8(mode@) + vstd::utf8::encode_utf8("\n--- /dev/null"@),
    }) + vstd::utf8::encode_utf8("\n+++ "@) + b + seq![LF]
}

/// What [`build`] returns.
pub open spec fn built(
    result: Result<Option<Vec<u8>>, PatchError>,
    path: Seq<u8>,
    diff: FileDiff,
    selected: Seq<bool>,
    direction: Direction,
    header: Header,
) -> bool {
    let (hunks, lines) = (diff.hunks@, diff.lines@);
    let ps = patch_hunks(hunks, lines, selected, direction, 0, 0);
    match result {
        Err(PatchError::SplitsFinalNewline) => any_splits(hunks, lines, selected, direction, 0),
        Ok(None) => !any_splits(hunks, lines, selected, direction, 0) && ps.len() == 0,
        Ok(Some(patch)) => {
            &&& !any_splits(hunks, lines, selected, direction, 0)
            &&& ps.len() > 0
            &&& patch@ == rendered_header(path, header) + rendered_hunks(
                diff.old@,
                diff.new@,
                lines,
                ps,
            )
        },
    }
}

/// The patch for the selected lines, if any changed line is selected.
pub open spec fn patch_of(
    path: Seq<u8>,
    diff: FileDiff,
    selected: Seq<bool>,
    direction: Direction,
    header: Header,
) -> Result<Option<Seq<u8>>, PatchError> {
    let (hunks, lines) = (diff.hunks@, diff.lines@);
    let ps = patch_hunks(hunks, lines, selected, direction, 0, 0);
    if any_splits(hunks, lines, selected, direction, 0) {
        Err(PatchError::SplitsFinalNewline)
    } else if ps.len() == 0 {
        Ok(None)
    } else {
        Ok(Some(rendered_header(path, header) + rendered_hunks(diff.old@, diff.new@, lines, ps)))
    }
}

// ---------------------------------------------------------------------------
// Building a patch.

fn any_selected(diff: &FileDiff, selected: &[bool], hunk: &Hunk) -> (result: bool)
    requires
        hunk.lines.start <= hunk.lines.end <= diff.lines@.len(),
        selected@.len() == diff.lines@.len(),
    ensures
        result == picked(diff.lines@, selected@, *hunk),
{
    let mut ix: usize = hunk.lines.start;
    while ix < hunk.lines.end
        invariant
            hunk.lines.start <= ix <= hunk.lines.end <= diff.lines@.len(),
            selected@.len() == diff.lines@.len(),
            forall|k: int|
                #![trigger selected@[k]]
                hunk.lines.start <= k < ix ==> diff.lines@[k].kind == LineKind::Context
                    || !selected@[k],
        decreases hunk.lines.end - ix,
    {
        if diff.lines[ix].kind != LineKind::Context && selected[ix] {
            assert(selected@[ix as int]);
            return true;
        }
        ix = ix + 1;
    }
    false
}

fn shown_lines(diff: &FileDiff, selected: &[bool], direction: Direction, hunk: &Hunk) -> (outs: Vec<
    OutLine,
>)
    requires
        hunk.lines.start <= hunk.lines.end <= diff.lines@.len(),
        selected@.len() == diff.lines@.len(),
    ensures
        outs@ == out_lines(
            diff.lines@,
            selected@,
            direction,
            hunk.lines.start as int,
            hunk.lines.end as int,
        ),
        forall|k: int|
            0 <= k < outs@.len() ==> hunk.lines.start <= (#[trigger] outs@[k]).ix < hunk.lines.end,
        outs@.len() <= hunk.lines.end - hunk.lines.start,
{
    let mut outs: Vec<OutLine> = Vec::new();
    let start: usize = hunk.lines.start;
    let end: usize = hunk.lines.end;
    let mut ix: usize = start;
    let ghost all = out_lines(diff.lines@, selected@, direction, start as int, end as int);
    assert(outs@ + all =~= all);
    while ix < end
        invariant
            start <= ix <= end <= diff.lines@.len(),
            selected@.len() == diff.lines@.len(),
            outs@ + out_lines(diff.lines@, selected@, direction, ix as int, end as int) == all,
            outs@.len() <= ix - start,
            forall|k: int| 0 <= k < outs@.len() ==> start <= (#[trigger] outs@[k]).ix < end,
        decreases end - ix,
    {
        let ghost before = outs@;
        let kind = diff.lines[ix].kind;
        let shown: Option<LineKind> = match (kind, direction, selected[ix]) {
            (LineKind::Context, _, _) => Some(LineKind::Context),
            (LineKind::Added, _, true) => Some(LineKind::Added),
            (LineKind::Removed, _, true) => Some(LineKind::Removed),
            (LineKind::Removed, Direction::Forward, false) => Some(LineKind::Context),
            (LineKind::Added, Direction::Reverse, false) => Some(LineKind::Context),
            (LineKind::Added, Direction::Forward, false) => None,
            (LineKind::Removed, Direction::Reverse, false) => None,
        };
        assert(shown == out_kind(kind, direction, selected@[ix as int]));
        if let Some(kind) = shown {
            outs.push(OutLine { kind, ix });
        }
        ix = ix + 1;
        assert(outs@ + out_lines(diff.lines@, selected@, direction, ix as int, end as int)
            =~= before + out_lines(diff.lines@, selected@, direction, ix - 1, end as int));
    }
    assert(outs@ =~= all);
    outs
}

/// A line without a newline must be the last on its side.
fn splits_newline(diff: &FileDiff, outs: &[OutLine]) -> (result: bool)
    requires
        forall|k: int| 0 <= k < outs@.len() ==> (#[trigger] outs@[k]).ix < diff.lines@.len(),
    ensures
        result == splits(diff.lines@, outs@),
{
    let mut i: usize = 0;
    while i < outs.len()
        invariant
            i <= outs@.len(),
            forall|k: int| 0 <= k < outs@.len() ==> (#[trigger] outs@[k]).ix < diff.lines@.len(),
            forall|a: int, b: int|
                #![trigger outs@[a], outs@[b]]
                0 <= a < b < outs@.len() && a < i ==> !(diff.lines@[outs@[a].ix as int].no_newline
                    && share_side(outs@[a].kind, outs@[b].kind)),
        decreases outs.len() - i,
    {
        if diff.lines[outs[i].ix].no_newline {
            let kind = outs[i].kind;
            let mut j: usize = i + 1;
            while j < outs.len()
                invariant
                    i < j <= outs@.len(),
                    kind == outs@[i as int].kind,
                    outs@[i as int].ix < diff.lines@.len(),
                    diff.lines@[outs@[i as int].ix as int].no_newline,
                    forall|b: int|
                        i < b < j ==> !share_side(kind, #[trigger] outs@[b].kind),
                decreases outs.len() - j,
            {
                let other = outs[j].kind;
                if (kind != LineKind::Added && other != LineKind::Added) || (kind
                    != LineKind::Removed && other != LineKind::Removed) {
                    assert(share_side(outs@[i as int].kind, outs@[j as int].kind));
                    return true;
                }
                j = j + 1;
            }
        }
        i = i + 1;
    }
    false
}

fn count_side(outs: &[OutLine], missing: LineKind) -> (count: usize)
    ensures
        count == side_len(outs@, missing),
        count <= outs@.len(),
{
    let mut count: usize = 0;
    let mut i: usize = 0;
    while i < outs.len()
        invariant
            i <= outs@.len(),
            count <= i,
            count == side_len(outs@.take(i as int), missing),
        decreases outs.len() - i,
    {
        assert(outs@.take(i + 1).drop_last() =~= outs@.take(i as int));
        if outs[i].kind != missing {
            count = count + 1;
        }
        i = i + 1;
    }
    assert(outs@.take(i as int) =~= outs@);
    count
}

fn push_shown_range(out: &mut Vec<u8>, first: i64, len: i64)
    requires
        -0x2_0000_0000 <= first <= 0x2_0000_0000,
        0 <= len,
    ensures
        final(out)@ == old(out)@ + shown_range(first as int, len as int),
{
    let start: i64 = if len == 0 {
        first - 1
    } else {
        first
    };
    push_range(out, start, len);
}

fn push_lines(out: &mut Vec<u8>, diff: &FileDiff, outs: &[OutLine])
    requires
        forall|k: int|
            0 <= k < outs@.len() ==> (#[trigger] outs@[k]).ix < diff.lines@.len()
                && crate::diff::line_known(diff.old@, diff.new@, diff.lines@[outs@[k].ix as int]),
    ensures
        final(out)@ == old(out)@ + rendered_lines(diff.old@, diff.new@, diff.lines@, outs@),
{
    let ghost before = out@;
    let mut i: usize = 0;
    assert(out@ =~= before + rendered_lines(diff.old@, diff.new@, diff.lines@, outs@.take(0)));
    while i < outs.len()
        invariant
            i <= outs@.len(),
            forall|k: int|
                0 <= k < outs@.len() ==> (#[trigger] outs@[k]).ix < diff.lines@.len()
                    && crate::diff::line_known(
                    diff.old@,
                    diff.new@,
                    diff.lines@[outs@[k].ix as int],
                ),
            out@ == before + rendered_lines(
                diff.old@,
                diff.new@,
                diff.lines@,
                outs@.take(i as int),
            ),
        decreases outs.len() - i,
    {
        let o = outs[i];
        let line = &diff.lines[o.ix];
        let prefix: u8 = match o.kind {
            LineKind::Context => 32,
            LineKind::Added => 43,
            LineKind::Removed => 45,
        };
        push_marked_line(out, prefix, diff.line_text(line), line.no_newline);
        assert(outs@.take(i + 1).drop_last() =~= outs@.take(i as int));
        i = i + 1;
        assert(out@ =~= before + rendered_lines(
            diff.old@,
            diff.new@,
            diff.lines@,
            outs@.take(i as int),
        ));
    }
    assert(outs@.take(i as int) =~= outs@);
}

/// 0-based first line of a hunk side. For an empty side, git's header names the line
/// *before* the hunk.
fn first_line(start: u32, len: u32) -> (first: i64)
    ensures
        first == (if len == 0 {
            start + 1
        } else {
            start as int
        }),
{
    if len == 0 {
        start as i64 + 1
    } else {
        start as i64
    }
}

fn quote_needed(path: &[u8]) -> (result: bool)
    ensures
        result == exists|i: int| 0 <= i < path@.len() && quoted_byte(#[trigger] path@[i]),
{
    let mut i: usize = 0;
    while i < path.len()
        invariant
            i <= path@.len(),
            forall|k: int| 0 <= k < i ==> !quoted_byte(#[trigger] path@[k]),
        decreases path.len() - i,
    {
        let b: u8 = path[i];
        if b == 34 || b == 92 || b < 0x20 || b >= 0x7f {
            assert(quoted_byte(path@[i as int]));
            return true;
        }
        i = i + 1;
    }
    false
}

fn push_escaped(out: &mut Vec<u8>, b: u8)
    ensures
        final(out)@ == old(out)@ + escaped(b),
{
    let ghost before = out@;
    if b == 34 {
        out.push(92);
        out.push(34);
    } else if b == 92 {
        out.push(92);
        out.push(92);
    } else if b == 9 {
        out.push(92);
        out.push(116);
    } else if b == 10 {
        out.push(92);
        out.push(110);
    } else if b < 0x20 || b >= 0x7f {
        out.push(92);
        out.push(48 + b / 64);
        out.push(48 + b / 8 % 8);
        out.push(48 + b % 8);
    } else {
        out.push(b);
    }
    assert(out@ =~= before + escaped(b));
}

/// Quotes a path the way git does when it contains special characters.
pub fn quote_path(prefix: &[u8], path: &[u8]) -> (out: Vec<u8>)
    ensures
        out@ == shown_path(prefix@, path@),
{
    let mut out: Vec<u8> = Vec::new();
    if !quote_needed(path) {
        append(&mut out, prefix);
        append(&mut out, path);
        assert(out@ =~= prefix@ + path@);
        return out;
    }
    out.push(34);
    append(&mut out, prefix);
    let ghost start = out@;
    let mut i: usize = 0;
    assert(start + escaped_path(path@.take(0)) =~= start);
    while i < path.len()
        invariant
            i <= path@.len(),
            out@ == start + escaped_path(path@.take(i as int)),
        decreases path.len() - i,
    {
        push_escaped(&mut out, path[i]);
        assert(path@.take(i + 1).drop_last() =~= path@.take(i as int));
        i = i + 1;
        assert(out@ =~= start + escaped_path(path@.take(i as int)));
    }
    assert(path@.take(i as int) =~= path@);
    out.push(34);
    assert(out@ =~= seq![34u8] + prefix@ + escaped_path(path@) + seq![34u8]);
    out
}

fn file_header(path: &[u8], header: Header) -> (out: Vec<u8>)
    ensures
        out@ == rendered_header(path@, header),
{
    let a = quote_path("a/".as_bytes(), path);
    let b = quote_path("b/".as_bytes(), path);
    let side: Vec<u8> = match header {
        Header::Modify => {
            let mut side = copy("--- ".as_bytes());
            append(&mut side, a.as_slice());
            side
        },
        Header::NewFile { mode } => {
            let mut side = copy("new file mode ".as_bytes());
            append_str(&mut side, mode);
            append_str(&mut side, "\n--- /dev/null");
            side
        },
    };
    let mut out = copy("diff --git ".as_bytes());
    append(&mut out, a.as_slice());
    append_byte(&mut out, 32);
    append(&mut out, b.as_slice());
    append_byte(&mut out, LF);
    append(&mut out, side.as_slice());
    append_str(&mut out, "\n+++ ");
    append(&mut out, b.as_slice());
    append_byte(&mut out, LF);
    out
}

/// A run of diff lines has no more lines than its two sides together.
proof fn lemma_counts(lines: Seq<DiffLine>)
    ensures
        0 <= crate::diff::old_count(lines),
        0 <= crate::diff::new_count(lines),
        lines.len() <= crate::diff::old_count(lines) + crate::diff::new_count(lines),
    decreases lines.len(),
{
    if lines.len() > 0 {
        lemma_counts(lines.drop_first());
    }
}

/// Appends a hunk of the patch and returns by how much it makes the other side longer.
fn push_patch_hunk(
    out: &mut Vec<u8>,
    diff: &FileDiff,
    selected: &[bool],
    direction: Direction,
    hunk: &Hunk,
    outs: &[OutLine],
    offset: i64,
) -> (more: i64)
    requires
        outs@ == out_lines(
            diff.lines@,
            selected@,
            direction,
            hunk.lines.start as int,
            hunk.lines.end as int,
        ),
        outs@.len() <= 0xffff_ffff,
        -0xffff_ffff <= offset <= 0xffff_ffff,
        hunk.old_len == 0 || hunk.old_start > 0,
        hunk.new_len == 0 || hunk.new_start > 0,
        forall|k: int|
            0 <= k < outs@.len() ==> (#[trigger] outs@[k]).ix < diff.lines@.len()
                && crate::diff::line_known(diff.old@, diff.new@, diff.lines@[outs@[k].ix as int]),
    ensures
        final(out)@ == old(out)@ + rendered_hunk(
            diff.old@,
            diff.new@,
            diff.lines@,
            patch_hunk(diff.lines@, selected@, direction, *hunk, offset as int),
        ),
        more == growth(
            patch_hunk(diff.lines@, selected@, direction, *hunk, offset as int),
            direction,
        ),
        -outs@.len() <= more <= outs@.len(),
{
    let ghost before = out@;
    let ghost p = patch_hunk(diff.lines@, selected@, direction, *hunk, offset as int);
    let old_len: i64 = count_side(outs, LineKind::Added) as i64;
    let new_len: i64 = count_side(outs, LineKind::Removed) as i64;
    let (old_first, new_first): (i64, i64) = match direction {
        Direction::Forward => {
            let base: i64 = first_line(hunk.old_start, hunk.old_len);
            (base, base + offset)
        },
        Direction::Reverse => {
            let base: i64 = first_line(hunk.new_start, hunk.new_len);
            (base - offset, base)
        },
    };
    append_str(out, "@@ -");
    push_shown_range(out, old_first, old_len);
    append_str(out, " +");
    push_shown_range(out, new_first, new_len);
    append_str(out, " @@\n");
    push_lines(out, diff, outs);
    assert(out@ =~= before + rendered_hunk(diff.old@, diff.new@, diff.lines@, p));
    match direction {
        Direction::Forward => new_len - old_len,
        Direction::Reverse => old_len - new_len,
    }
}

/// Builds the patch for the lines that `selected` marks.
pub fn build_selected(
    path: &[u8],
    diff: &FileDiff,
    selected: &[bool],
    direction: Direction,
    header: Header,
) -> (result: Result<Option<Vec<u8>>, PatchError>)
    requires
        diff.wf(),
        selected@.len() == diff.lines@.len(),
    ensures
        built(result, path@, *diff, selected@, direction, header),
{
    let ghost (old, new, hunks, lines) = (diff.old@, diff.new@, diff.hunks@, diff.lines@);
    let ghost all = patch_hunks(hunks, lines, selected@, direction, 0, 0);
    let mut body: Vec<u8> = Vec::new();
    let mut any: bool = false;
    // Line-count delta (other side minus base side) of the hunks emitted so far.
    let mut offset: i64 = 0;
    let mut i: usize = 0;
    let ghost mut o: int = 0;
    let ghost mut n: int = 0;
    let ghost mut at: int = 0;
    assert(body@ + rendered_hunks(old, new, lines, all) =~= rendered_hunks(old, new, lines, all));
    while i < diff.hunks.len()
        invariant
            i <= hunks.len(),
            old == diff.old@,
            new == diff.new@,
            hunks == diff.hunks@,
            lines == diff.lines@,
            selected@.len() == lines.len(),
            crate::diff::lines_of(old).len() < MAX_LINES,
            crate::diff::lines_of(new).len() < MAX_LINES,
            crate::diff::hunks_walk(old, new, hunks, lines, i as int, o, n, at),
            0 <= o <= crate::diff::lines_of(old).len(),
            0 <= n <= crate::diff::lines_of(new).len(),
            -(o + n) <= offset <= o + n,
            body@ + rendered_hunks(
                old,
                new,
                lines,
                patch_hunks(hunks, lines, selected@, direction, i as int, offset as int),
            ) == rendered_hunks(old, new, lines, all),
            any <==> all.len() > patch_hunks(
                hunks,
                lines,
                selected@,
                direction,
                i as int,
                offset as int,
            ).len(),
            all.len() >= patch_hunks(
                hunks,
                lines,
                selected@,
                direction,
                i as int,
                offset as int,
            ).len(),
            any_splits(hunks, lines, selected@, direction, 0) == any_splits(
                hunks,
                lines,
                selected@,
                direction,
                i as int,
            ),
        decreases hunks.len() - i,
    {
        let hunk = &diff.hunks[i];
        let ghost rest = patch_hunks(
            hunks,
            lines,
            selected@,
            direction,
            i as int,
            offset as int,
        );
        let ghost before = body@;
        proof {
            assert(crate::diff::remaining(old, new, hunks, lines, i as int));
            crate::diff::lemma_hunk(old, new, hunks, lines, i as int);
            lemma_counts(hunk.body(lines));
        }
        if any_selected(diff, selected, hunk) {
            let outs = shown_lines(diff, selected, direction, hunk);
            if splits_newline(diff, outs.as_slice()) {
                return Err(PatchError::SplitsFinalNewline);
            }
            any = true;
            let more: i64 = push_patch_hunk(
                &mut body,
                diff,
                selected,
                direction,
                hunk,
                outs.as_slice(),
                offset,
            );
            let ghost p = patch_hunk(lines, selected@, direction, *hunk, offset as int);
            offset = offset + more;
            proof {
                let next = patch_hunks(
                    hunks,
                    lines,
                    selected@,
                    direction,
                    i + 1,
                    offset as int,
                );
                assert(rest == seq![p] + next);
                assert(rest.drop_first() =~= next);
                assert(body@ + rendered_hunks(old, new, lines, next) =~= before + rendered_hunks(
                    old,
                    new,
                    lines,
                    rest,
                ));
            }
        }
        proof {
            at = hunk.lines.end as int;
            o = hunk.old_from() + hunk.old_len;
            n = hunk.new_from() + hunk.new_len;
        }
        i = i + 1;
    }
    assert(body@ =~= rendered_hunks(old, new, lines, all));
    if !any {
        return Ok(None);
    }
    let mut patch = file_header(path, header);
    append(&mut patch, body.as_slice());
    Ok(Some(patch))
}

/// Builds a patch for the selected changed lines (indices into `diff.lines`). Context
/// lines in the selection are ignored. Returns `None` if nothing changed is selected.
pub fn build<F: Fn(usize) -> bool>(
    path: &[u8],
    diff: &FileDiff,
    selected: F,
    direction: Direction,
    header: Header,
) -> (result: Result<Option<Vec<u8>>, PatchError>)
    requires
        diff.wf(),
        forall|ix: usize| ix < diff.lines@.len() ==> call_requires(selected, (ix,)),
    ensures
        exists|marks: Seq<bool>|
            {
                &&& marks.len() == diff.lines@.len()
                &&& forall|ix: usize|
                    ix < marks.len() ==> call_ensures(selected, (ix,), #[trigger] marks[ix as int])
                &&& #[trigger] built(result, path@, *diff, marks, direction, header)
            },
{
    let mut marks: Vec<bool> = Vec::new();
    let mut ix: usize = 0;
    while ix < diff.lines.len()
        invariant
            ix == marks@.len() <= diff.lines@.len(),
            forall|k: usize| k < diff.lines@.len() ==> call_requires(selected, (k,)),
            forall|k: usize|
                k < ix ==> call_ensures(selected, (k,), #[trigger] marks@[k as int]),
        decreases diff.lines.len() - ix,
    {
        let mark = selected(ix);
        marks.push(mark);
        ix = ix + 1;
    }
    let result = build_selected(path, diff, marks.as_slice(), direction, header);
    assert(built(result, path@, *diff, marks@, direction, header));
    result
}

// ---------------------------------------------------------------------------
// What a patch says of its file.

/// The second line of a text, without its line end.
pub open spec fn second_line(bytes: Seq<u8>) -> Seq<u8> {
    let first = crate::bytes::find_byte(bytes, LF, 0);
    bytes.subrange(first + 1, crate::bytes::find_byte(bytes, LF, first + 1))
}

/// Whether bytes hold no line end.
pub open spec fn is_one_line(bytes: Seq<u8>) -> bool {
    forall|i: int| 0 <= i < bytes.len() ==> #[trigger] bytes[i] != LF
}

proof fn lemma_find_line_end(bytes: Seq<u8>, from: int, end: int)
    requires
        0 <= from <= end < bytes.len(),
        forall|i: int| from <= i < end ==> #[trigger] bytes[i] != LF,
        bytes[end] == LF,
    ensures
        crate::bytes::find_byte(bytes, LF, from) == end,
    decreases end - from,
{
    if from < end {
        assert(bytes[from] != LF);
        lemma_find_line_end(bytes, from + 1, end);
    }
}

proof fn lemma_escaped_line(path: Seq<u8>)
    ensures
        is_one_line(escaped_path(path)),
    decreases path.len(),
{
    if path.len() > 0 {
        lemma_escaped_line(path.drop_last());
        let b = path.last();
        assert(is_one_line(escaped(b))) by {
            assert(48 + b / 64 != 10 && 48 + b / 8 % 8 != 10 && 48 + b % 8 != 10);
        }
        let all = escaped_path(path);
        let before = escaped_path(path.drop_last());
        assert forall|i: int| 0 <= i < all.len() implies #[trigger] all[i] != LF by {
            if i < before.len() {
                assert(all[i] == before[i]);
            } else {
                assert(all[i] == escaped(b)[i - before.len()]);
            }
        }
    }
}

proof fn lemma_shown_line(prefix: Seq<u8>, path: Seq<u8>)
    requires
        is_one_line(prefix),
    ensures
        is_one_line(shown_path(prefix, path)),
{
    let shown = shown_path(prefix, path);
    lemma_escaped_line(path);
    if exists|i: int| 0 <= i < path.len() && quoted_byte(#[trigger] path[i]) {
        let inner = prefix + escaped_path(path);
        assert forall|i: int| 0 <= i < shown.len() implies #[trigger] shown[i] != LF by {
            if 0 < i < shown.len() - 1 {
                let k = i - 1;
                assert(shown[i] == inner[k]);
                if k < prefix.len() {
                    assert(inner[k] == prefix[k]);
                } else {
                    assert(inner[k] == escaped_path(path)[k - prefix.len()]);
                }
            }
        }
    } else {
        assert forall|i: int| 0 <= i < shown.len() implies #[trigger] shown[i] != LF by {
            if i < prefix.len() {
                assert(shown[i] == prefix[i]);
            } else {
                assert(!quoted_byte(path[i - prefix.len()]));
            }
        }
    }
}

/// Two lines at the start of a text are told apart by their ends.
proof fn lemma_second_line(first: Seq<u8>, second: Seq<u8>, rest: Seq<u8>)
    requires
        is_one_line(first),
        is_one_line(second),
    ensures
        second_line(first + seq![LF] + second + seq![LF] + rest) == second,
{
    let bytes = first + seq![LF] + second + seq![LF] + rest;
    let a = first.len() as int;
    let b = a + 1 + second.len();
    assert forall|i: int| 0 <= i < a implies #[trigger] bytes[i] != LF by {
        assert(bytes[i] == first[i]);
    }
    assert(bytes[a] == LF);
    lemma_find_line_end(bytes, 0, a);
    assert forall|i: int| a + 1 <= i < b implies #[trigger] bytes[i] != LF by {
        assert(bytes[i] == second[i - a - 1]);
    }
    assert(bytes[b] == LF);
    lemma_find_line_end(bytes, a + 1, b);
    assert(bytes.subrange(a + 1, b) =~= second);
}

/// The words of a header are ASCII, without a line end.
proof fn lemma_header_words(mode: Seq<char>)
    requires
        forall|i: int| 0 <= i < mode.len() ==> '0' <= #[trigger] mode[i] <= '9',
    ensures
        is_one_line(vstd::utf8::encode_utf8(mode)),
        is_one_line(vstd::utf8::encode_utf8("diff --git "@)),
        is_one_line(vstd::utf8::encode_utf8("new file mode "@)),
        is_one_line(vstd::utf8::encode_utf8("--- "@)),
        is_one_line(vstd::utf8::encode_utf8("a/"@)),
        is_one_line(vstd::utf8::encode_utf8("b/"@)),
        vstd::utf8::encode_utf8("\n--- /dev/null"@).len() > 0,
        vstd::utf8::encode_utf8("\n--- /dev/null"@)[0] == LF,
        vstd::utf8::encode_utf8("\n+++ "@).len() > 0,
        vstd::utf8::encode_utf8("\n+++ "@)[0] == LF,
{
    reveal_strlit("diff --git ");
    reveal_strlit("new file mode ");
    reveal_strlit("--- ");
    reveal_strlit("a/");
    reveal_strlit("b/");
    reveal_strlit("\n--- /dev/null");
    reveal_strlit("\n+++ ");
    lemma_ascii_bytes(mode);
    lemma_ascii_bytes("diff --git "@);
    lemma_ascii_bytes("new file mode "@);
    lemma_ascii_bytes("--- "@);
    lemma_ascii_bytes("a/"@);
    lemma_ascii_bytes("b/"@);
    lemma_ascii_bytes("\n--- /dev/null"@);
    lemma_ascii_bytes("\n+++ "@);
}

/// ASCII characters are one byte each.
proof fn lemma_ascii_bytes(text: Seq<char>)
    requires
        vstd::utf8::is_ascii_chars(text),
    ensures
        vstd::utf8::encode_utf8(text).len() == text.len(),
        forall|i: int|
            0 <= i < text.len() ==> #[trigger] vstd::utf8::encode_utf8(text)[i] == text[i] as u8,
{
    vstd::utf8::is_ascii_chars_encode_utf8(text);
}

/// The second line of a patch says what its file is: that it is new, and of which mode; or which
/// one it was.
pub proof fn law_patches_name_the_mode_of_new_files(path: Seq<u8>, mode: &'static str, rest: Seq<u8>)
    requires
        forall|i: int| 0 <= i < mode@.len() ==> '0' <= #[trigger] mode@[i] <= '9',
    ensures
        second_line(rendered_header(path, Header::NewFile { mode }) + rest)
            == vstd::utf8::encode_utf8("new file mode "@) + vstd::utf8::encode_utf8(mode@),
        second_line(rendered_header(path, Header::Modify) + rest) == vstd::utf8::encode_utf8(
            "--- "@,
        ) + shown_path(vstd::utf8::encode_utf8("a/"@), path),
{
    lemma_header_words(mode@);
    let (pa, pb) = (vstd::utf8::encode_utf8("a/"@), vstd::utf8::encode_utf8("b/"@));
    lemma_shown_line(pa, path);
    lemma_shown_line(pb, path);
    let (a, b) = (shown_path(pa, path), shown_path(pb, path));
    let git = vstd::utf8::encode_utf8("diff --git "@);
    let first = git + a + seq![32u8] + b;
    assert(is_one_line(first)) by {
        assert forall|i: int| 0 <= i < first.len() implies #[trigger] first[i] != LF by {
            if i < git.len() {
                assert(first[i] == git[i]);
            } else if i < git.len() + a.len() {
                assert(first[i] == a[i - git.len()]);
            } else if i > git.len() + a.len() {
                assert(first[i] == b[i - git.len() - a.len() - 1]);
            }
        }
    }
    let plus = vstd::utf8::encode_utf8("\n+++ "@);
    let new = vstd::utf8::encode_utf8("new file mode "@) + vstd::utf8::encode_utf8(mode@);
    let null = vstd::utf8::encode_utf8("\n--- /dev/null"@);
    assert(is_one_line(new)) by {
        assert forall|i: int| 0 <= i < new.len() implies #[trigger] new[i] != LF by {
            let head = vstd::utf8::encode_utf8("new file mode "@);
            if i < head.len() {
                assert(new[i] == head[i]);
            } else {
                assert(new[i] == vstd::utf8::encode_utf8(mode@)[i - head.len()]);
            }
        }
    }
    let after = null.skip(1) + plus + b + seq![LF] + rest;
    assert(rendered_header(path, Header::NewFile { mode }) + rest =~= first + seq![LF] + new
        + seq![LF] + after);
    lemma_second_line(first, new, after);
    let old = vstd::utf8::encode_utf8("--- "@) + a;
    assert(is_one_line(old)) by {
        assert forall|i: int| 0 <= i < old.len() implies #[trigger] old[i] != LF by {
            let head = vstd::utf8::encode_utf8("--- "@);
            if i < head.len() {
                assert(old[i] == head[i]);
            } else {
                assert(old[i] == a[i - head.len()]);
            }
        }
    }
    let behind = plus.skip(1) + b + seq![LF] + rest;
    assert(rendered_header(path, Header::Modify) + rest =~= first + seq![LF] + old + seq![LF]
        + behind);
    lemma_second_line(first, old, behind);
}

/// How git reads a quoted path: what was read so far, and the digits of an escape that has begun.
pub struct PathRead {
    pub path: Seq<u8>,
    pub escape: Option<Seq<u8>>,
}

/// How git reads what stands between the quotes of a path. After a backslash comes a letter, a
/// quote, a backslash, or a byte in three octal digits.
pub open spec fn path_read(text: Seq<u8>) -> PathRead
    decreases text.len(),
{
    if text.len() == 0 {
        PathRead { path: Seq::empty(), escape: None }
    } else {
        let before = path_read(text.drop_last());
        let b = text.last();
        match before.escape {
            None => if b == 92 {
                PathRead { path: before.path, escape: Some(Seq::empty()) }
            } else {
                PathRead { path: before.path.push(b), escape: None }
            },
            Some(digits) => if digits.len() == 2 {
                PathRead {
                    path: before.path.push(
                        ((digits[0] - 48) * 64 + (digits[1] - 48) * 8 + (b - 48)) as u8,
                    ),
                    escape: None,
                }
            } else if digits.len() == 1 || 48 <= b <= 55 {
                PathRead { path: before.path, escape: Some(digits.push(b)) }
            } else {
                PathRead {
                    path: before.path.push(
                        if b == 116 {
                            9
                        } else if b == 110 {
                            10
                        } else {
                            b
                        },
                    ),
                    escape: None,
                }
            },
        }
    }
}

/// How git reads a path of a patch: as it is, or unquoted if it begins with a quote.
pub open spec fn patch_path(text: Seq<u8>) -> Seq<u8> {
    if text.len() > 1 && text[0] == 34 {
        path_read(text.subrange(1, text.len() - 1)).path
    } else {
        text
    }
}

proof fn lemma_read_push(text: Seq<u8>, b: u8)
    ensures
        text.push(b).drop_last() == text,
        text.push(b).last() == b,
{
    assert(text.push(b).drop_last() =~= text);
}

proof fn lemma_octal(b: u8)
    ensures
        (b / 64) * 64 + (b / 8 % 8) * 8 + b % 8 == b,
        b / 64 < 8,
        b / 8 % 8 < 8,
        b % 8 < 8,
{
    assert((b / 64) * 64 + (b / 8 % 8) * 8 + b % 8 == b) by (bit_vector);
    assert(b / 64 < 8) by (bit_vector);
}

proof fn lemma_plain_read(prefix: Seq<u8>)
    requires
        forall|i: int| 0 <= i < prefix.len() ==> #[trigger] prefix[i] != 92,
    ensures
        path_read(prefix) == (PathRead { path: prefix, escape: None }),
    decreases prefix.len(),
{
    if prefix.len() > 0 {
        let before = prefix.drop_last();
        assert forall|i: int| 0 <= i < before.len() implies #[trigger] before[i] != 92 by {
            assert(before[i] == prefix[i]);
        }
        lemma_plain_read(before);
        assert(prefix[prefix.len() - 1] != 92);
        assert(before.push(prefix.last()) =~= prefix);
    } else {
        assert(prefix =~= Seq::<u8>::empty());
    }
}

proof fn lemma_escaped_read(prefix: Seq<u8>, path: Seq<u8>)
    requires
        forall|i: int| 0 <= i < prefix.len() ==> #[trigger] prefix[i] != 92,
    ensures
        path_read(prefix + escaped_path(path)) == (PathRead { path: prefix + path, escape: None }),
    decreases path.len(),
{
    if path.len() == 0 {
        lemma_plain_read(prefix);
        assert(prefix + escaped_path(path) =~= prefix);
        assert(prefix + path =~= prefix);
    } else {
        let less = path.drop_last();
        let b = path.last();
        lemma_escaped_read(prefix, less);
        let before = prefix + escaped_path(less);
        let text = prefix + escaped_path(path);
        assert((prefix + less).push(b) =~= prefix + path);
        let e = escaped(b);
        if e.len() == 1 {
            assert(text =~= before.push(b));
            lemma_read_push(before, b);
        } else {
            let one = before.push(92);
            lemma_read_push(before, 92);
            assert(path_read(one) == (PathRead {
                path: prefix + less,
                escape: Some(Seq::empty()),
            }));
            if e.len() == 2 {
                let two = one.push(e[1]);
                assert(text =~= two);
                lemma_read_push(one, e[1]);
            } else {
                lemma_octal(b);
                let two = one.push(e[1]);
                let three = two.push(e[2]);
                let four = three.push(e[3]);
                assert(text =~= four);
                lemma_read_push(one, e[1]);
                lemma_read_push(two, e[2]);
                lemma_read_push(three, e[3]);
                let none = Seq::<u8>::empty();
                assert(path_read(two).escape == Some(none.push(e[1])));
                assert(path_read(three).escape == Some(none.push(e[1]).push(e[2])));
            }
        }
    }
}

/// A patch names its file: git reads the path that it shows back as the prefix and the path
/// itself, whatever bytes it holds.
pub proof fn law_patch_paths_read_back(prefix: Seq<u8>, path: Seq<u8>)
    requires
        prefix.len() > 0,
        forall|i: int| 0 <= i < prefix.len() ==> !quoted_byte(#[trigger] prefix[i]),
    ensures
        patch_path(shown_path(prefix, path)) == prefix + path,
{
    let shown = shown_path(prefix, path);
    assert(!quoted_byte(prefix[0]));
    if exists|i: int| 0 <= i < path.len() && quoted_byte(#[trigger] path[i]) {
        assert forall|i: int| 0 <= i < prefix.len() implies #[trigger] prefix[i] != 92 by {
            assert(!quoted_byte(prefix[i]));
        }
        lemma_escaped_read(prefix, path);
        assert(shown.subrange(1, shown.len() - 1) =~= prefix + escaped_path(path));
    } else {
        assert(shown[0] == prefix[0]);
    }
}

/// The lines of a patch before its first hunk name the file on both sides: the second line of a
/// header is followed by what the new side is called, and both are read back as its path.
pub proof fn law_headers_name_the_file(path: Seq<u8>)
    ensures
        patch_path(shown_path(vstd::utf8::encode_utf8("a/"@), path)) == vstd::utf8::encode_utf8(
            "a/"@,
        ) + path,
        patch_path(shown_path(vstd::utf8::encode_utf8("b/"@), path)) == vstd::utf8::encode_utf8(
            "b/"@,
        ) + path,
{
    reveal_strlit("a/");
    reveal_strlit("b/");
    lemma_ascii_bytes("a/"@);
    lemma_ascii_bytes("b/"@);
    law_patch_paths_read_back(vstd::utf8::encode_utf8("a/"@), path);
    law_patch_paths_read_back(vstd::utf8::encode_utf8("b/"@), path);
}

} // verus!
