//! The rows of the diff stream: file headers, hunk headers, lines, images, notes and
//! comments, in the order in which they are shown.
use vstd::prelude::*;

use std::collections::HashSet;

use crate::bytes::same;
use crate::comments;
use crate::comments::{Comment, Side};
use crate::diff;
use crate::diff::{DiffLine, FileDiff, LineKind};
use crate::repo::Loaded;
use crate::review::{Content, ReviewFile};
use crate::store;
use crate::store::{add_part, stable_hash, Seen, FNV_OFFSET};
use crate::text::count_lines;

verus! {

/// How many rows an image takes.
pub const IMAGE_ROWS: usize = 12;

#[derive(Debug, Clone, Copy, PartialEq, Eq, Structural)]
pub enum Note {
    Loading,
    Binary { old_len: u64, new_len: u64 },
    TooLarge { len: u64 },
    Submodule,
    Conflict,
    NotAFile,
    /// Loaded, but no content change (mode or rename only).
    NoContentChange,
    Failed,
}

/// One row of the diff stream. Rows are uniform height so the list can be virtualized.
#[derive(Debug, Clone, Copy, PartialEq, Eq, Structural)]
pub enum Row {
    File { file: usize },
    Hunk { file: usize, hunk: usize },
    Line { file: usize, line: usize },
    /// A removed and an added line side by side, or a context line on both sides.
    Pair { file: usize, old: Option<usize>, new: Option<usize> },
    /// Part `part` of the rows that are reserved for an image.
    Image { file: usize, part: usize },
    Note { file: usize, note: Note },
    /// Line `line` of a comment's text (index into the review's comments).
    Comment { file: usize, comment: usize, line: usize },
}

impl Row {
    /// The file that a row belongs to.
    pub open spec fn file_of(self) -> usize {
        match self {
            Row::File { file } => file,
            Row::Hunk { file, .. } => file,
            Row::Line { file, .. } => file,
            Row::Pair { file, .. } => file,
            Row::Image { file, .. } => file,
            Row::Note { file, .. } => file,
            Row::Comment { file, .. } => file,
        }
    }

    /// The file that the row belongs to.
    pub fn file(&self) -> (file: usize)
        ensures
            file == self.file_of(),
    {
        match *self {
            Row::File { file } => file,
            Row::Hunk { file, .. } => file,
            Row::Line { file, .. } => file,
            Row::Pair { file, .. } => file,
            Row::Image { file, .. } => file,
            Row::Note { file, .. } => file,
            Row::Comment { file, .. } => file,
        }
    }
}

// ---------------------------------------------------------------------------
// Hashes.

/// The byte that stands for a kind of line.
pub open spec fn kind_byte(kind: LineKind) -> u8 {
    diff::kind_prefix(kind)
}

/// The hash of a changed line.
pub open spec fn line_hash_of(kind: LineKind, content: Seq<u8>) -> u64 {
    store::fnv_parts(seq![seq![kind_byte(kind)], content])
}

fn prefix_of(kind: LineKind) -> (prefix: &'static str)
    ensures
        vstd::utf8::encode_utf8(prefix@) == seq![kind_byte(kind)],
{
    proof {
        reveal_strlit("+");
        reveal_strlit("-");
        reveal_strlit(" ");
        vstd::utf8::is_ascii_chars_encode_utf8("+"@);
        vstd::utf8::is_ascii_chars_encode_utf8("-"@);
        vstd::utf8::is_ascii_chars_encode_utf8(" "@);
        assert(vstd::utf8::encode_utf8("+"@) =~= seq![43u8]);
        assert(vstd::utf8::encode_utf8("-"@) =~= seq![45u8]);
        assert(vstd::utf8::encode_utf8(" "@) =~= seq![32u8]);
    }
    match kind {
        LineKind::Added => "+",
        LineKind::Removed => "-",
        LineKind::Context => " ",
    }
}

/// Identity of a changed line for "new since last look": its kind and content, not its
/// position or section, so moving or staging a line doesn't make it new.
pub fn line_hash(kind: LineKind, content: &[u8]) -> (hash: u64)
    ensures
        hash == line_hash_of(kind, content@),
{
    let prefix = prefix_of(kind).as_bytes();
    let parts: Vec<&[u8]> = vec![prefix, content];
    let hash: u64 = stable_hash(parts.as_slice());
    assert(store::part_bytes(parts@) =~= seq![seq![kind_byte(kind)], content@]);
    hash
}

/// One content as an added, a removed and a context line has three different hashes.
pub proof fn law_line_hashes_tell_kinds_apart(a: LineKind, b: LineKind, content: Seq<u8>)
    requires
        a != b,
    ensures
        line_hash_of(a, content) != line_hash_of(b, content),
{
    let (x, y) = (seq![kind_byte(a)], seq![kind_byte(b)]);
    let (u, v) = (kind_byte(a) as u64, kind_byte(b) as u64);
    let start = store::FNV_OFFSET;
    assert(start ^ u == start ^ v ==> u == v) by (bit_vector);
    lemma_first_part(x, content);
    lemma_first_part(y, content);
    assert(x.drop_last() =~= Seq::empty());
    assert(y.drop_last() =~= Seq::empty());
    assert(store::fnv_bytes(start, x) != store::fnv_bytes(start, y)) by {
        reveal_with_fuel(store::fnv_bytes, 2);
        store::lemma_step_apart(start ^ u, start ^ v, 0);
        assert(((start ^ u) ^ 0u64) == (start ^ u)) by (bit_vector);
        assert(((start ^ v) ^ 0u64) == (start ^ v)) by (bit_vector);
    }
    let (p, q) = (store::fnv_bytes(start, x), store::fnv_bytes(start, y));
    store::lemma_step_apart(p, q, 0xff);
    let (p, q) = (store::fnv_step(p, 0xff), store::fnv_step(q, 0xff));
    store::lemma_bytes_apart(p, q, content);
    store::lemma_step_apart(
        store::fnv_bytes(p, content),
        store::fnv_bytes(q, content),
        0xff,
    );
}

/// A hash over two parts.
proof fn lemma_first_part(first: Seq<u8>, second: Seq<u8>)
    ensures
        store::fnv_parts(seq![first, second]) == store::fnv_step(
            store::fnv_bytes(
                store::fnv_step(store::fnv_bytes(store::FNV_OFFSET, first), 0xff),
                second,
            ),
            0xff,
        ),
{
    lemma_part_pushed(Seq::empty(), first);
    lemma_part_pushed(seq![first], second);
    assert(Seq::<Seq<u8>>::empty().push(first) =~= seq![first]);
    assert(seq![first].push(second) =~= seq![first, second]);
}

/// What a hunk is hashed by: its file's path and its changed lines among `from..to`,
/// with their terminators.
pub open spec fn hunk_parts(
    path: Seq<u8>,
    old: Seq<u8>,
    new: Seq<u8>,
    lines: Seq<DiffLine>,
    from: int,
    to: int,
) -> Seq<Seq<u8>>
    decreases to - from,
{
    if from >= to {
        seq![path]
    } else {
        let line = lines[to - 1];
        let before = hunk_parts(path, old, new, lines, from, to - 1);
        if line.kind == LineKind::Context {
            before
        } else {
            before.push(seq![kind_byte(line.kind)]).push(diff::full_line(old, new, line))
        }
    }
}

/// The hash of a hunk.
pub open spec fn hunk_hash_of(path: Seq<u8>, d: FileDiff, hunk: int) -> u64 {
    store::fnv_parts(
        hunk_parts(
            path,
            d.old@,
            d.new@,
            d.lines@,
            d.hunks@[hunk].lines.start as int,
            d.hunks@[hunk].lines.end as int,
        ),
    )
}

/// The changed lines among `from..to`: what kind each is, and its text with its terminator.
pub open spec fn changed_lines(
    old: Seq<u8>,
    new: Seq<u8>,
    lines: Seq<DiffLine>,
    from: int,
    to: int,
) -> Seq<(LineKind, Seq<u8>)>
    decreases to - from,
{
    if from >= to {
        Seq::empty()
    } else {
        let line = lines[to - 1];
        let before = changed_lines(old, new, lines, from, to - 1);
        if line.kind == LineKind::Context {
            before
        } else {
            before.push((line.kind, diff::full_line(old, new, line)))
        }
    }
}

/// The changed lines of a hunk.
pub open spec fn hunk_changes(d: FileDiff, hunk: int) -> Seq<(LineKind, Seq<u8>)> {
    changed_lines(
        d.old@,
        d.new@,
        d.lines@,
        d.hunks@[hunk].lines.start as int,
        d.hunks@[hunk].lines.end as int,
    )
}

/// A path and changed lines, as they are hashed.
pub open spec fn hashed_parts(path: Seq<u8>, changes: Seq<(LineKind, Seq<u8>)>) -> Seq<Seq<u8>>
    decreases changes.len(),
{
    if changes.len() == 0 {
        seq![path]
    } else {
        hashed_parts(path, changes.drop_last()).push(seq![kind_byte(changes.last().0)]).push(
            changes.last().1,
        )
    }
}

proof fn lemma_hunk_parts(
    path: Seq<u8>,
    old: Seq<u8>,
    new: Seq<u8>,
    lines: Seq<DiffLine>,
    from: int,
    to: int,
)
    ensures
        hunk_parts(path, old, new, lines, from, to) == hashed_parts(
            path,
            changed_lines(old, new, lines, from, to),
        ),
    decreases to - from,
{
    if from < to {
        lemma_hunk_parts(path, old, new, lines, from, to - 1);
        let changes = changed_lines(old, new, lines, from, to);
        if lines[to - 1].kind != LineKind::Context {
            assert(changes.drop_last() =~= changed_lines(old, new, lines, from, to - 1));
        }
    }
}

/// A hunk is known by its path and its changed lines alone: wherever a hunk with the same ones
/// turns up, in another section, on other lines or in other context, it has the same hash, and
/// so the same reviewed mark.
pub proof fn law_hunks_are_known_by_their_changes(
    path: Seq<u8>,
    d: FileDiff,
    h: int,
    e: FileDiff,
    k: int,
)
    requires
        hunk_changes(d, h) == hunk_changes(e, k),
    ensures
        hunk_hash_of(path, d, h) == hunk_hash_of(path, e, k),
{
    let (a, b) = (d.hunks@[h].lines, e.hunks@[k].lines);
    lemma_hunk_parts(path, d.old@, d.new@, d.lines@, a.start as int, a.end as int);
    lemma_hunk_parts(path, e.old@, e.new@, e.lines@, b.start as int, b.end as int);
}

/// Any edit to a hunk changes what its reviewed mark is made of: hunks whose path, or the kind
/// or text of a changed line differ, its terminator or the lack of one with it, are hashed from
/// different parts.
pub proof fn law_edited_hunks_are_hashed_anew(
    path: Seq<u8>,
    changes: Seq<(LineKind, Seq<u8>)>,
    other_path: Seq<u8>,
    others: Seq<(LineKind, Seq<u8>)>,
)
    requires
        hashed_parts(path, changes) == hashed_parts(other_path, others),
    ensures
        path == other_path,
        changes == others,
    decreases changes.len(),
{
    lemma_hashed_len(path, changes);
    lemma_hashed_len(other_path, others);
    if changes.len() == 0 {
        assert(hashed_parts(path, changes)[0] == path);
        assert(hashed_parts(other_path, others)[0] == other_path);
        assert(changes =~= others);
    } else {
        let a = hashed_parts(path, changes);
        let b = hashed_parts(other_path, others);
        assert(a.drop_last().drop_last() =~= hashed_parts(path, changes.drop_last()));
        assert(b.drop_last().drop_last() =~= hashed_parts(other_path, others.drop_last()));
        law_edited_hunks_are_hashed_anew(
            path,
            changes.drop_last(),
            other_path,
            others.drop_last(),
        );
        assert(a.last() == changes.last().1 && b.last() == others.last().1);
        assert(a[a.len() - 2] == seq![kind_byte(changes.last().0)]);
        assert(b[b.len() - 2] == seq![kind_byte(others.last().0)]);
        assert(a[a.len() - 2][0] == b[b.len() - 2][0]);
        assert(changes =~= changes.drop_last().push(changes.last()));
        assert(others =~= others.drop_last().push(others.last()));
    }
}

proof fn lemma_hashed_len(path: Seq<u8>, changes: Seq<(LineKind, Seq<u8>)>)
    ensures
        hashed_parts(path, changes).len() == 2 * changes.len() + 1,
    decreases changes.len(),
{
    if changes.len() > 0 {
        lemma_hashed_len(path, changes.drop_last());
    }
}

proof fn lemma_part_pushed(parts: Seq<Seq<u8>>, part: Seq<u8>)
    ensures
        store::fnv_parts(parts.push(part)) == store::fnv_step(
            store::fnv_bytes(store::fnv_parts(parts), part),
            0xff,
        ),
{
    assert(parts.push(part).drop_last() =~= parts);
}

/// Identity of a hunk for reviewed marks: its file and changed lines, with their
/// terminators. Any edit to the hunk's changes makes it a different hunk.
pub fn hunk_hash(path: &[u8], diff: &FileDiff, hunk: usize) -> (hash: u64)
    requires
        diff.wf(),
        hunk < diff.hunks@.len(),
    ensures
        hash == hunk_hash_of(path@, *diff, hunk as int),
{
    let ghost (old, new, lines) = (diff.old@, diff.new@, diff.lines@);
    proof {
        diff.lemma_hunk_at(hunk as int);
        lemma_part_pushed(Seq::empty(), path@);
        assert(Seq::<Seq<u8>>::empty().push(path@) =~= seq![path@]);
    }
    let start: usize = diff.hunks[hunk].lines.start;
    let end: usize = diff.hunks[hunk].lines.end;
    let mut hash: u64 = add_part(FNV_OFFSET, path);
    let mut at: usize = start;
    while at < end
        invariant
            diff.wf(),
            old == diff.old@,
            new == diff.new@,
            lines == diff.lines@,
            start <= at <= end <= lines.len(),
            hash == store::fnv_parts(
                hunk_parts(path@, old, new, lines, start as int, at as int),
            ),
        decreases end - at,
    {
        let line = &diff.lines[at];
        let ghost before = hunk_parts(path@, old, new, lines, start as int, at as int);
        if line.kind != LineKind::Context {
            proof {
                diff.lemma_line_at(at as int);
                lemma_part_pushed(before, seq![kind_byte(line.kind)]);
                lemma_part_pushed(
                    before.push(seq![kind_byte(line.kind)]),
                    diff::full_line(old, new, *line),
                );
            }
            hash = add_part(hash, prefix_of(line.kind).as_bytes());
            hash = add_part(hash, diff.line_text(line));
        }
        at = at + 1;
    }
    hash
}

/// The diff of a file, if it has one.
pub open spec fn diff_of(file: ReviewFile) -> Option<FileDiff> {
    match file.content {
        Content::Loaded(Loaded::Text(d)) => Some(*d),
        _ => None,
    }
}

/// Whether each diff shows how its texts differ, and the syntax spans are sorted.
pub open spec fn files_wf(files: Seq<ReviewFile>) -> bool {
    forall|i: int|
        0 <= i < files.len() ==> (diff_of(#[trigger] files[i]) matches Some(d) ==> d.wf())
            && crate::review::highlights_ok(files[i].highlights)
}

/// The hashes of a file's hunks.
pub open spec fn file_hashes(file: ReviewFile) -> Seq<u64> {
    match diff_of(file) {
        Some(d) => Seq::new(d.hunks@.len(), |h: int| hunk_hash_of(file.change.path@, d, h)),
        None => Seq::empty(),
    }
}

/// Whether `hashes` are the hashes of the files' hunks.
pub open spec fn hashes_match(files: Seq<ReviewFile>, hashes: Seq<Vec<u64>>) -> bool {
    &&& hashes.len() == files.len()
    &&& forall|i: int| 0 <= i < files.len() ==> (#[trigger] hashes[i])@ == file_hashes(files[i])
}

/// The hashes of the files' hunks.
pub fn hash_hunks(files: &[ReviewFile]) -> (hashes: Vec<Vec<u64>>)
    requires
        files_wf(files@),
    ensures
        hashes_match(files@, hashes@),
{
    let mut hashes: Vec<Vec<u64>> = Vec::new();
    let mut i: usize = 0;
    while i < files.len()
        invariant
            files_wf(files@),
            i == hashes@.len() <= files@.len(),
            forall|k: int| 0 <= k < i ==> (#[trigger] hashes@[k])@ == file_hashes(files@[k]),
        decreases files.len() - i,
    {
        let entry = &files[i];
        let mut mine: Vec<u64> = Vec::new();
        if let Some(d) = entry.diff() {
            let mut h: usize = 0;
            while h < d.hunks.len()
                invariant
                    d.wf(),
                    diff_of(*entry) == Some(**d),
                    h == mine@.len() <= d.hunks@.len(),
                    forall|k: int|
                        0 <= k < h ==> #[trigger] mine@[k] == hunk_hash_of(
                            entry.change.path@,
                            **d,
                            k,
                        ),
                decreases d.hunks.len() - h,
            {
                mine.push(hunk_hash(entry.change.path.as_slice(), d, h));
                h = h + 1;
            }
        }
        assert(mine@ =~= file_hashes(*entry));
        hashes.push(mine);
        i = i + 1;
    }
    hashes
}

// ---------------------------------------------------------------------------
// What the rows are.

/// Rows so far, and which comments have been placed among them.
pub struct Placing {
    pub rows: Seq<Row>,
    pub placed: Seq<bool>,
}

/// How many rows a comment takes: one per line of its text, and at least one.
pub open spec fn comment_height(c: Comment) -> nat {
    if crate::text::line_total(c.text@) == 0 {
        1
    } else {
        crate::text::line_total(c.text@)
    }
}

/// The rows of a comment.
pub open spec fn comment_rows(file: usize, comment: int, c: Comment) -> Seq<Row> {
    Seq::new(
        comment_height(c),
        |line: int| Row::Comment { file, comment: comment as usize, line: line as usize },
    )
}

/// Whether a comment belongs to a path and, if `at` names one, ends at a line of a side.
pub open spec fn belongs(c: Comment, path: Seq<u8>, at: Option<(Side, u32)>) -> bool {
    &&& vstd::utf8::encode_utf8(c.path@) == path
    &&& at matches Some((side, number)) ==> c.side == side && c.end == number
}

/// The rows with those comments, from comment `c` on, that belong here and were not placed
/// before.
pub open spec fn place(
    p: Placing,
    comments: Seq<Comment>,
    file: usize,
    path: Seq<u8>,
    at: Option<(Side, u32)>,
    c: int,
) -> Placing
    decreases comments.len() - c,
{
    if c >= comments.len() {
        p
    } else if belongs(comments[c], path, at) && !p.placed[c] {
        place(
            Placing {
                rows: p.rows + comment_rows(file, c, comments[c]),
                placed: p.placed.update(c, true),
            },
            comments,
            file,
            path,
            at,
            c + 1,
        )
    } else {
        place(p, comments, file, path, at, c + 1)
    }
}

/// Where comments on a line are anchored: removed lines by their old number, others by
/// their new one.
pub open spec fn line_anchor(line: DiffLine) -> Option<(Side, u32)> {
    match line.kind {
        LineKind::Removed => match line.old_no {
            Some(n) => Some((Side::Old, n)),
            None => None,
        },
        _ => match line.new_no {
            Some(n) => Some((Side::New, n)),
            None => None,
        },
    }
}

/// The rows with the comments on a line.
pub open spec fn place_at_line(
    p: Placing,
    comments: Seq<Comment>,
    file: usize,
    path: Seq<u8>,
    line: DiffLine,
) -> Placing {
    match line_anchor(line) {
        Some(at) => place(p, comments, file, path, Some(at), 0),
        None => p,
    }
}

/// The rows with one more.
pub open spec fn with_row(p: Placing, row: Row) -> Placing {
    Placing { rows: p.rows.push(row), placed: p.placed }
}

/// The lines `from..to`, one per row.
pub open spec fn unified_rows(
    p: Placing,
    comments: Seq<Comment>,
    file: usize,
    path: Seq<u8>,
    lines: Seq<DiffLine>,
    from: int,
    to: int,
) -> Placing
    decreases to - from,
{
    if from >= to {
        p
    } else {
        unified_rows(
            place_at_line(
                with_row(p, Row::Line { file, line: from as usize }),
                comments,
                file,
                path,
                lines[from],
            ),
            comments,
            file,
            path,
            lines,
            from + 1,
            to,
        )
    }
}

/// End of the run of lines of a kind that starts at `from`.
pub open spec fn run_end(lines: Seq<DiffLine>, kind: LineKind, from: int, to: int) -> int
    decreases to - from,
{
    if from < to && lines[from].kind == kind {
        run_end(lines, kind, from + 1, to)
    } else {
        from
    }
}

/// Pair `k` of the removed lines `from..mid` and the added lines `mid..to`.
pub open spec fn pair_row(file: usize, from: int, mid: int, to: int, k: int) -> Row {
    Row::Pair {
        file,
        old: if from + k < mid {
            Some((from + k) as usize)
        } else {
            None
        },
        new: if mid + k < to {
            Some((mid + k) as usize)
        } else {
            None
        },
    }
}

/// The removed lines `from..mid` beside the added lines `mid..to`, from pair `k` on.
pub open spec fn run_rows(
    p: Placing,
    comments: Seq<Comment>,
    file: usize,
    path: Seq<u8>,
    lines: Seq<DiffLine>,
    from: int,
    mid: int,
    to: int,
    k: int,
) -> Placing
    decreases to - from - k,
{
    if k < 0 || (from + k >= mid && mid + k >= to) || from > mid || mid > to {
        p
    } else {
        let paired = with_row(p, pair_row(file, from, mid, to, k));
        let removed = if from + k < mid {
            place_at_line(paired, comments, file, path, lines[from + k])
        } else {
            paired
        };
        let added = if mid + k < to {
            place_at_line(removed, comments, file, path, lines[mid + k])
        } else {
            removed
        };
        run_rows(added, comments, file, path, lines, from, mid, to, k + 1)
    }
}

/// A run ends within the lines, and one that starts with a line of its kind is not empty.
pub proof fn lemma_run_end(lines: Seq<DiffLine>, kind: LineKind, from: int, to: int)
    requires
        from <= to,
    ensures
        from <= run_end(lines, kind, from, to) <= to,
        from < to && lines[from].kind == kind ==> from < run_end(lines, kind, from, to),
    decreases to - from,
{
    if from < to && lines[from].kind == kind {
        lemma_run_end(lines, kind, from + 1, to);
    }
}

/// The lines `from..to` side by side: each run of removals beside the additions that
/// follow, and context on both sides.
pub open spec fn split_rows(
    p: Placing,
    comments: Seq<Comment>,
    file: usize,
    path: Seq<u8>,
    lines: Seq<DiffLine>,
    from: int,
    to: int,
) -> Placing
    decreases to - from,
{
    if from >= to {
        p
    } else if lines[from].kind == LineKind::Context {
        split_rows(
            place_at_line(
                with_row(
                    p,
                    Row::Pair { file, old: Some(from as usize), new: Some(from as usize) },
                ),
                comments,
                file,
                path,
                lines[from],
            ),
            comments,
            file,
            path,
            lines,
            from + 1,
            to,
        )
    } else {
        let mid = run_end(lines, LineKind::Removed, from, to);
        let end = run_end(lines, LineKind::Added, mid, to);
        proof {
            lemma_run_end(lines, LineKind::Removed, from, to);
            lemma_run_end(lines, LineKind::Added, mid, to);
        }
        split_rows(
            run_rows(p, comments, file, path, lines, from, mid, end, 0),
            comments,
            file,
            path,
            lines,
            end,
            to,
        )
    }
}

/// What the rows show beside the files: comments, reviewed hunks, and the layout.
pub struct Showing {
    pub comments: Seq<Comment>,
    pub reviewed: Set<u64>,
    pub split: bool,
}

/// The hunks of a file from `h` on: a header each, and the lines of those not reviewed.
pub open spec fn hunk_rows(
    p: Placing,
    show: Showing,
    file: usize,
    entry: ReviewFile,
    d: FileDiff,
    h: int,
) -> Placing
    decreases d.hunks@.len() - h,
{
    if h >= d.hunks@.len() {
        p
    } else {
        let headed = with_row(p, Row::Hunk { file, hunk: h as usize });
        let (from, to) = (d.hunks@[h].lines.start as int, d.hunks@[h].lines.end as int);
        let path = entry.change.path@;
        let shown = if show.reviewed.contains(hunk_hash_of(path, d, h)) {
            headed
        } else if show.split {
            split_rows(headed, show.comments, file, path, d.lines@, from, to)
        } else {
            unified_rows(headed, show.comments, file, path, d.lines@, from, to)
        };
        hunk_rows(shown, show, file, entry, d, h + 1)
    }
}

/// The note that is shown in place of a diff, if any.
pub open spec fn note_of(content: Content) -> Option<Note> {
    match content {
        Content::Pending => Some(Note::Loading),
        Content::Failed(_) => Some(Note::Failed),
        Content::Loaded(Loaded::Binary { old_len, new_len }) => Some(
            Note::Binary { old_len, new_len },
        ),
        Content::Loaded(Loaded::TooLarge { len }) => Some(Note::TooLarge { len }),
        Content::Loaded(Loaded::Submodule) => Some(Note::Submodule),
        Content::Loaded(Loaded::Conflict) => Some(Note::Conflict),
        Content::Loaded(Loaded::NotAFile) => Some(Note::NotAFile),
        Content::Loaded(Loaded::Image { .. }) => None,
        Content::Loaded(Loaded::Text(d)) => if d.hunks@.len() == 0 {
            Some(Note::NoContentChange)
        } else {
            None
        },
    }
}

/// What stands under a file's header.
pub open spec fn content_rows(p: Placing, show: Showing, file: usize, entry: ReviewFile) -> Placing {
    match note_of(entry.content) {
        Some(note) => with_row(p, Row::Note { file, note }),
        None => match diff_of(entry) {
            Some(d) => hunk_rows(p, show, file, entry, d, 0),
            None => Placing {
                rows: p.rows + Seq::new(
                    IMAGE_ROWS as nat,
                    |part: int| Row::Image { file, part: part as usize },
                ),
                placed: p.placed,
            },
        },
    }
}

/// Whether no later file has the same path.
pub open spec fn last_of_path(files: Seq<ReviewFile>, file: int) -> bool {
    forall|j: int|
        file < j < files.len() ==> (#[trigger] files[j]).change.path@ != files[file].change.path@
}

/// One file: its header, its content, and at the end the comments whose line is no longer
/// in the diff, under the last file with their path.
pub open spec fn file_rows(p: Placing, show: Showing, files: Seq<ReviewFile>, file: int) -> Placing {
    let headed = with_row(p, Row::File { file: file as usize });
    let shown = content_rows(headed, show, file as usize, files[file]);
    if last_of_path(files, file) {
        place(shown, show.comments, file as usize, files[file].change.path@, None, 0)
    } else {
        shown
    }
}

/// The rows of the first `count` files.
pub open spec fn rows_upto(show: Showing, files: Seq<ReviewFile>, count: int) -> Placing
    decreases count,
{
    if count <= 0 {
        Placing {
            rows: Seq::empty(),
            placed: Seq::new(show.comments.len(), |i: int| false),
        }
    } else {
        file_rows(rows_upto(show, files, count - 1), show, files, count - 1)
    }
}

/// The rows of the review.
pub open spec fn all_rows(show: Showing, files: Seq<ReviewFile>) -> Seq<Row> {
    rows_upto(show, files, files.len() as int).rows
}

// ---------------------------------------------------------------------------
// Building rows.

struct RowBuilder {
    rows: Vec<Row>,
    placed: Vec<bool>,
}

impl RowBuilder {
    spec fn state(self) -> Placing {
        Placing { rows: self.rows@, placed: self.placed@ }
    }

    fn push(&mut self, row: Row)
        ensures
            final(self).state() == with_row(old(self).state(), row),
    {
        self.rows.push(row);
    }

    fn push_comment(&mut self, file: usize, comment: usize, c: &Comment)
        ensures
            final(self).state() == (Placing {
                rows: old(self).state().rows + comment_rows(file, comment as int, *c),
                placed: old(self).state().placed,
            }),
    {
        let count: usize = count_lines(c.text.as_str());
        let height: usize = if count == 0 {
            1
        } else {
            count
        };
        let ghost before = self.rows@;
        let ghost all = comment_rows(file, comment as int, *c);
        let mut line: usize = 0;
        assert(self.rows@ =~= before + all.take(0));
        while line < height
            invariant
                line <= height == all.len(),
                all == comment_rows(file, comment as int, *c),
                self.rows@ == before + all.take(line as int),
                self.placed@ == old(self).placed@,
            decreases height - line,
        {
            self.rows.push(Row::Comment { file, comment, line });
            line = line + 1;
            assert(self.rows@ =~= before + all.take(line as int));
        }
        assert(all.take(line as int) =~= all);
    }

    fn place(
        &mut self,
        comments: &[Comment],
        file: usize,
        path: &[u8],
        at: Option<(Side, u32)>,
    )
        requires
            old(self).placed@.len() == comments@.len(),
        ensures
            final(self).state() == place(
                old(self).state(),
                comments@,
                file,
                path@,
                at,
                0,
            ),
            final(self).placed@.len() == comments@.len(),
    {
        let mut c: usize = 0;
        let ghost whole = place(self.state(), comments@, file, path@, at, 0);
        while c < comments.len()
            invariant
                c <= comments@.len() == self.placed@.len(),
                place(self.state(), comments@, file, path@, at, c as int) == whole,
            decreases comments.len() - c,
        {
            let comment = &comments[c];
            let here = match at {
                Some((side, number)) => comment.side == side && comment.end == number,
                None => true,
            };
            if here && !self.placed[c] && same(comment.path.as_str().as_bytes(), path) {
                let ghost before = self.state();
                self.placed.set(c, true);
                self.push_comment(file, c, comment);
                assert(self.state() == (Placing {
                    rows: before.rows + comment_rows(file, c as int, *comment),
                    placed: before.placed.update(c as int, true),
                }));
            }
            c = c + 1;
        }
    }

    fn place_at_line(&mut self, comments: &[Comment], file: usize, path: &[u8], line: &DiffLine)
        requires
            old(self).placed@.len() == comments@.len(),
        ensures
            final(self).state() == place_at_line(
                old(self).state(),
                comments@,
                file,
                path@,
                *line,
            ),
            final(self).placed@.len() == comments@.len(),
    {
        let anchor: Option<(Side, u32)> = match line.kind {
            LineKind::Removed => match line.old_no {
                Some(n) => Some((Side::Old, n)),
                None => None,
            },
            LineKind::Context | LineKind::Added => match line.new_no {
                Some(n) => Some((Side::New, n)),
                None => None,
            },
        };
        if let Some(at) = anchor {
            self.place(comments, file, path, Some(at));
        }
    }

    fn push_unified(
        &mut self,
        comments: &[Comment],
        file: usize,
        path: &[u8],
        lines: &[DiffLine],
        from: usize,
        to: usize,
    )
        requires
            old(self).placed@.len() == comments@.len(),
            from <= to <= lines@.len(),
        ensures
            final(self).state() == unified_rows(
                old(self).state(),
                comments@,
                file,
                path@,
                lines@,
                from as int,
                to as int,
            ),
            final(self).placed@.len() == comments@.len(),
    {
        let ghost whole = unified_rows(
            self.state(),
            comments@,
            file,
            path@,
            lines@,
            from as int,
            to as int,
        );
        let mut at: usize = from;
        while at < to
            invariant
                from <= at <= to <= lines@.len(),
                self.placed@.len() == comments@.len(),
                unified_rows(
                    self.state(),
                    comments@,
                    file,
                    path@,
                    lines@,
                    at as int,
                    to as int,
                ) == whole,
            decreases to - at,
        {
            self.push(Row::Line { file, line: at });
            self.place_at_line(comments, file, path, &lines[at]);
            at = at + 1;
        }
    }

    fn push_run(
        &mut self,
        comments: &[Comment],
        file: usize,
        path: &[u8],
        lines: &[DiffLine],
        from: usize,
        mid: usize,
        to: usize,
    )
        requires
            old(self).placed@.len() == comments@.len(),
            from <= mid <= to <= lines@.len(),
        ensures
            final(self).state() == run_rows(
                old(self).state(),
                comments@,
                file,
                path@,
                lines@,
                from as int,
                mid as int,
                to as int,
                0,
            ),
            final(self).placed@.len() == comments@.len(),
    {
        let ghost whole = run_rows(
            self.state(),
            comments@,
            file,
            path@,
            lines@,
            from as int,
            mid as int,
            to as int,
            0,
        );
        let mut k: usize = 0;
        while k < mid - from || k < to - mid
            invariant
                from <= mid <= to <= lines@.len(),
                k <= to - from,
                self.placed@.len() == comments@.len(),
                run_rows(
                    self.state(),
                    comments@,
                    file,
                    path@,
                    lines@,
                    from as int,
                    mid as int,
                    to as int,
                    k as int,
                ) == whole,
            decreases to - from - k,
        {
            let old: Option<usize> = if k < mid - from {
                Some(from + k)
            } else {
                None
            };
            let new: Option<usize> = if k < to - mid {
                Some(mid + k)
            } else {
                None
            };
            self.push(Row::Pair { file, old, new });
            if k < mid - from {
                self.place_at_line(comments, file, path, &lines[from + k]);
            }
            if k < to - mid {
                self.place_at_line(comments, file, path, &lines[mid + k]);
            }
            k = k + 1;
        }
    }

    fn push_split(
        &mut self,
        comments: &[Comment],
        file: usize,
        path: &[u8],
        lines: &[DiffLine],
        from: usize,
        to: usize,
    )
        requires
            old(self).placed@.len() == comments@.len(),
            from <= to <= lines@.len(),
        ensures
            final(self).state() == split_rows(
                old(self).state(),
                comments@,
                file,
                path@,
                lines@,
                from as int,
                to as int,
            ),
            final(self).placed@.len() == comments@.len(),
    {
        let ghost whole = split_rows(
            self.state(),
            comments@,
            file,
            path@,
            lines@,
            from as int,
            to as int,
        );
        let mut at: usize = from;
        while at < to
            invariant
                from <= at <= to <= lines@.len(),
                self.placed@.len() == comments@.len(),
                split_rows(
                    self.state(),
                    comments@,
                    file,
                    path@,
                    lines@,
                    at as int,
                    to as int,
                ) == whole,
            decreases to - at,
        {
            if lines[at].kind == LineKind::Context {
                self.push(Row::Pair { file, old: Some(at), new: Some(at) });
                self.place_at_line(comments, file, path, &lines[at]);
                at = at + 1;
            } else {
                let mid: usize = find_run_end(lines, LineKind::Removed, at, to);
                let end: usize = find_run_end(lines, LineKind::Added, mid, to);
                proof {
                    lemma_run_end(lines@, LineKind::Removed, at as int, to as int);
                    lemma_run_end(lines@, LineKind::Added, mid as int, to as int);
                }
                self.push_run(comments, file, path, lines, at, mid, end);
                at = end;
            }
        }
    }

    fn push_hunks(
        &mut self,
        comments: &[Comment],
        reviewed: &HashSet<u64>,
        split: bool,
        file: usize,
        entry: &ReviewFile,
        d: &FileDiff,
        hashes: &[u64],
    )
        requires
            old(self).placed@.len() == comments@.len(),
            d.wf(),
            diff_of(*entry) == Some(*d),
            hashes@ == file_hashes(*entry),
        ensures
            final(self).state() == hunk_rows(
                old(self).state(),
                Showing { comments: comments@, reviewed: reviewed@, split },
                file,
                *entry,
                *d,
                0,
            ),
            final(self).placed@.len() == comments@.len(),
    {
        broadcast use vstd::std_specs::hash::group_hash_axioms;

        let ghost show = Showing { comments: comments@, reviewed: reviewed@, split };
        let ghost whole = hunk_rows(self.state(), show, file, *entry, *d, 0);
        let path = entry.change.path.as_slice();
        let mut h: usize = 0;
        while h < d.hunks.len()
            invariant
                h <= d.hunks@.len(),
                d.wf(),
                path@ == entry.change.path@,
                diff_of(*entry) == Some(*d),
                hashes@ == file_hashes(*entry),
                show == (Showing { comments: comments@, reviewed: reviewed@, split }),
                self.placed@.len() == comments@.len(),
                hunk_rows(self.state(), show, file, *entry, *d, h as int) == whole,
            decreases d.hunks.len() - h,
        {
            proof {
                d.lemma_hunk_at(h as int);
            }
            self.push(Row::Hunk { file, hunk: h });
            let hash: u64 = hashes[h];
            assert(hash == hunk_hash_of(path@, *d, h as int));
            if !reviewed.contains(&hash) {
                let from: usize = d.hunks[h].lines.start;
                let to: usize = d.hunks[h].lines.end;
                if split {
                    self.push_split(comments, file, path, d.lines.as_slice(), from, to);
                } else {
                    self.push_unified(comments, file, path, d.lines.as_slice(), from, to);
                }
            }
            h = h + 1;
        }
    }

    fn push_images(&mut self, file: usize)
        ensures
            final(self).state() == (Placing {
                rows: old(self).state().rows + Seq::new(
                    IMAGE_ROWS as nat,
                    |part: int| Row::Image { file, part: part as usize },
                ),
                placed: old(self).state().placed,
            }),
    {
        let ghost before = self.rows@;
        let ghost all = Seq::new(
            IMAGE_ROWS as nat,
            |part: int| Row::Image { file, part: part as usize },
        );
        let mut part: usize = 0;
        assert(self.rows@ =~= before + all.take(0));
        while part < IMAGE_ROWS
            invariant
                part <= IMAGE_ROWS == all.len(),
                all == Seq::new(
                    IMAGE_ROWS as nat,
                    |part: int| Row::Image { file, part: part as usize },
                ),
                self.rows@ == before + all.take(part as int),
                self.placed@ == old(self).placed@,
            decreases IMAGE_ROWS - part,
        {
            self.rows.push(Row::Image { file, part });
            part = part + 1;
            assert(self.rows@ =~= before + all.take(part as int));
        }
        assert(all.take(part as int) =~= all);
    }

    fn push_content(
        &mut self,
        comments: &[Comment],
        reviewed: &HashSet<u64>,
        split: bool,
        file: usize,
        entry: &ReviewFile,
        hashes: &[u64],
    )
        requires
            old(self).placed@.len() == comments@.len(),
            diff_of(*entry) matches Some(d) ==> d.wf(),
            hashes@ == file_hashes(*entry),
        ensures
            final(self).state() == content_rows(
                old(self).state(),
                Showing { comments: comments@, reviewed: reviewed@, split },
                file,
                *entry,
            ),
            final(self).placed@.len() == comments@.len(),
    {
        let note: Option<Note> = match &entry.content {
            Content::Pending => Some(Note::Loading),
            Content::Failed(_) => Some(Note::Failed),
            Content::Loaded(Loaded::Binary { old_len, new_len }) => Some(
                Note::Binary { old_len: *old_len, new_len: *new_len },
            ),
            Content::Loaded(Loaded::TooLarge { len }) => Some(Note::TooLarge { len: *len }),
            Content::Loaded(Loaded::Submodule) => Some(Note::Submodule),
            Content::Loaded(Loaded::Conflict) => Some(Note::Conflict),
            Content::Loaded(Loaded::NotAFile) => Some(Note::NotAFile),
            Content::Loaded(Loaded::Image { .. }) => {
                self.push_images(file);
                None
            },
            Content::Loaded(Loaded::Text(d)) => {
                if d.hunks.len() == 0 {
                    Some(Note::NoContentChange)
                } else {
                    self.push_hunks(comments, reviewed, split, file, entry, d, hashes);
                    None
                }
            },
        };
        if let Some(note) = note {
            self.push(Row::Note { file, note });
        }
    }
}

fn find_run_end(lines: &[DiffLine], kind: LineKind, from: usize, to: usize) -> (end: usize)
    requires
        from <= to <= lines@.len(),
    ensures
        end == run_end(lines@, kind, from as int, to as int),
        from <= end <= to,
{
    let mut at: usize = from;
    while at < to && lines[at].kind == kind
        invariant
            from <= at <= to <= lines@.len(),
            run_end(lines@, kind, at as int, to as int) == run_end(
                lines@,
                kind,
                from as int,
                to as int,
            ),
        decreases to - at,
    {
        at = at + 1;
    }
    at
}

fn is_last_of_path(files: &[ReviewFile], file: usize) -> (result: bool)
    requires
        file < files@.len(),
    ensures
        result == last_of_path(files@, file as int),
{
    let count: usize = files.len();
    let mut j: usize = file + 1;
    while j < count
        invariant
            file < j <= count == files@.len(),
            forall|k: int|
                file < k < j ==> (#[trigger] files@[k]).change.path@
                    != files@[file as int].change.path@,
        decreases count - j,
    {
        if same(files[j].change.path.as_slice(), files[file].change.path.as_slice()) {
            return false;
        }
        j = j + 1;
    }
    true
}

/// The rows of a review, and where each file starts among them.
pub fn build_rows(
    files: &[ReviewFile],
    comments: &[Comment],
    reviewed: &HashSet<u64>,
    split: bool,
    hashes: &[Vec<u64>],
) -> (result: (Vec<Row>, Vec<usize>))
    requires
        files_wf(files@),
        hashes_match(files@, hashes@),
    ensures
        result.0@ == all_rows(
            Showing { comments: comments@, reviewed: reviewed@, split },
            files@,
        ),
        result.1@.len() == files@.len(),
        forall|f: int|
            0 <= f < files@.len() ==> #[trigger] result.1@[f] == rows_upto(
                Showing { comments: comments@, reviewed: reviewed@, split },
                files@,
                f,
            ).rows.len(),
{
    let ghost show = Showing { comments: comments@, reviewed: reviewed@, split };
    let mut placed: Vec<bool> = Vec::new();
    let mut c: usize = 0;
    while c < comments.len()
        invariant
            c == placed@.len() <= comments@.len(),
            forall|k: int| 0 <= k < c ==> !#[trigger] placed@[k],
        decreases comments.len() - c,
    {
        placed.push(false);
        c = c + 1;
    }
    let mut builder = RowBuilder { rows: Vec::new(), placed };
    let mut starts: Vec<usize> = Vec::new();
    let mut file: usize = 0;
    assert(builder.placed@ =~= rows_upto(show, files@, 0).placed);
    assert(builder.rows@ =~= rows_upto(show, files@, 0).rows);
    while file < files.len()
        invariant
            file == starts@.len() <= files@.len(),
            files_wf(files@),
            hashes_match(files@, hashes@),
            show == (Showing { comments: comments@, reviewed: reviewed@, split }),
            builder.placed@.len() == comments@.len(),
            builder.state() == rows_upto(show, files@, file as int),
            forall|f: int|
                0 <= f < file ==> #[trigger] starts@[f] == rows_upto(show, files@, f).rows.len(),
        decreases files.len() - file,
    {
        starts.push(builder.rows.len());
        let entry = &files[file];
        builder.push(Row::File { file });
        builder.push_content(comments, reviewed, split, file, entry, hashes[file].as_slice());
        // Comments whose line is no longer in the diff go at the end of their file, under
        // the file's last section.
        if is_last_of_path(files, file) {
            builder.place(comments, file, entry.change.path.as_slice(), None);
        }
        file = file + 1;
    }
    (builder.rows, starts)
}

// ---------------------------------------------------------------------------
// What holds of every row.

/// Whether a line is one of a hunk.
pub open spec fn holds_line(d: FileDiff, hunk: int, line: int) -> bool {
    d.hunks@[hunk].lines.start <= line < d.hunks@[hunk].lines.end
}

/// Whether a line is one of a hunk that is not marked reviewed.
pub open spec fn in_open_hunk(show: Showing, entry: ReviewFile, d: FileDiff, line: int) -> bool {
    exists|h: int|
        0 <= h < d.hunks@.len() && #[trigger] holds_line(d, h, line) && !show.reviewed.contains(
            hunk_hash_of(entry.change.path@, d, h),
        )
}

/// Whether lines are lines of one hunk that is not marked reviewed.
pub open spec fn within_open_hunk(
    show: Showing,
    entry: ReviewFile,
    d: FileDiff,
    hunk: int,
    from: int,
    to: int,
) -> bool {
    &&& 0 <= hunk < d.hunks@.len()
    &&& d.hunks@[hunk].lines.start <= from
    &&& to <= d.hunks@[hunk].lines.end
    &&& !show.reviewed.contains(hunk_hash_of(entry.change.path@, d, hunk))
}

/// Whether a row shows something that is there.
pub open spec fn row_ok(show: Showing, entry: ReviewFile, row: Row) -> bool {
    match row {
        Row::File { .. } => true,
        Row::Note { note, .. } => note_of(entry.content) == Some(note),
        Row::Image { part, .. } => part < IMAGE_ROWS && entry.content matches Content::Loaded(
            Loaded::Image { .. },
        ),
        Row::Hunk { hunk, .. } => diff_of(entry) matches Some(d) && hunk < d.hunks@.len(),
        Row::Line { line, .. } => diff_of(entry) matches Some(d) && line < d.lines@.len()
            && in_open_hunk(show, entry, d, line as int),
        Row::Pair { old, new, .. } => diff_of(entry) matches Some(d) && (old is Some || new is Some)
            && (old matches Some(ix) ==> ix < d.lines@.len() && in_open_hunk(
            show,
            entry,
            d,
            ix as int,
        )) && (new matches Some(ix) ==> ix < d.lines@.len() && in_open_hunk(
            show,
            entry,
            d,
            ix as int,
        )),
        Row::Comment { comment, .. } => comment < show.comments.len() && vstd::utf8::encode_utf8(
            show.comments[comment as int].path@,
        ) == entry.change.path@,
    }
}

/// Whether a row shows a comment.
pub open spec fn is_comment(row: Row, c: int) -> bool {
    row matches Row::Comment { comment, .. } && comment == c
}

/// Whether no row from `lo` on shows a comment.
pub open spec fn absent(rows: Seq<Row>, lo: int, c: int) -> bool {
    forall|i: int| lo <= i < rows.len() ==> !#[trigger] is_comment(rows[i], c)
}

/// Whether the rows of a comment start at `start`, and no other row from `lo` on shows it.
pub open spec fn stands_at(
    rows: Seq<Row>,
    lo: int,
    comments: Seq<Comment>,
    file: usize,
    c: int,
    start: int,
) -> bool {
    let block = comment_rows(file, c, comments[c]);
    &&& lo <= start
    &&& start + block.len() <= rows.len()
    &&& forall|k: int| 0 <= k < block.len() ==> rows[start + k] == #[trigger] block[k]
    &&& forall|i: int|
        lo <= i < rows.len() && #[trigger] is_comment(rows[i], c) ==> start <= i < start
            + block.len()
}

/// Whether a comment stands once in the rows that `q` adds to `p` if it was placed there, and
/// nowhere in them if it was not.
pub open spec fn comment_ok(
    p: Placing,
    q: Placing,
    comments: Seq<Comment>,
    file: usize,
    c: int,
) -> bool {
    &&& p.placed[c] ==> q.placed[c]
    &&& if q.placed[c] && !p.placed[c] {
        exists|start: int|
            #[trigger] stands_at(q.rows, p.rows.len() as int, comments, file, c, start)
    } else {
        absent(q.rows, p.rows.len() as int, c)
    }
}

/// Whether `q` goes on from `p` with rows of one file that show something that is there, each
/// comment once.
pub open spec fn extends(
    p: Placing,
    q: Placing,
    show: Showing,
    entry: ReviewFile,
    file: usize,
) -> bool {
    &&& q.placed.len() == p.placed.len()
    &&& p.rows.len() <= q.rows.len()
    &&& q.rows.take(p.rows.len() as int) == p.rows
    &&& forall|i: int|
        p.rows.len() <= i < q.rows.len() ==> (#[trigger] q.rows[i]).file_of() == file && row_ok(
            show,
            entry,
            q.rows[i],
        )
    &&& forall|c: int|
        0 <= c < p.placed.len() ==> #[trigger] comment_ok(p, q, show.comments, file, c)
}

proof fn lemma_extends_self(p: Placing, show: Showing, entry: ReviewFile, file: usize)
    ensures
        extends(p, p, show, entry, file),
{
    assert(p.rows.take(p.rows.len() as int) =~= p.rows);
    assert forall|c: int| 0 <= c < p.placed.len() implies #[trigger] comment_ok(
        p,
        p,
        show.comments,
        file,
        c,
    ) by {
        assert(absent(p.rows, p.rows.len() as int, c));
    }
}

proof fn lemma_extends_trans(
    p: Placing,
    q: Placing,
    r: Placing,
    show: Showing,
    entry: ReviewFile,
    file: usize,
)
    requires
        extends(p, q, show, entry, file),
        extends(q, r, show, entry, file),
    ensures
        extends(p, r, show, entry, file),
{
    assert(r.rows.take(p.rows.len() as int) =~= q.rows.take(p.rows.len() as int)) by {
        assert forall|i: int| 0 <= i < p.rows.len() implies r.rows[i] == q.rows[i] by {
            assert(r.rows.take(q.rows.len() as int)[i] == q.rows[i]);
        }
    }
    assert forall|i: int| p.rows.len() <= i < r.rows.len() implies (
    #[trigger] r.rows[i]).file_of() == file && row_ok(show, entry, r.rows[i]) by {
        if i < q.rows.len() {
            assert(r.rows.take(q.rows.len() as int)[i] == q.rows[i]);
        }
    }
    assert forall|c: int| 0 <= c < p.placed.len() implies #[trigger] comment_ok(
        p,
        r,
        show.comments,
        file,
        c,
    ) by {
        lemma_comment_trans(p, q, r, show.comments, file, c);
    }
}

proof fn lemma_comment_trans(
    p: Placing,
    q: Placing,
    r: Placing,
    comments: Seq<Comment>,
    file: usize,
    c: int,
)
    requires
        p.rows.len() <= q.rows.len() <= r.rows.len(),
        r.rows.take(q.rows.len() as int) == q.rows,
        comment_ok(p, q, comments, file, c),
        comment_ok(q, r, comments, file, c),
    ensures
        comment_ok(p, r, comments, file, c),
{
    let (lo, mid) = (p.rows.len() as int, q.rows.len() as int);
    assert forall|i: int| 0 <= i < mid implies r.rows[i] == q.rows[i] by {
        assert(r.rows.take(mid)[i] == q.rows[i]);
    }
    if q.placed[c] && !p.placed[c] {
        let start = choose|start: int|
            #[trigger] stands_at(q.rows, lo, comments, file, c, start);
        assert forall|i: int| lo <= i < r.rows.len() && #[trigger] is_comment(
            r.rows[i],
            c,
        ) implies start <= i < start + comment_rows(file, c, comments[c]).len() by {
            if i < mid {
                assert(is_comment(q.rows[i], c));
            }
        }
        assert(stands_at(r.rows, lo, comments, file, c, start));
    } else {
        assert forall|i: int| lo <= i < mid implies !#[trigger] is_comment(r.rows[i], c) by {
            assert(!is_comment(q.rows[i], c));
        }
        if r.placed[c] && !p.placed[c] {
            let start = choose|start: int|
                #[trigger] stands_at(r.rows, mid, comments, file, c, start);
            assert(stands_at(r.rows, lo, comments, file, c, start));
        } else {
            assert(absent(r.rows, lo, c));
        }
    }
}

/// Rows that are none of comments place none.
proof fn lemma_no_comments(p: Placing, more: Seq<Row>, comments: Seq<Comment>, file: usize)
    requires
        forall|i: int| 0 <= i < more.len() ==> !((#[trigger] more[i]) is Comment),
    ensures
        forall|c: int|
            0 <= c < p.placed.len() ==> #[trigger] comment_ok(
                p,
                Placing { rows: p.rows + more, placed: p.placed },
                comments,
                file,
                c,
            ),
{
    let q = Placing { rows: p.rows + more, placed: p.placed };
    assert forall|c: int| 0 <= c < p.placed.len() implies #[trigger] comment_ok(
        p,
        q,
        comments,
        file,
        c,
    ) by {
        assert forall|i: int| p.rows.len() <= i < q.rows.len() implies !#[trigger] is_comment(
            q.rows[i],
            c,
        ) by {
            assert(q.rows[i] == more[i - p.rows.len()]);
        }
        assert(absent(q.rows, p.rows.len() as int, c));
    }
}

proof fn lemma_extends_rows(
    p: Placing,
    more: Seq<Row>,
    placed: Seq<bool>,
    show: Showing,
    entry: ReviewFile,
    file: usize,
)
    requires
        placed.len() == p.placed.len(),
        forall|i: int|
            0 <= i < more.len() ==> (#[trigger] more[i]).file_of() == file && row_ok(
                show,
                entry,
                more[i],
            ),
        forall|c: int|
            0 <= c < p.placed.len() ==> #[trigger] comment_ok(
                p,
                Placing { rows: p.rows + more, placed },
                show.comments,
                file,
                c,
            ),
    ensures
        extends(p, Placing { rows: p.rows + more, placed }, show, entry, file),
{
    let q = p.rows + more;
    assert(q.take(p.rows.len() as int) =~= p.rows);
    assert forall|i: int| p.rows.len() <= i < q.len() implies (#[trigger] q[i]).file_of() == file
        && row_ok(show, entry, q[i]) by {
        assert(q[i] == more[i - p.rows.len()]);
    }
}

proof fn lemma_extends_row(
    p: Placing,
    row: Row,
    show: Showing,
    entry: ReviewFile,
    file: usize,
)
    requires
        row.file_of() == file,
        row_ok(show, entry, row),
        !(row is Comment),
    ensures
        extends(p, with_row(p, row), show, entry, file),
{
    lemma_no_comments(p, seq![row], show.comments, file);
    lemma_extends_rows(p, seq![row], p.placed, show, entry, file);
    assert(p.rows + seq![row] =~= p.rows.push(row));
}

proof fn lemma_place(
    p: Placing,
    show: Showing,
    entry: ReviewFile,
    file: usize,
    at: Option<(Side, u32)>,
    c: int,
)
    requires
        p.placed.len() == show.comments.len() <= usize::MAX,
        0 <= c,
    ensures
        extends(
            p,
            place(p, show.comments, file, entry.change.path@, at, c),
            show,
            entry,
            file,
        ),
    decreases show.comments.len() - c,
{
    let path = entry.change.path@;
    lemma_extends_self(p, show, entry, file);
    if c < show.comments.len() {
        if belongs(show.comments[c], path, at) && !p.placed[c] {
            let more = comment_rows(file, c, show.comments[c]);
            let placed = p.placed.update(c, true);
            let next = Placing { rows: p.rows + more, placed };
            assert forall|other: int| 0 <= other < p.placed.len() implies #[trigger] comment_ok(
                p,
                next,
                show.comments,
                file,
                other,
            ) by {
                let lo = p.rows.len() as int;
                assert forall|i: int| lo <= i < next.rows.len() implies #[trigger] is_comment(
                    next.rows[i],
                    other,
                ) == (other == c) by {
                    assert(next.rows[i] == more[i - lo]);
                }
                if other == c {
                    assert forall|k: int| 0 <= k < more.len() implies next.rows[lo + k]
                        == #[trigger] more[k] by {}
                    assert(stands_at(next.rows, lo, show.comments, file, c, lo));
                } else {
                    assert(absent(next.rows, lo, other));
                }
            }
            lemma_extends_rows(p, more, placed, show, entry, file);
            lemma_place(next, show, entry, file, at, c + 1);
            lemma_extends_trans(
                p,
                next,
                place(next, show.comments, file, path, at, c + 1),
                show,
                entry,
                file,
            );
        } else {
            lemma_place(p, show, entry, file, at, c + 1);
        }
    }
}

/// The comments can be numbered.
pub open spec fn comments_fit(comments: Seq<Comment>) -> bool {
    comments.len() <= usize::MAX
}

proof fn lemma_place_at_line(
    p: Placing,
    show: Showing,
    entry: ReviewFile,
    file: usize,
    line: DiffLine,
)
    requires
        p.placed.len() == show.comments.len(),
        comments_fit(show.comments),
    ensures
        extends(
            p,
            place_at_line(p, show.comments, file, entry.change.path@, line),
            show,
            entry,
            file,
        ),
{
    lemma_extends_self(p, show, entry, file);
    if let Some(at) = line_anchor(line) {
        lemma_place(p, show, entry, file, Some(at), 0);
    }
}

proof fn lemma_unified(
    p: Placing,
    show: Showing,
    entry: ReviewFile,
    file: usize,
    d: FileDiff,
    from: int,
    to: int,
    hunk: int,
)
    requires
        p.placed.len() == show.comments.len(),
        comments_fit(show.comments),
        diff_of(entry) == Some(d),
        0 <= from <= to <= d.lines@.len() <= usize::MAX,
        within_open_hunk(show, entry, d, hunk, from, to),
    ensures
        extends(
            p,
            unified_rows(p, show.comments, file, entry.change.path@, d.lines@, from, to),
            show,
            entry,
            file,
        ),
    decreases to - from,
{
    let path = entry.change.path@;
    lemma_extends_self(p, show, entry, file);
    if from < to {
        assert(holds_line(d, hunk, from));
        let a = with_row(p, Row::Line { file, line: from as usize });
        let b = place_at_line(a, show.comments, file, path, d.lines@[from]);
        lemma_extends_row(p, Row::Line { file, line: from as usize }, show, entry, file);
        lemma_place_at_line(a, show, entry, file, d.lines@[from]);
        lemma_extends_trans(p, a, b, show, entry, file);
        lemma_unified(b, show, entry, file, d, from + 1, to, hunk);
        lemma_extends_trans(
            p,
            b,
            unified_rows(b, show.comments, file, path, d.lines@, from + 1, to),
            show,
            entry,
            file,
        );
    }
}

proof fn lemma_run(
    p: Placing,
    show: Showing,
    entry: ReviewFile,
    file: usize,
    d: FileDiff,
    from: int,
    mid: int,
    to: int,
    k: int,
    hunk: int,
)
    requires
        p.placed.len() == show.comments.len(),
        comments_fit(show.comments),
        diff_of(entry) == Some(d),
        0 <= from <= mid <= to <= d.lines@.len() <= usize::MAX,
        0 <= k,
        within_open_hunk(show, entry, d, hunk, from, to),
    ensures
        extends(
            p,
            run_rows(p, show.comments, file, entry.change.path@, d.lines@, from, mid, to, k),
            show,
            entry,
            file,
        ),
    decreases to - from - k,
{
    let path = entry.change.path@;
    let lines = d.lines@;
    lemma_extends_self(p, show, entry, file);
    if from + k < mid || mid + k < to {
        let row = pair_row(file, from, mid, to, k);
        assert(from + k < mid ==> holds_line(d, hunk, from + k));
        assert(mid + k < to ==> holds_line(d, hunk, mid + k));
        let a = with_row(p, row);
        lemma_extends_row(p, row, show, entry, file);
        let b = if from + k < mid {
            place_at_line(a, show.comments, file, path, lines[from + k])
        } else {
            a
        };
        lemma_extends_self(a, show, entry, file);
        if from + k < mid {
            lemma_place_at_line(a, show, entry, file, lines[from + k]);
        }
        lemma_extends_trans(p, a, b, show, entry, file);
        let c = if mid + k < to {
            place_at_line(b, show.comments, file, path, lines[mid + k])
        } else {
            b
        };
        lemma_extends_self(b, show, entry, file);
        if mid + k < to {
            lemma_place_at_line(b, show, entry, file, lines[mid + k]);
        }
        lemma_extends_trans(p, b, c, show, entry, file);
        lemma_run(c, show, entry, file, d, from, mid, to, k + 1, hunk);
        lemma_extends_trans(
            p,
            c,
            run_rows(c, show.comments, file, path, lines, from, mid, to, k + 1),
            show,
            entry,
            file,
        );
    }
}

proof fn lemma_split(
    p: Placing,
    show: Showing,
    entry: ReviewFile,
    file: usize,
    d: FileDiff,
    from: int,
    to: int,
    hunk: int,
)
    requires
        p.placed.len() == show.comments.len(),
        comments_fit(show.comments),
        diff_of(entry) == Some(d),
        0 <= from <= to <= d.lines@.len() <= usize::MAX,
        within_open_hunk(show, entry, d, hunk, from, to),
    ensures
        extends(
            p,
            split_rows(p, show.comments, file, entry.change.path@, d.lines@, from, to),
            show,
            entry,
            file,
        ),
    decreases to - from,
{
    let path = entry.change.path@;
    let lines = d.lines@;
    lemma_extends_self(p, show, entry, file);
    if from < to {
        if lines[from].kind == LineKind::Context {
            assert(holds_line(d, hunk, from));
            let row = Row::Pair { file, old: Some(from as usize), new: Some(from as usize) };
            let a = with_row(p, row);
            let b = place_at_line(a, show.comments, file, path, lines[from]);
            lemma_extends_row(p, row, show, entry, file);
            lemma_place_at_line(a, show, entry, file, lines[from]);
            lemma_extends_trans(p, a, b, show, entry, file);
            lemma_split(b, show, entry, file, d, from + 1, to, hunk);
            lemma_extends_trans(
                p,
                b,
                split_rows(b, show.comments, file, path, lines, from + 1, to),
                show,
                entry,
                file,
            );
        } else {
            let mid = run_end(lines, LineKind::Removed, from, to);
            lemma_run_end(lines, LineKind::Removed, from, to);
            let end = run_end(lines, LineKind::Added, mid, to);
            lemma_run_end(lines, LineKind::Added, mid, to);
            let b = run_rows(p, show.comments, file, path, lines, from, mid, end, 0);
            lemma_run(p, show, entry, file, d, from, mid, end, 0, hunk);
            lemma_split(b, show, entry, file, d, end, to, hunk);
            lemma_extends_trans(
                p,
                b,
                split_rows(b, show.comments, file, path, lines, end, to),
                show,
                entry,
                file,
            );
        }
    }
}

proof fn lemma_hunks(
    p: Placing,
    show: Showing,
    entry: ReviewFile,
    file: usize,
    d: FileDiff,
    h: int,
)
    requires
        p.placed.len() == show.comments.len(),
        comments_fit(show.comments),
        diff_of(entry) == Some(d),
        d.wf(),
        d.lines@.len() <= usize::MAX,
        d.hunks@.len() <= usize::MAX,
        0 <= h,
    ensures
        extends(p, hunk_rows(p, show, file, entry, d, h), show, entry, file),
    decreases d.hunks@.len() - h,
{
    let comments = show.comments;
    lemma_extends_self(p, show, entry, file);
    if h < d.hunks@.len() {
        d.lemma_hunk_at(h);
        let row = Row::Hunk { file, hunk: h as usize };
        let a = with_row(p, row);
        lemma_extends_row(p, row, show, entry, file);
        let (from, to) = (d.hunks@[h].lines.start as int, d.hunks@[h].lines.end as int);
        let path = entry.change.path@;
        let b = if show.reviewed.contains(hunk_hash_of(path, d, h)) {
            a
        } else if show.split {
            split_rows(a, comments, file, path, d.lines@, from, to)
        } else {
            unified_rows(a, comments, file, path, d.lines@, from, to)
        };
        lemma_extends_self(a, show, entry, file);
        if !show.reviewed.contains(hunk_hash_of(path, d, h)) {
            lemma_split(a, show, entry, file, d, from, to, h);
            lemma_unified(a, show, entry, file, d, from, to, h);
        }
        lemma_extends_trans(p, a, b, show, entry, file);
        lemma_hunks(b, show, entry, file, d, h + 1);
        lemma_extends_trans(
            p,
            b,
            hunk_rows(b, show, file, entry, d, h + 1),
            show,
            entry,
            file,
        );
    }
}

proof fn lemma_content(p: Placing, show: Showing, entry: ReviewFile, file: usize)
    requires
        p.placed.len() == show.comments.len(),
        comments_fit(show.comments),
        diff_of(entry) matches Some(d) ==> d.wf(),
    ensures
        extends(p, content_rows(p, show, file, entry), show, entry, file),
{
    match note_of(entry.content) {
        Some(note) => lemma_extends_row(
            p,
            Row::Note { file, note },
            show,
            entry,
            file,
        ),
        None => match diff_of(entry) {
            Some(d) => {
                assert(d.lines.len() <= usize::MAX && d.hunks.len() <= usize::MAX);
                lemma_hunks(p, show, entry, file, d, 0);
            },
            None => {
                let more = Seq::new(
                    IMAGE_ROWS as nat,
                    |part: int| Row::Image { file, part: part as usize },
                );
                lemma_no_comments(p, more, show.comments, file);
                lemma_extends_rows(p, more, p.placed, show, entry, file);
            },
        },
    }
}

/// One more file goes on with a header and rows of that file.
pub proof fn lemma_file_rows(show: Showing, files: Seq<ReviewFile>, file: int)
    requires
        files_wf(files),
        comments_fit(show.comments),
        0 <= file < files.len() <= usize::MAX,
    ensures
        rows_upto(show, files, file).placed.len() == show.comments.len(),
        extends(
            rows_upto(show, files, file),
            rows_upto(show, files, file + 1),
            show,
            files[file],
            file as usize,
        ),
        rows_upto(show, files, file).rows.len() < rows_upto(show, files, file + 1).rows.len(),
        rows_upto(show, files, file + 1).rows[rows_upto(show, files, file).rows.len() as int]
            == (Row::File { file: file as usize }),
    decreases file,
{
    if file > 0 {
        lemma_file_rows(show, files, file - 1);
    }
    let entry = files[file];
    let f = file as usize;
    let p = rows_upto(show, files, file);
    let a = with_row(p, Row::File { file: f });
    let b = content_rows(a, show, f, entry);
    lemma_extends_row(p, Row::File { file: f }, show, entry, f);
    lemma_content(a, show, entry, f);
    lemma_extends_trans(p, a, b, show, entry, f);
    lemma_place(b, show, entry, f, None, 0);
    let c = rows_upto(show, files, file + 1);
    lemma_extends_self(b, show, entry, f);
    lemma_extends_trans(p, b, c, show, entry, f);
    lemma_extends_trans(a, b, c, show, entry, f);
    assert(c.rows.take(a.rows.len() as int)[p.rows.len() as int] == a.rows[p.rows.len() as int]);
}

/// What holds of row `row` among the rows of the first `count` files: it belongs to one of
/// them, shows something that is there, and lies between that file's header and the next.
pub proof fn lemma_row_at(show: Showing, files: Seq<ReviewFile>, count: int, row: int)
    requires
        files_wf(files),
        comments_fit(show.comments),
        0 <= count <= files.len() <= usize::MAX,
        0 <= row < rows_upto(show, files, count).rows.len(),
    ensures
        ({
            let r = rows_upto(show, files, count).rows[row];
            &&& r.file_of() < count
            &&& row_ok(show, files[r.file_of() as int], r)
            &&& rows_upto(show, files, r.file_of() as int).rows.len() <= row
            &&& row < rows_upto(show, files, r.file_of() + 1).rows.len()
        }),
    decreases count,
{
    if count > 0 {
        lemma_file_rows(show, files, count - 1);
        let p = rows_upto(show, files, count - 1);
        let q = rows_upto(show, files, count);
        if row < p.rows.len() {
            lemma_row_at(show, files, count - 1, row);
            assert(q.rows.take(p.rows.len() as int)[row] == p.rows[row]);
        }
    }
}

/// Where file `file` starts among the rows stands its header.
pub proof fn lemma_header_at(show: Showing, files: Seq<ReviewFile>, file: int, count: int)
    requires
        files_wf(files),
        comments_fit(show.comments),
        0 <= file < count <= files.len() <= usize::MAX,
    ensures
        rows_upto(show, files, file).rows.len() < rows_upto(show, files, file + 1).rows.len()
            <= rows_upto(show, files, count).rows.len(),
        rows_upto(show, files, count).rows[rows_upto(show, files, file).rows.len() as int]
            == (Row::File { file: file as usize }),
    decreases count,
{
    lemma_file_rows(show, files, count - 1);
    lemma_file_rows(show, files, file);
    if file < count - 1 {
        lemma_header_at(show, files, file, count - 1);
        let p = rows_upto(show, files, count - 1);
        let at = rows_upto(show, files, file).rows.len() as int;
        assert(rows_upto(show, files, count).rows.take(p.rows.len() as int)[at] == p.rows[at]);
    }
}

/// Later files start later.
pub proof fn lemma_starts_less(show: Showing, files: Seq<ReviewFile>, i: int, j: int)
    requires
        files_wf(files),
        comments_fit(show.comments),
        0 <= i < j <= files.len() <= usize::MAX,
    ensures
        rows_upto(show, files, i).rows.len() < rows_upto(show, files, j).rows.len(),
    decreases j - i,
{
    lemma_file_rows(show, files, j - 1);
    if i < j - 1 {
        lemma_starts_less(show, files, i, j - 1);
    }
}

// ---------------------------------------------------------------------------
// Nothing is left out.

/// Whether a row shows a line of a file.
pub open spec fn shows_line(row: Row, file: usize, line: int) -> bool {
    match row {
        Row::Line { file: f, line: l } => f == file && l == line,
        Row::Pair { file: f, old, new } => f == file && ((old matches Some(l) && l == line) || (
        new matches Some(l) && l == line)),
        _ => false,
    }
}

/// Whether some row shows a line of a file.
pub open spec fn line_shown(rows: Seq<Row>, file: usize, line: int) -> bool {
    exists|r: int| 0 <= r < rows.len() && #[trigger] shows_line(rows[r], file, line)
}

proof fn lemma_still_shown(p: Seq<Row>, q: Seq<Row>, file: usize, line: int)
    requires
        p.len() <= q.len(),
        q.take(p.len() as int) == p,
        line_shown(p, file, line),
    ensures
        line_shown(q, file, line),
{
    let r = choose|r: int| 0 <= r < p.len() && #[trigger] shows_line(p[r], file, line);
    assert(q.take(p.len() as int)[r] == q[r]);
    assert(shows_line(q[r], file, line));
}

proof fn lemma_unified_shows(
    p: Placing,
    show: Showing,
    entry: ReviewFile,
    file: usize,
    d: FileDiff,
    from: int,
    to: int,
    hunk: int,
    line: int,
)
    requires
        p.placed.len() == show.comments.len(),
        comments_fit(show.comments),
        diff_of(entry) == Some(d),
        0 <= from <= line < to <= d.lines@.len() <= usize::MAX,
        within_open_hunk(show, entry, d, hunk, from, to),
    ensures
        line_shown(
            unified_rows(p, show.comments, file, entry.change.path@, d.lines@, from, to).rows,
            file,
            line,
        ),
    decreases to - from,
{
    let path = entry.change.path@;
    assert(holds_line(d, hunk, from));
    let row = Row::Line { file, line: from as usize };
    let a = with_row(p, row);
    let b = place_at_line(a, show.comments, file, path, d.lines@[from]);
    lemma_extends_row(p, row, show, entry, file);
    lemma_place_at_line(a, show, entry, file, d.lines@[from]);
    if line == from {
        lemma_unified(b, show, entry, file, d, from + 1, to, hunk);
        let c = unified_rows(b, show.comments, file, path, d.lines@, from + 1, to);
        assert(shows_line(a.rows[p.rows.len() as int], file, line));
        lemma_still_shown(a.rows, b.rows, file, line);
        lemma_still_shown(b.rows, c.rows, file, line);
    } else {
        lemma_unified_shows(b, show, entry, file, d, from + 1, to, hunk, line);
    }
}

proof fn lemma_run_shows(
    p: Placing,
    show: Showing,
    entry: ReviewFile,
    file: usize,
    d: FileDiff,
    from: int,
    mid: int,
    to: int,
    k: int,
    hunk: int,
    line: int,
)
    requires
        p.placed.len() == show.comments.len(),
        comments_fit(show.comments),
        diff_of(entry) == Some(d),
        0 <= from <= mid <= to <= d.lines@.len() <= usize::MAX,
        0 <= k,
        within_open_hunk(show, entry, d, hunk, from, to),
        from + k <= line < mid || mid + k <= line < to,
    ensures
        line_shown(
            run_rows(
                p,
                show.comments,
                file,
                entry.change.path@,
                d.lines@,
                from,
                mid,
                to,
                k,
            ).rows,
            file,
            line,
        ),
    decreases to - from - k,
{
    let path = entry.change.path@;
    let lines = d.lines@;
    let row = pair_row(file, from, mid, to, k);
    assert(from + k < mid ==> holds_line(d, hunk, from + k));
    assert(mid + k < to ==> holds_line(d, hunk, mid + k));
    let a = with_row(p, row);
    lemma_extends_row(p, row, show, entry, file);
    let b = if from + k < mid {
        place_at_line(a, show.comments, file, path, lines[from + k])
    } else {
        a
    };
    lemma_extends_self(a, show, entry, file);
    if from + k < mid {
        lemma_place_at_line(a, show, entry, file, lines[from + k]);
    }
    let c = if mid + k < to {
        place_at_line(b, show.comments, file, path, lines[mid + k])
    } else {
        b
    };
    lemma_extends_self(b, show, entry, file);
    if mid + k < to {
        lemma_place_at_line(b, show, entry, file, lines[mid + k]);
    }
    if line == from + k || line == mid + k {
        lemma_run(c, show, entry, file, d, from, mid, to, k + 1, hunk);
        let q = run_rows(c, show.comments, file, path, lines, from, mid, to, k + 1);
        assert(shows_line(a.rows[p.rows.len() as int], file, line));
        lemma_still_shown(a.rows, b.rows, file, line);
        lemma_still_shown(b.rows, c.rows, file, line);
        lemma_still_shown(c.rows, q.rows, file, line);
    } else {
        lemma_run_shows(c, show, entry, file, d, from, mid, to, k + 1, hunk, line);
    }
}

proof fn lemma_split_shows(
    p: Placing,
    show: Showing,
    entry: ReviewFile,
    file: usize,
    d: FileDiff,
    from: int,
    to: int,
    hunk: int,
    line: int,
)
    requires
        p.placed.len() == show.comments.len(),
        comments_fit(show.comments),
        diff_of(entry) == Some(d),
        0 <= from <= line < to <= d.lines@.len() <= usize::MAX,
        within_open_hunk(show, entry, d, hunk, from, to),
    ensures
        line_shown(
            split_rows(p, show.comments, file, entry.change.path@, d.lines@, from, to).rows,
            file,
            line,
        ),
    decreases to - from,
{
    let path = entry.change.path@;
    let lines = d.lines@;
    if lines[from].kind == LineKind::Context {
        assert(holds_line(d, hunk, from));
        let row = Row::Pair { file, old: Some(from as usize), new: Some(from as usize) };
        let a = with_row(p, row);
        let b = place_at_line(a, show.comments, file, path, lines[from]);
        lemma_extends_row(p, row, show, entry, file);
        lemma_place_at_line(a, show, entry, file, lines[from]);
        if line == from {
            lemma_split(b, show, entry, file, d, from + 1, to, hunk);
            let c = split_rows(b, show.comments, file, path, lines, from + 1, to);
            assert(shows_line(a.rows[p.rows.len() as int], file, line));
            lemma_still_shown(a.rows, b.rows, file, line);
            lemma_still_shown(b.rows, c.rows, file, line);
        } else {
            lemma_split_shows(b, show, entry, file, d, from + 1, to, hunk, line);
        }
    } else {
        let mid = run_end(lines, LineKind::Removed, from, to);
        lemma_run_end(lines, LineKind::Removed, from, to);
        let end = run_end(lines, LineKind::Added, mid, to);
        lemma_run_end(lines, LineKind::Added, mid, to);
        let b = run_rows(p, show.comments, file, path, lines, from, mid, end, 0);
        lemma_run(p, show, entry, file, d, from, mid, end, 0, hunk);
        if line < end {
            lemma_run_shows(p, show, entry, file, d, from, mid, end, 0, hunk, line);
            lemma_split(b, show, entry, file, d, end, to, hunk);
            let c = split_rows(b, show.comments, file, path, lines, end, to);
            lemma_still_shown(b.rows, c.rows, file, line);
        } else {
            lemma_split_shows(b, show, entry, file, d, end, to, hunk, line);
        }
    }
}

proof fn lemma_hunks_show(
    p: Placing,
    show: Showing,
    entry: ReviewFile,
    file: usize,
    d: FileDiff,
    h: int,
    hunk: int,
    line: int,
)
    requires
        p.placed.len() == show.comments.len(),
        comments_fit(show.comments),
        diff_of(entry) == Some(d),
        d.wf(),
        d.lines@.len() <= usize::MAX,
        d.hunks@.len() <= usize::MAX,
        0 <= h <= hunk < d.hunks@.len(),
        holds_line(d, hunk, line),
        !show.reviewed.contains(hunk_hash_of(entry.change.path@, d, hunk)),
    ensures
        line_shown(hunk_rows(p, show, file, entry, d, h).rows, file, line),
    decreases d.hunks@.len() - h,
{
    let comments = show.comments;
    d.lemma_hunk_at(h);
    let row = Row::Hunk { file, hunk: h as usize };
    let a = with_row(p, row);
    lemma_extends_row(p, row, show, entry, file);
    let (from, to) = (d.hunks@[h].lines.start as int, d.hunks@[h].lines.end as int);
    let path = entry.change.path@;
    let b = if show.reviewed.contains(hunk_hash_of(path, d, h)) {
        a
    } else if show.split {
        split_rows(a, comments, file, path, d.lines@, from, to)
    } else {
        unified_rows(a, comments, file, path, d.lines@, from, to)
    };
    lemma_extends_self(a, show, entry, file);
    if !show.reviewed.contains(hunk_hash_of(path, d, h)) {
        lemma_split(a, show, entry, file, d, from, to, h);
        lemma_unified(a, show, entry, file, d, from, to, h);
    }
    if h == hunk {
        if show.split {
            lemma_split_shows(a, show, entry, file, d, from, to, h, line);
        } else {
            lemma_unified_shows(a, show, entry, file, d, from, to, h, line);
        }
        lemma_hunks(b, show, entry, file, d, h + 1);
        let c = hunk_rows(b, show, file, entry, d, h + 1);
        lemma_still_shown(b.rows, c.rows, file, line);
    } else {
        lemma_hunks_show(b, show, entry, file, d, h + 1, hunk, line);
    }
}

/// Every line of a hunk that is not marked reviewed has a row among those of the first
/// `count` files.
pub proof fn lemma_lines_shown(
    show: Showing,
    files: Seq<ReviewFile>,
    count: int,
    file: int,
    d: FileDiff,
    hunk: int,
    line: int,
)
    requires
        files_wf(files),
        comments_fit(show.comments),
        0 <= file < count <= files.len() <= usize::MAX,
        diff_of(files[file]) == Some(d),
        0 <= hunk < d.hunks@.len(),
        holds_line(d, hunk, line),
        !show.reviewed.contains(hunk_hash_of(files[file].change.path@, d, hunk)),
    ensures
        line_shown(rows_upto(show, files, count).rows, file as usize, line),
    decreases count,
{
    lemma_file_rows(show, files, count - 1);
    let p = rows_upto(show, files, count - 1);
    let q = rows_upto(show, files, count);
    if file < count - 1 {
        lemma_lines_shown(show, files, count - 1, file, d, hunk, line);
        lemma_still_shown(p.rows, q.rows, file as usize, line);
    } else {
        let entry = files[file];
        let f = file as usize;
        let a = with_row(p, Row::File { file: f });
        let b = content_rows(a, show, f, entry);
        assert(d.lines.len() <= usize::MAX && d.hunks.len() <= usize::MAX);
        lemma_hunks_show(a, show, entry, f, d, 0, hunk, line);
        lemma_content(a, show, entry, f);
        lemma_place(b, show, entry, f, None, 0);
        lemma_extends_self(b, show, entry, f);
        lemma_still_shown(b.rows, q.rows, f, line);
    }
}

/// Placing all comments of a path leaves none of them out.
proof fn lemma_all_placed(
    p: Placing,
    show: Showing,
    entry: ReviewFile,
    file: usize,
    from: int,
    c: int,
)
    requires
        p.placed.len() == show.comments.len() <= usize::MAX,
        0 <= from <= c < show.comments.len(),
        belongs(show.comments[c], entry.change.path@, None),
    ensures
        place(p, show.comments, file, entry.change.path@, None, from).placed[c],
    decreases show.comments.len() - from,
{
    let path = entry.change.path@;
    let next = if belongs(show.comments[from], path, None) && !p.placed[from] {
        Placing {
            rows: p.rows + comment_rows(file, from, show.comments[from]),
            placed: p.placed.update(from, true),
        }
    } else {
        p
    };
    if from < c {
        lemma_all_placed(next, show, entry, file, from + 1, c);
    } else {
        lemma_place(next, show, entry, file, None, from + 1);
        let q = place(next, show.comments, file, path, None, from + 1);
        assert(comment_ok(next, q, show.comments, file, c));
    }
}

/// A comment stands once among the rows of the first `count` files if it was placed, and
/// nowhere if it was not; it was placed if the last file with its path is one of them.
pub proof fn lemma_comment_upto(show: Showing, files: Seq<ReviewFile>, count: int, c: int)
    requires
        files_wf(files),
        comments_fit(show.comments),
        0 <= count <= files.len() <= usize::MAX,
        0 <= c < show.comments.len(),
    ensures
        ({
            let q = rows_upto(show, files, count);
            &&& q.placed.len() == show.comments.len()
            &&& if q.placed[c] {
                exists|file: usize, start: int|
                    #[trigger] stands_at(q.rows, 0, show.comments, file, c, start)
            } else {
                absent(q.rows, 0, c)
            }
            &&& forall|f: int|
                0 <= f < count && last_of_path(files, f) && belongs(
                    show.comments[c],
                    (#[trigger] files[f]).change.path@,
                    None,
                ) ==> q.placed[c]
        }),
    decreases count,
{
    if count > 0 {
        lemma_comment_upto(show, files, count - 1, c);
        lemma_file_rows(show, files, count - 1);
        let p = rows_upto(show, files, count - 1);
        let q = rows_upto(show, files, count);
        let (f, entry) = ((count - 1) as usize, files[count - 1]);
        let mid = p.rows.len() as int;
        assert(comment_ok(p, q, show.comments, f, c));
        assert forall|i: int| 0 <= i < mid implies q.rows[i] == p.rows[i] by {
            assert(q.rows.take(mid)[i] == p.rows[i]);
        }
        if p.placed[c] {
            let (file, start) = choose|file: usize, start: int|
                #[trigger] stands_at(p.rows, 0, show.comments, file, c, start);
            assert forall|i: int| 0 <= i < q.rows.len() && #[trigger] is_comment(
                q.rows[i],
                c,
            ) implies start <= i < start + comment_rows(file, c, show.comments[c]).len() by {
                if i < mid {
                    assert(is_comment(p.rows[i], c));
                }
            }
            assert(stands_at(q.rows, 0, show.comments, file, c, start));
        } else {
            assert forall|i: int| 0 <= i < mid implies !#[trigger] is_comment(q.rows[i], c) by {
                assert(!is_comment(p.rows[i], c));
            }
            if q.placed[c] {
                let start = choose|start: int|
                    #[trigger] stands_at(q.rows, mid, show.comments, f, c, start);
                assert(stands_at(q.rows, 0, show.comments, f, c, start));
            }
        }
        if last_of_path(files, count - 1) && belongs(show.comments[c], entry.change.path@, None) {
            let a = with_row(p, Row::File { file: f });
            let b = content_rows(a, show, f, entry);
            lemma_content(a, show, entry, f);
            lemma_all_placed(b, show, entry, f, 0, c);
        }
    }
}

/// Some file is the last one with a path that occurs.
pub proof fn lemma_last_of_path(files: Seq<ReviewFile>, f: int) -> (last: int)
    requires
        0 <= f < files.len(),
    ensures
        f <= last < files.len(),
        files[last].change.path@ == files[f].change.path@,
        last_of_path(files, last),
    decreases files.len() - f,
{
    if last_of_path(files, f) {
        f
    } else {
        let j = choose|j: int|
            f < j < files.len() && (#[trigger] files[j]).change.path@ == files[f].change.path@;
        lemma_last_of_path(files, j)
    }
}

// ---------------------------------------------------------------------------
// What marking a hunk leaves in its place.

/// Whether `q` goes on from `p` without the header of a hunk.
spec fn adds_no_header(p: Placing, q: Placing) -> bool {
    &&& p.rows.len() <= q.rows.len()
    &&& q.rows.take(p.rows.len() as int) == p.rows
    &&& forall|i: int| p.rows.len() <= i < q.rows.len() ==> !((#[trigger] q.rows[i]) is Hunk)
}

proof fn lemma_no_header_trans(p: Placing, q: Placing, r: Placing)
    requires
        adds_no_header(p, q),
        adds_no_header(q, r),
    ensures
        adds_no_header(p, r),
{
    let (a, b) = (p.rows.len() as int, q.rows.len() as int);
    assert(r.rows.take(a) =~= q.rows.take(a)) by {
        assert forall|i: int| 0 <= i < a implies r.rows[i] == q.rows[i] by {
            assert(r.rows.take(b)[i] == q.rows[i]);
        }
    }
    assert forall|i: int| a <= i < r.rows.len() implies !((#[trigger] r.rows[i]) is Hunk) by {
        if i < b {
            assert(r.rows.take(b)[i] == q.rows[i]);
        }
    }
}

proof fn lemma_no_header_row(p: Placing, row: Row)
    requires
        !(row is Hunk),
    ensures
        adds_no_header(p, with_row(p, row)),
{
    assert(with_row(p, row).rows.take(p.rows.len() as int) =~= p.rows);
}

proof fn lemma_no_header_self(p: Placing)
    ensures
        adds_no_header(p, p),
{
    assert(p.rows.take(p.rows.len() as int) =~= p.rows);
}

proof fn lemma_no_header_place(
    p: Placing,
    comments: Seq<Comment>,
    file: usize,
    path: Seq<u8>,
    at: Option<(Side, u32)>,
    c: int,
)
    ensures
        adds_no_header(p, place(p, comments, file, path, at, c)),
    decreases comments.len() - c,
{
    lemma_no_header_self(p);
    if c < comments.len() {
        if belongs(comments[c], path, at) && !p.placed[c] {
            let next = Placing {
                rows: p.rows + comment_rows(file, c, comments[c]),
                placed: p.placed.update(c, true),
            };
            assert(next.rows.take(p.rows.len() as int) =~= p.rows);
            assert(adds_no_header(p, next));
            lemma_no_header_place(next, comments, file, path, at, c + 1);
            lemma_no_header_trans(p, next, place(next, comments, file, path, at, c + 1));
        } else {
            lemma_no_header_place(p, comments, file, path, at, c + 1);
        }
    }
}

proof fn lemma_no_header_line(
    p: Placing,
    row: Row,
    comments: Seq<Comment>,
    file: usize,
    path: Seq<u8>,
    line: DiffLine,
)
    requires
        !(row is Hunk),
    ensures
        adds_no_header(p, place_at_line(with_row(p, row), comments, file, path, line)),
{
    let a = with_row(p, row);
    lemma_no_header_row(p, row);
    lemma_no_header_self(a);
    if let Some(at) = line_anchor(line) {
        lemma_no_header_place(a, comments, file, path, Some(at), 0);
    }
    lemma_no_header_trans(p, a, place_at_line(a, comments, file, path, line));
}

proof fn lemma_no_header_unified(
    p: Placing,
    comments: Seq<Comment>,
    file: usize,
    path: Seq<u8>,
    lines: Seq<DiffLine>,
    from: int,
    to: int,
)
    ensures
        adds_no_header(p, unified_rows(p, comments, file, path, lines, from, to)),
    decreases to - from,
{
    lemma_no_header_self(p);
    if from < to {
        let row = Row::Line { file, line: from as usize };
        let b = place_at_line(with_row(p, row), comments, file, path, lines[from]);
        lemma_no_header_line(p, row, comments, file, path, lines[from]);
        lemma_no_header_unified(b, comments, file, path, lines, from + 1, to);
        lemma_no_header_trans(p, b, unified_rows(b, comments, file, path, lines, from + 1, to));
    }
}

proof fn lemma_no_header_run(
    p: Placing,
    comments: Seq<Comment>,
    file: usize,
    path: Seq<u8>,
    lines: Seq<DiffLine>,
    from: int,
    mid: int,
    to: int,
    k: int,
)
    ensures
        adds_no_header(p, run_rows(p, comments, file, path, lines, from, mid, to, k)),
    decreases to - from - k,
{
    lemma_no_header_self(p);
    if !(k < 0 || (from + k >= mid && mid + k >= to) || from > mid || mid > to) {
        let row = pair_row(file, from, mid, to, k);
        let a = with_row(p, row);
        lemma_no_header_row(p, row);
        let b = if from + k < mid {
            place_at_line(a, comments, file, path, lines[from + k])
        } else {
            a
        };
        lemma_no_header_self(a);
        if from + k < mid {
            if let Some(at) = line_anchor(lines[from + k]) {
                lemma_no_header_place(a, comments, file, path, Some(at), 0);
            }
        }
        lemma_no_header_trans(p, a, b);
        let c = if mid + k < to {
            place_at_line(b, comments, file, path, lines[mid + k])
        } else {
            b
        };
        lemma_no_header_self(b);
        if mid + k < to {
            if let Some(at) = line_anchor(lines[mid + k]) {
                lemma_no_header_place(b, comments, file, path, Some(at), 0);
            }
        }
        lemma_no_header_trans(p, b, c);
        lemma_no_header_run(c, comments, file, path, lines, from, mid, to, k + 1);
        lemma_no_header_trans(
            p,
            c,
            run_rows(c, comments, file, path, lines, from, mid, to, k + 1),
        );
    }
}

proof fn lemma_no_header_split(
    p: Placing,
    comments: Seq<Comment>,
    file: usize,
    path: Seq<u8>,
    lines: Seq<DiffLine>,
    from: int,
    to: int,
)
    ensures
        adds_no_header(p, split_rows(p, comments, file, path, lines, from, to)),
    decreases to - from,
{
    lemma_no_header_self(p);
    if from < to {
        if lines[from].kind == LineKind::Context {
            let row = Row::Pair { file, old: Some(from as usize), new: Some(from as usize) };
            let b = place_at_line(with_row(p, row), comments, file, path, lines[from]);
            lemma_no_header_line(p, row, comments, file, path, lines[from]);
            lemma_no_header_split(b, comments, file, path, lines, from + 1, to);
            lemma_no_header_trans(p, b, split_rows(b, comments, file, path, lines, from + 1, to));
        } else {
            let mid = run_end(lines, LineKind::Removed, from, to);
            lemma_run_end(lines, LineKind::Removed, from, to);
            let end = run_end(lines, LineKind::Added, mid, to);
            lemma_run_end(lines, LineKind::Added, mid, to);
            let b = run_rows(p, comments, file, path, lines, from, mid, end, 0);
            lemma_no_header_run(p, comments, file, path, lines, from, mid, end, 0);
            lemma_no_header_split(b, comments, file, path, lines, end, to);
            lemma_no_header_trans(p, b, split_rows(b, comments, file, path, lines, end, to));
        }
    }
}

/// A hunk's header and what stands under it.
spec fn one_hunk(
    p: Placing,
    show: Showing,
    file: usize,
    entry: ReviewFile,
    d: FileDiff,
    h: int,
) -> Placing {
    let headed = with_row(p, Row::Hunk { file, hunk: h as usize });
    let (from, to) = (d.hunks@[h].lines.start as int, d.hunks@[h].lines.end as int);
    let path = entry.change.path@;
    if show.reviewed.contains(hunk_hash_of(path, d, h)) {
        headed
    } else if show.split {
        split_rows(headed, show.comments, file, path, d.lines@, from, to)
    } else {
        unified_rows(headed, show.comments, file, path, d.lines@, from, to)
    }
}

proof fn lemma_one_header(
    p: Placing,
    show: Showing,
    file: usize,
    entry: ReviewFile,
    d: FileDiff,
    h: int,
)
    ensures
        adds_no_header(
            with_row(p, Row::Hunk { file, hunk: h as usize }),
            one_hunk(p, show, file, entry, d, h),
        ),
{
    let headed = with_row(p, Row::Hunk { file, hunk: h as usize });
    let (from, to) = (d.hunks@[h].lines.start as int, d.hunks@[h].lines.end as int);
    let path = entry.change.path@;
    lemma_no_header_self(headed);
    lemma_no_header_split(headed, show.comments, file, path, d.lines@, from, to);
    lemma_no_header_unified(headed, show.comments, file, path, d.lines@, from, to);
}

/// The headers that hunks from `h` on add are those of hunks from `h` on, in front of which
/// everything stays.
proof fn lemma_headers_from(
    p: Placing,
    show: Showing,
    file: usize,
    entry: ReviewFile,
    d: FileDiff,
    h: int,
)
    requires
        0 <= h,
        d.hunks@.len() <= usize::MAX,
    ensures
        ({
            let q = hunk_rows(p, show, file, entry, d, h);
            &&& p.rows.len() <= q.rows.len()
            &&& q.rows.take(p.rows.len() as int) == p.rows
            &&& forall|i: int|
                p.rows.len() <= i < q.rows.len() ==> ((#[trigger] q.rows[i]) matches Row::Hunk {
                    hunk,
                    ..
                } ==> h <= hunk)
        }),
    decreases d.hunks@.len() - h,
{
    let q = hunk_rows(p, show, file, entry, d, h);
    let n = p.rows.len() as int;
    if h < d.hunks@.len() {
        let headed = with_row(p, Row::Hunk { file, hunk: h as usize });
        let b = one_hunk(p, show, file, entry, d, h);
        lemma_one_header(p, show, file, entry, d, h);
        lemma_headers_from(b, show, file, entry, d, h + 1);
        let m = b.rows.len() as int;
        assert forall|i: int| 0 <= i < m implies q.rows[i] == b.rows[i] by {
            assert(q.rows.take(m)[i] == b.rows[i]);
        }
        assert forall|i: int| 0 <= i <= n implies q.rows[i] == headed.rows[i] by {
            assert(b.rows.take(n + 1)[i] == headed.rows[i]);
        }
        assert(q.rows.take(n) =~= p.rows);
        assert forall|i: int| n <= i < q.rows.len() implies ((#[trigger] q.rows[i]) matches Row::Hunk {
            hunk,
            ..
        } ==> h <= hunk) by {
            if i > n && i < m {
                assert(!(b.rows[i] is Hunk));
            }
        }
    } else {
        assert(p.rows.take(n) =~= p.rows);
    }
}

/// Whether two ways to show a file have the same mark on a hunk, if it has that hunk.
pub open spec fn same_mark(a: Showing, b: Showing, entry: ReviewFile, hunk: int) -> bool {
    match diff_of(entry) {
        Some(d) => hunk < d.hunks@.len() ==> a.reviewed.contains(
            hunk_hash_of(entry.change.path@, d, hunk),
        ) == b.reviewed.contains(hunk_hash_of(entry.change.path@, d, hunk)),
        None => true,
    }
}

/// Whether two ways to show a file have the same comments and layout, and the same marks on
/// its hunks before `upto`.
pub open spec fn agree(a: Showing, b: Showing, entry: ReviewFile, upto: int) -> bool {
    &&& a.comments == b.comments
    &&& a.split == b.split
    &&& forall|k: int| 0 <= k < upto ==> #[trigger] same_mark(a, b, entry, k)
}

proof fn lemma_hunks_agree(
    p: Placing,
    a: Showing,
    b: Showing,
    file: usize,
    entry: ReviewFile,
    d: FileDiff,
    h: int,
)
    requires
        diff_of(entry) == Some(d),
        agree(a, b, entry, d.hunks@.len() as int),
        0 <= h,
    ensures
        hunk_rows(p, a, file, entry, d, h) == hunk_rows(p, b, file, entry, d, h),
    decreases d.hunks@.len() - h,
{
    if h < d.hunks@.len() {
        assert(same_mark(a, b, entry, h));
        lemma_hunks_agree(one_hunk(p, a, file, entry, d, h), a, b, file, entry, d, h + 1);
    }
}

/// Files that two ways agree on are shown the same.
proof fn lemma_files_agree(a: Showing, b: Showing, files: Seq<ReviewFile>, count: int)
    requires
        count <= files.len(),
        a.comments == b.comments,
        forall|g: int|
            0 <= g < count ==> agree(a, b, #[trigger] files[g], usize::MAX as int),
        files_wf(files),
    ensures
        rows_upto(a, files, count) == rows_upto(b, files, count),
    decreases count,
{
    if count > 0 {
        lemma_files_agree(a, b, files, count - 1);
        let entry = files[count - 1];
        let f = (count - 1) as usize;
        let headed = with_row(rows_upto(a, files, count - 1), Row::File { file: f });
        if let Some(d) = diff_of(entry) {
            assert(d.hunks.len() <= usize::MAX);
            lemma_hunks_agree(headed, a, b, f, entry, d, 0);
        }
    }
}

/// Two ways to show a hunk, and those before it alike, show everything up to its header alike.
proof fn lemma_hunks_above(
    p: Placing,
    a: Showing,
    b: Showing,
    file: usize,
    entry: ReviewFile,
    d: FileDiff,
    k: int,
    hunk: int,
    r: int,
)
    requires
        diff_of(entry) == Some(d),
        agree(a, b, entry, hunk),
        0 <= k <= hunk < d.hunks@.len() <= usize::MAX,
        p.rows.len() <= r < hunk_rows(p, a, file, entry, d, k).rows.len(),
        hunk_rows(p, a, file, entry, d, k).rows[r] == (Row::Hunk { file, hunk: hunk as usize }),
    ensures
        r < hunk_rows(p, b, file, entry, d, k).rows.len(),
        hunk_rows(p, a, file, entry, d, k).rows.take(r + 1) == hunk_rows(
            p,
            b,
            file,
            entry,
            d,
            k,
        ).rows.take(r + 1),
    decreases hunk - k,
{
    let n = p.rows.len() as int;
    let headed = with_row(p, Row::Hunk { file, hunk: k as usize });
    let (x, y) = (one_hunk(p, a, file, entry, d, k), one_hunk(p, b, file, entry, d, k));
    let (q, s) = (hunk_rows(p, a, file, entry, d, k), hunk_rows(p, b, file, entry, d, k));
    lemma_one_header(p, a, file, entry, d, k);
    lemma_one_header(p, b, file, entry, d, k);
    lemma_headers_from(x, a, file, entry, d, k + 1);
    lemma_headers_from(y, b, file, entry, d, k + 1);
    assert forall|i: int| 0 <= i < x.rows.len() implies q.rows[i] == x.rows[i] by {
        assert(q.rows.take(x.rows.len() as int)[i] == x.rows[i]);
    }
    assert forall|i: int| 0 <= i < y.rows.len() implies s.rows[i] == y.rows[i] by {
        assert(s.rows.take(y.rows.len() as int)[i] == y.rows[i]);
    }
    assert forall|i: int| 0 <= i <= n implies x.rows[i] == headed.rows[i] && y.rows[i]
        == headed.rows[i] by {
        assert(x.rows.take(n + 1)[i] == headed.rows[i]);
        assert(y.rows.take(n + 1)[i] == headed.rows[i]);
    }
    if k == hunk {
        if r > n {
            if r < x.rows.len() {
                assert(!(x.rows[r] is Hunk));
            }
        }
        assert(q.rows.take(r + 1) =~= s.rows.take(r + 1));
    } else {
        assert(same_mark(a, b, entry, k));
        assert(x == y);
        if r < x.rows.len() {
            assert(r == n || !(x.rows[r] is Hunk));
        }
        lemma_hunks_above(x, a, b, file, entry, d, k + 1, hunk, r);
    }
}

/// The rows of the first files stand at the front.
proof fn lemma_upto_front(show: Showing, files: Seq<ReviewFile>, few: int, count: int)
    requires
        files_wf(files),
        comments_fit(show.comments),
        0 <= few <= count <= files.len() <= usize::MAX,
    ensures
        rows_upto(show, files, few).rows.len() <= rows_upto(show, files, count).rows.len(),
        rows_upto(show, files, count).rows.take(rows_upto(show, files, few).rows.len() as int)
            == rows_upto(show, files, few).rows,
    decreases count - few,
{
    let n = rows_upto(show, files, few).rows.len() as int;
    if few < count {
        lemma_upto_front(show, files, few, count - 1);
        lemma_file_rows(show, files, count - 1);
        let (p, q) = (rows_upto(show, files, count - 1), rows_upto(show, files, count));
        assert(q.rows.take(n) =~= p.rows.take(n)) by {
            assert forall|i: int| 0 <= i < n implies q.rows[i] == p.rows[i] by {
                assert(q.rows.take(p.rows.len() as int)[i] == p.rows[i]);
            }
        }
    } else {
        assert(rows_upto(show, files, few).rows.take(n) =~= rows_upto(show, files, few).rows);
    }
}

/// Two ways to show files that agree on everything before a hunk show everything up to its
/// header alike.
pub proof fn lemma_rows_above(
    a: Showing,
    b: Showing,
    files: Seq<ReviewFile>,
    file: usize,
    hunk: usize,
    d: FileDiff,
    r: int,
)
    requires
        files_wf(files),
        comments_fit(a.comments),
        file < files.len() <= usize::MAX,
        diff_of(files[file as int]) == Some(d),
        hunk < d.hunks@.len(),
        forall|g: int| 0 <= g < file ==> agree(a, b, #[trigger] files[g], usize::MAX as int),
        agree(a, b, files[file as int], hunk as int),
        0 <= r < all_rows(a, files).len(),
        all_rows(a, files)[r] == (Row::Hunk { file, hunk }),
    ensures
        r < all_rows(b, files).len(),
        all_rows(a, files).take(r + 1) == all_rows(b, files).take(r + 1),
{
    let f = file as int;
    let n = files.len() as int;
    let entry = files[f];
    lemma_row_at(a, files, n, r);
    lemma_upto_front(a, files, f + 1, n);
    lemma_upto_front(b, files, f + 1, n);
    lemma_files_agree(a, b, files, f);
    let p = rows_upto(a, files, f);
    let headed = with_row(p, Row::File { file });
    let (x, y) = (rows_upto(a, files, f + 1), rows_upto(b, files, f + 1));
    assert(d.hunks.len() <= usize::MAX);
    let (q, s) = (
        hunk_rows(headed, a, file, entry, d, 0),
        hunk_rows(headed, b, file, entry, d, 0),
    );
    lemma_no_header_place(q, a.comments, file, entry.change.path@, None, 0);
    lemma_no_header_place(s, b.comments, file, entry.change.path@, None, 0);
    lemma_no_header_self(q);
    lemma_no_header_self(s);
    lemma_headers_from(headed, a, file, entry, d, 0);
    assert(adds_no_header(q, x));
    assert(adds_no_header(s, y));
    assert(all_rows(a, files).take(x.rows.len() as int)[r] == x.rows[r]);
    if r < headed.rows.len() {
        assert(q.rows.take(headed.rows.len() as int)[r] == headed.rows[r]);
        assert(x.rows.take(q.rows.len() as int)[r] == q.rows[r]);
    }
    if r >= q.rows.len() {
        assert(!(x.rows[r] is Hunk));
    }
    assert(x.rows.take(q.rows.len() as int)[r] == q.rows[r]);
    lemma_hunks_above(headed, a, b, file, entry, d, 0, hunk as int, r);
    assert forall|i: int| 0 <= i <= r implies all_rows(a, files)[i] == all_rows(b, files)[i] by {
        assert(all_rows(a, files).take(x.rows.len() as int)[i] == x.rows[i]);
        assert(all_rows(b, files).take(y.rows.len() as int)[i] == y.rows[i]);
        assert(x.rows.take(q.rows.len() as int)[i] == q.rows[i]);
        assert(y.rows.take(s.rows.len() as int)[i] == s.rows[i]);
        assert(q.rows.take(r + 1)[i] == s.rows.take(r + 1)[i]);
    }
    assert(all_rows(a, files).take(r + 1) =~= all_rows(b, files).take(r + 1));
}

// ---------------------------------------------------------------------------
// Which rows are new.

/// Whether a line is new since the last look: changed, and not among the lines seen.
pub open spec fn new_line(
    entry: ReviewFile,
    d: FileDiff,
    seen: Option<Map<Seq<char>, Set<u64>>>,
    line: int,
) -> bool {
    let l = d.lines@[line];
    &&& l.kind != LineKind::Context
    &&& seen matches Some(s)
    &&& {
        let path = crate::text::str_lossy(entry.change.path@);
        !(s.contains_key(path) && s[path].contains(
            line_hash_of(l.kind, diff::shown_bytes(d.old@, d.new@, l)),
        ))
    }
}

/// Whether a row shows a line that is new since the last look.
pub open spec fn new_row(
    files: Seq<ReviewFile>,
    seen: Option<Map<Seq<char>, Set<u64>>>,
    row: Row,
) -> bool {
    let entry = files[row.file_of() as int];
    diff_of(entry) matches Some(d) && match row {
        Row::Line { line, .. } => new_line(entry, d, seen, line as int),
        Row::Pair { old, new, .. } => {
            ||| old matches Some(ix) && new_line(entry, d, seen, ix as int)
            ||| new matches Some(ix) && new_line(entry, d, seen, ix as int)
        },
        _ => false,
    }
}

fn is_new_line(path: &str, d: &FileDiff, seen: &Option<Seen>, line: usize) -> (result: bool)
    requires
        d.wf(),
        line < d.lines@.len(),
    ensures
        result == ({
            let l = d.lines@[line as int];
            &&& l.kind != LineKind::Context
            &&& seen matches Some(s)
            &&& !(s@.contains_key(path@) && s@[path@].contains(
                line_hash_of(l.kind, diff::shown_bytes(d.old@, d.new@, l)),
            ))
        }),
{
    proof {
        d.lemma_line_at(line as int);
    }
    let l = &d.lines[line];
    if l.kind == LineKind::Context {
        return false;
    }
    match seen {
        Some(s) => !s.contains(path, line_hash(l.kind, d.line_bytes(l))),
        None => false,
    }
}

/// Whether a row shows a line that is new since the last look.
pub fn is_new_row(files: &[ReviewFile], seen: &Option<Seen>, row: Row) -> (result: bool)
    requires
        files_wf(files@),
        row.file_of() < files@.len(),
        exists|show: Showing|
            #[trigger] row_ok(show, files@[row.file_of() as int], row),
    ensures
        result == new_row(
            files@,
            match *seen {
                Some(s) => Some(s@),
                None => None,
            },
            row,
        ),
{
    let entry = &files[row.file()];
    match (entry.diff(), row) {
        (Some(d), Row::Line { line, .. }) => is_new_line(
            entry.change.path_lossy().as_str(),
            d,
            seen,
            line,
        ),
        (Some(d), Row::Pair { old, new, .. }) => {
            let path = entry.change.path_lossy();
            let is_old = match old {
                Some(ix) => is_new_line(path.as_str(), d, seen, ix),
                None => false,
            };
            let is_new = match new {
                Some(ix) => is_new_line(path.as_str(), d, seen, ix),
                None => false,
            };
            is_old || is_new
        },
        _ => false,
    }
}

/// In a run of changes shown side by side, the removed lines stand on the old side and the added
/// ones on the new side, each next to the one with the same place in its run; where one run is
/// shorter, nothing stands next to the other.
pub proof fn law_pairs_stand_side_by_side(file: usize, from: int, mid: int, to: int, k: int)
    requires
        0 <= from <= mid <= to <= usize::MAX,
        0 <= k,
        from + k < mid || mid + k < to,
    ensures
        pair_row(file, from, mid, to, k) matches Row::Pair { file: f, old, new } && f == file && (
        old matches Some(line) ==> line == from + k && line < mid) && (old is None ==> from + k
            >= mid) && (new matches Some(line) ==> line == mid + k && line < to) && (new is None
            ==> mid + k >= to),
{
}

} // verus!
