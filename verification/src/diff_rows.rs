//! What the rows of the diff stream say: file headers, hunk headers, lines and notes.
use vstd::prelude::*;

use core::ops::Range;

use crate::diff;
use crate::diff::{FileDiff, Hunk, LineKind};
use crate::display;
use crate::display::display_line;
use crate::repo::{ChangeStatus, FileChange, ImageKind, Loaded, Section};
use crate::review;
use crate::review::{Content, Review, ReviewFile, ReviewView};
use crate::rows;
use crate::rows::{Note, Row};
use crate::syntax;
use crate::syntax::{spans_in, Span, Style};
use crate::text::{
    chars_of, copy_text, from_utf8_lossy, number_text, push_number, push_text, split_lines,
    to_lowercase, to_str_lossy,
};
use crate::view::Op;

verus! {

/// How wide a line number is shown.
pub const GUTTER_DIGITS: usize = 5;

/// What a section is called.
pub open spec fn section_name(section: Section) -> Seq<char> {
    match section {
        Section::Staged => "STAGED"@,
        Section::Unstaged => "UNSTAGED"@,
        Section::Untracked => "UNTRACKED"@,
        Section::Snapshot => "CHANGES"@,
    }
}

/// What a section is called.
pub fn section_label(section: Section) -> (label: &'static str)
    ensures
        label@ == section_name(section),
{
    match section {
        Section::Staged => "STAGED",
        Section::Unstaged => "UNSTAGED",
        Section::Untracked => "UNTRACKED",
        Section::Snapshot => "CHANGES",
    }
}

/// The letter of a change.
pub open spec fn badge_of(status: ChangeStatus) -> Seq<char> {
    match status {
        ChangeStatus::Added => "A"@,
        ChangeStatus::Modified => "M"@,
        ChangeStatus::Deleted => "D"@,
        ChangeStatus::Renamed => "R"@,
        ChangeStatus::Copied => "C"@,
        ChangeStatus::TypeChanged => "T"@,
        ChangeStatus::Conflicted => "U"@,
    }
}

/// The letter of a change.
pub fn badge(status: ChangeStatus) -> (badge: &'static str)
    ensures
        badge@ == badge_of(status),
{
    match status {
        ChangeStatus::Added => "A",
        ChangeStatus::Modified => "M",
        ChangeStatus::Deleted => "D",
        ChangeStatus::Renamed => "R",
        ChangeStatus::Copied => "C",
        ChangeStatus::TypeChanged => "T",
        ChangeStatus::Conflicted => "U",
    }
}

// ---------------------------------------------------------------------------
// Buttons.

/// A button on a header, and the action it runs.
#[derive(Debug, PartialEq, Eq)]
pub struct Button {
    pub op: Op,
    pub label: String,
}

impl DeepView for Button {
    type V = (Op, Seq<char>);

    open spec fn deep_view(&self) -> (Op, Seq<char>) {
        (self.op, self.label@)
    }
}

/// The buttons on the header of a hunk or file. A turn's snapshots are read-only, and what is
/// staged can't be discarded.
pub open spec fn buttons_of(section: Section, scope: Seq<char>) -> Seq<(Op, Seq<char>)> {
    match section {
        Section::Snapshot => seq![],
        Section::Staged => seq![(Op::Stage, "Unstage "@ + scope)],
        _ => seq![(Op::Stage, "Stage "@ + scope), (Op::Discard, "Discard "@ + scope)],
    }
}

/// The buttons on the header of a hunk or file.
pub fn action_buttons(section: Section, scope: &str) -> (buttons: Vec<Button>)
    ensures
        buttons.deep_view() == buttons_of(section, scope@),
{
    let mut buttons: Vec<Button> = Vec::new();
    match section {
        Section::Snapshot => {
            assert(buttons.deep_view() =~= seq![]);
            return buttons;
        },
        _ => {},
    }
    let staged = match section {
        Section::Staged => true,
        _ => false,
    };
    let mut label = copy_text(
        if staged {
            "Unstage "
        } else {
            "Stage "
        },
    );
    push_text(&mut label, scope);
    buttons.push(Button { op: Op::Stage, label });
    if !staged {
        let mut label = copy_text("Discard ");
        push_text(&mut label, scope);
        buttons.push(Button { op: Op::Discard, label });
    }
    assert(buttons.deep_view() =~= buttons_of(section, scope@));
    buttons
}

/// What was staged or recorded can't be discarded by a button.
pub proof fn law_only_worktree_changes_can_be_discarded(section: Section, scope: Seq<char>, i: int)
    requires
        0 <= i < buttons_of(section, scope).len(),
        buttons_of(section, scope)[i].0 == Op::Discard,
    ensures
        section == Section::Unstaged || section == Section::Untracked,
{
}

// ---------------------------------------------------------------------------
// Headers and notes.

/// The `@@` line of a hunk.
pub open spec fn hunk_text(old: Seq<u8>, h: Hunk) -> Seq<char> {
    "@@ -"@ + crate::text::digits(h.old_start as nat) + ","@ + crate::text::digits(h.old_len as nat)
        + " +"@ + crate::text::digits(h.new_start as nat) + ","@ + crate::text::digits(
        h.new_len as nat,
    ) + " @@"@ + match h.func_context {
        Some(r) => " "@ + crate::text::lossy(old.subrange(r.start as int, r.end as int)),
        None => ""@,
    }
}

/// The `@@` line of a hunk, with the function that it is in.
pub fn hunk_header(d: &FileDiff, hunk: usize) -> (header: String)
    requires
        d.wf(),
        hunk < d.hunks@.len(),
    ensures
        header@ == hunk_text(d.old@, d.hunks@[hunk as int]),
{
    proof {
        d.lemma_hunk_at(hunk as int);
        reveal_strlit("");
    }
    let h = &d.hunks[hunk];
    let mut header = copy_text("@@ -");
    push_number(&mut header, h.old_start as u64);
    push_text(&mut header, ",");
    push_number(&mut header, h.old_len as u64);
    push_text(&mut header, " +");
    push_number(&mut header, h.new_start as u64);
    push_text(&mut header, ",");
    push_number(&mut header, h.new_len as u64);
    push_text(&mut header, " @@");
    let ghost before = header@;
    match d.func_context_bytes(h) {
        Some(func) => {
            push_text(&mut header, " ");
            push_text(&mut header, from_utf8_lossy(func).as_str());
        },
        None => {},
    }
    assert(header@ =~= hunk_text(d.old@, d.hunks@[hunk as int]));
    header
}

/// A changed file's path, with the one it had before.
pub open spec fn path_text(change: FileChange) -> Seq<char> {
    match change.old_path {
        Some(old) => crate::text::str_lossy(old@) + " → "@ + crate::text::str_lossy(change.path@),
        None => crate::text::str_lossy(change.path@),
    }
}

/// A changed file's path, with the one it had before.
pub fn header_path(change: &FileChange) -> (path: String)
    ensures
        path@ == path_text(*change),
{
    match &change.old_path {
        Some(old) => {
            let mut path = to_str_lossy(old.as_slice());
            push_text(&mut path, " → ");
            push_text(&mut path, change.path_lossy().as_str());
            path
        },
        None => change.path_lossy(),
    }
}

/// What a note says.
pub open spec fn note_words(note: Note) -> Seq<char> {
    match note {
        Note::Loading => "Loading…"@,
        Note::Binary { old_len, new_len } => "Binary file changed ("@ + crate::text::digits(
            old_len as nat,
        ) + " → "@ + crate::text::digits(new_len as nat) + " bytes)"@,
        Note::TooLarge { len } => "File too large to diff ("@ + crate::text::digits(len as nat)
            + " bytes)"@,
        Note::Submodule => "Submodule changed"@,
        Note::Conflict => "Unresolved merge conflict"@,
        Note::NotAFile => "Not a regular file"@,
        Note::NoContentChange => "No content changes (mode or rename only)"@,
        Note::Failed => "Failed to load this file"@,
    }
}

/// What a note says.
pub fn note_text(note: Note) -> (text: String)
    ensures
        text@ == note_words(note),
{
    match note {
        Note::Loading => copy_text("Loading…"),
        Note::Binary { old_len, new_len } => {
            let mut text = copy_text("Binary file changed (");
            push_number(&mut text, old_len);
            push_text(&mut text, " → ");
            push_number(&mut text, new_len);
            push_text(&mut text, " bytes)");
            text
        },
        Note::TooLarge { len } => {
            let mut text = copy_text("File too large to diff (");
            push_number(&mut text, len);
            push_text(&mut text, " bytes)");
            text
        },
        Note::Submodule => copy_text("Submodule changed"),
        Note::Conflict => copy_text("Unresolved merge conflict"),
        Note::NotAFile => copy_text("Not a regular file"),
        Note::NoContentChange => copy_text("No content changes (mode or rename only)"),
        Note::Failed => copy_text("Failed to load this file"),
    }
}

// ---------------------------------------------------------------------------
// Lines.

/// Spaces.
pub open spec fn spaces(count: int) -> Seq<char> {
    Seq::new(
        (if count > 0 {
            count
        } else {
            0
        }) as nat,
        |i: int| ' ',
    )
}

/// A line number, at the right of its column.
pub open spec fn number_column(number: Option<u32>) -> Seq<char> {
    match number {
        Some(n) => spaces(GUTTER_DIGITS - crate::text::digits(n as nat).len())
            + crate::text::digits(n as nat),
        None => spaces(GUTTER_DIGITS as int),
    }
}

fn make_spaces(count: usize) -> (text: String)
    ensures
        text@ == spaces(count as int),
{
    proof {
        reveal_strlit("");
    }
    let mut text = copy_text("");
    let mut i: usize = 0;
    assert(text@ =~= spaces(0));
    while i < count
        invariant
            i <= count,
            text@ == spaces(i as int),
        decreases count - i,
    {
        text.push(' ');
        i = i + 1;
        assert(text@ =~= spaces(i as int));
    }
    text
}

/// A line number, at the right of its column.
pub fn number_cell(number: Option<u32>) -> (cell: String)
    ensures
        cell@ == number_column(number),
{
    match number {
        Some(n) => {
            let digits = number_text(n as u64);
            let len: usize = chars_of(digits.as_str()).len();
            let mut cell = make_spaces(
                if len < GUTTER_DIGITS {
                    GUTTER_DIGITS - len
                } else {
                    0
                },
            );
            push_text(&mut cell, digits.as_str());
            assert(cell@ =~= number_column(number));
            cell
        },
        None => make_spaces(GUTTER_DIGITS),
    }
}

/// The sign of a line.
pub open spec fn sign_of(kind: LineKind) -> Seq<char> {
    match kind {
        LineKind::Context => " "@,
        LineKind::Added => "+"@,
        LineKind::Removed => "-"@,
    }
}

/// The sign of a line.
pub fn sign(kind: LineKind) -> (sign: &'static str)
    ensures
        sign@ == sign_of(kind),
{
    match kind {
        LineKind::Context => " ",
        LineKind::Added => "+",
        LineKind::Removed => "-",
    }
}

/// A diff line ready to be drawn.
#[derive(Debug)]
pub struct LineCell {
    pub old_no: Option<u32>,
    pub new_no: Option<u32>,
    pub kind: LineKind,
    pub text: String,
    /// Syntax spans of the text.
    pub spans: Vec<(Range<usize>, Style)>,
    pub no_newline: bool,
}

/// The syntax spans of a line of a file.
pub open spec fn line_spans(file: ReviewFile, line: diff::DiffLine) -> Seq<Span> {
    match file.highlights {
        Some(h) => syntax::clipped_spans(
            if line.kind == LineKind::Removed {
                h.old@
            } else {
                h.new@
            },
            line.content,
        ),
        None => seq![],
    }
}

/// Whether a cell shows a line of a file: tabs expanded and invalid UTF-8 replaced, with the
/// file's syntax spans.
pub open spec fn is_cell(file: ReviewFile, d: FileDiff, line: usize, cell: LineCell) -> bool {
    let l = d.lines@[line as int];
    let bytes = diff::shown_bytes(d.old@, d.new@, l);
    &&& cell.old_no == l.old_no
    &&& cell.new_no == l.new_no
    &&& cell.kind == l.kind
    &&& cell.no_newline == l.no_newline
    &&& cell.text@ == display::display_text(bytes)
    &&& cell.spans@ == display::display_spans(bytes, line_spans(file, l))
}

/// A diff line ready to be drawn.
pub fn line_cell(file: &ReviewFile, d: &FileDiff, line: usize) -> (cell: LineCell)
    requires
        d.wf(),
        line < d.lines@.len(),
        review::highlights_ok(file.highlights),
    ensures
        is_cell(*file, *d, line, cell),
{
    proof {
        d.lemma_line_at(line as int);
    }
    let l = &d.lines[line];
    let removed = match l.kind {
        LineKind::Removed => true,
        _ => false,
    };
    let range = Range { start: l.content.start, end: l.content.end };
    let spans: Vec<Span> = match &file.highlights {
        Some(h) => {
            let found = spans_in(
                if removed {
                    h.old.as_slice()
                } else {
                    h.new.as_slice()
                },
                range,
            );
            assert(found@ == line_spans(*file, *l));
            found
        },
        None => Vec::new(),
    };
    assert(spans@ =~= line_spans(*file, *l));
    let bytes = d.line_bytes(l);
    assert forall|i: int| 0 <= i < spans@.len() implies (#[trigger] spans@[i]).range.start
        <= bytes@.len() && spans@[i].range.end <= bytes@.len() by {}
    let (text, spans) = display_line(bytes, spans);
    LineCell {
        old_no: l.old_no,
        new_no: l.new_no,
        kind: l.kind,
        text,
        spans,
        no_newline: l.no_newline,
    }
}

/// The gutter beside a line: both numbers and the sign.
pub open spec fn gutter_text(old_no: Option<u32>, new_no: Option<u32>, kind: LineKind) -> Seq<char> {
    number_column(old_no) + " "@ + number_column(new_no) + " "@ + sign_of(kind) + " "@
}

/// The gutter beside one side of a split line: its number and the sign.
pub open spec fn half_gutter_text(number: Option<u32>, kind: LineKind) -> Seq<char> {
    number_column(number) + " "@ + sign_of(kind) + " "@
}

/// The gutter beside a line: both numbers and the sign.
pub fn gutter(cell: &LineCell) -> (text: String)
    ensures
        text@ == gutter_text(cell.old_no, cell.new_no, cell.kind),
{
    let mut text = number_cell(cell.old_no);
    push_text(&mut text, " ");
    push_text(&mut text, number_cell(cell.new_no).as_str());
    push_text(&mut text, " ");
    push_text(&mut text, sign(cell.kind));
    push_text(&mut text, " ");
    text
}

/// The gutter beside one side of a split line: its number and the sign.
pub fn half_gutter(cell: &LineCell, old_side: bool) -> (text: String)
    ensures
        text@ == half_gutter_text(
            if old_side {
                cell.old_no
            } else {
                cell.new_no
            },
            cell.kind,
        ),
{
    let mut text = number_cell(
        if old_side {
            cell.old_no
        } else {
            cell.new_no
        },
    );
    push_text(&mut text, " ");
    push_text(&mut text, sign(cell.kind));
    push_text(&mut text, " ");
    text
}

/// One line of a text, or nothing.
pub open spec fn nth_line(text: Seq<char>, line: usize) -> Seq<char> {
    let lines = crate::text::text_lines(text);
    if line < lines.len() {
        lines[line as int]
    } else {
        ""@
    }
}

fn line_of_text(text: &str, line: usize) -> (result: String)
    ensures
        result@ == nth_line(text@, line),
{
    let mut lines = split_lines(text);
    let ghost all = lines.deep_view();
    if line < lines.len() {
        assert(all[line as int] == lines@[line as int]@);
        lines.remove(line)
    } else {
        copy_text("")
    }
}

// ---------------------------------------------------------------------------
// Rows.

/// A file's header.
#[derive(Debug, PartialEq, Eq)]
pub struct FileHeader {
    pub status: ChangeStatus,
    pub path: String,
    pub reviewed: bool,
    pub section: String,
    pub buttons: Vec<Button>,
}

/// Whether every hunk of a file is reviewed.
pub open spec fn all_reviewed(v: ReviewView, file: usize) -> bool {
    file < v.hashes.len() && v.hashes[file as int]@.len() > 0 && forall|h: int|
        0 <= h < v.hashes[file as int]@.len() ==> v.reviewed.contains(
            #[trigger] v.hashes[file as int]@[h],
        )
}

/// Whether a header is that of a file.
pub open spec fn is_header(v: ReviewView, file: usize, header: FileHeader) -> bool {
    let change = v.files[file as int].change;
    &&& header.status == change.status
    &&& header.path@ == path_text(change)
    &&& header.reviewed == all_reviewed(v, file)
    &&& header.section@ == crate::text::lowercase(section_name(change.section))
    &&& header.buttons.deep_view() == buttons_of(change.section, "file"@)
}

/// A file's header.
pub fn file_header(review: &Review, file: usize) -> (header: FileHeader)
    requires
        file < review@.files.len(),
    ensures
        is_header(review@, file, header),
{
    let change = &review.files()[file].change;
    FileHeader {
        status: change.status,
        path: header_path(change),
        reviewed: review.file_is_reviewed(file),
        section: to_lowercase(section_label(change.section)),
        buttons: action_buttons(change.section, "file"),
    }
}

/// One side of a split row.
#[derive(Debug)]
pub struct Half {
    pub gutter: String,
    pub cell: LineCell,
}

/// Whether a side of a split row shows a line, if it has one.
pub open spec fn is_half(
    file: ReviewFile,
    d: FileDiff,
    line: Option<usize>,
    old_side: bool,
    half: Option<Half>,
) -> bool {
    match (line, half) {
        (Some(line), Some(h)) => is_cell(file, d, line, h.cell) && h.gutter@ == half_gutter_text(
            if old_side {
                h.cell.old_no
            } else {
                h.cell.new_no
            },
            h.cell.kind,
        ),
        (None, None) => true,
        _ => false,
    }
}

fn half(file: &ReviewFile, d: &FileDiff, line: Option<usize>, old_side: bool) -> (half: Option<Half>)
    requires
        d.wf(),
        line matches Some(l) ==> l < d.lines@.len(),
        review::highlights_ok(file.highlights),
    ensures
        is_half(*file, *d, line, old_side, half),
{
    match line {
        Some(line) => {
            let cell = line_cell(file, d, line);
            let gutter = half_gutter(&cell, old_side);
            Some(Half { gutter, cell })
        },
        None => None,
    }
}

/// What a row shows.
#[derive(Debug)]
pub enum RowLook {
    File(FileHeader),
    Hunk { header: String, reviewed: bool, buttons: Vec<Button> },
    Line { gutter: String, cell: LineCell },
    Pair { old: Option<Half>, new: Option<Half> },
    /// The first of the rows of an image shows the sides of that kind; the others are covered
    /// by it.
    Image { kind: ImageKind, first: bool },
    Comment { marked: bool, text: String },
    Note(String),
}

/// Whether a row looks so.
pub open spec fn looks(v: ReviewView, row: Row, look: RowLook) -> bool {
    let entry = v.files[row.file_of() as int];
    match row {
        Row::File { file } => look matches RowLook::File(header) && is_header(v, file, header),
        Row::Hunk { file, hunk } => {
            &&& rows::diff_of(entry) matches Some(d)
            &&& look matches RowLook::Hunk { header, reviewed, buttons }
            &&& header@ == hunk_text(d.old@, d.hunks@[hunk as int])
            &&& reviewed == (file < v.hashes.len() && hunk < v.hashes[file as int]@.len()
                && v.reviewed.contains(v.hashes[file as int]@[hunk as int]))
            &&& buttons.deep_view() == buttons_of(entry.change.section, "hunk"@)
        },
        Row::Line { line, .. } => {
            &&& rows::diff_of(entry) matches Some(d)
            &&& look matches RowLook::Line { gutter, cell }
            &&& is_cell(entry, d, line, cell)
            &&& gutter@ == gutter_text(cell.old_no, cell.new_no, cell.kind)
        },
        Row::Pair { old, new, .. } => {
            &&& rows::diff_of(entry) matches Some(d)
            &&& look matches RowLook::Pair { old: left, new: right }
            &&& is_half(entry, d, old, true, left)
            &&& is_half(entry, d, new, false, right)
        },
        Row::Image { part, .. } => {
            &&& entry.content matches Content::Loaded(Loaded::Image { kind, .. })
            &&& look == (RowLook::Image { kind, first: part == 0 })
        },
        Row::Comment { comment, line, .. } => {
            &&& look matches RowLook::Comment { marked, text }
            &&& marked == (line == 0)
            &&& text@ == nth_line(v.comments[comment as int].text@, line)
        },
        Row::Note { note, .. } => look matches RowLook::Note(text) && text@ == note_words(note),
    }
}

/// What a row shows.
pub fn row_look(review: &Review, ix: usize) -> (look: RowLook)
    requires
        review@.fresh(),
        ix < review@.rows.len(),
    ensures
        looks(review@, review@.rows[ix as int], look),
{
    proof {
        review::lemma_fresh_row(review@, ix as int);
    }
    let row = review.rows()[ix];
    let entry = &review.files()[row.file()];
    match row {
        Row::File { file } => RowLook::File(file_header(review, file)),
        Row::Hunk { file, hunk } => match entry.diff() {
            Some(shared) => {
                let d: &FileDiff = shared;
                RowLook::Hunk {
                    header: hunk_header(d, hunk),
                    reviewed: review.hunk_is_reviewed(file, hunk),
                    buttons: action_buttons(entry.change.section, "hunk"),
                }
            },
            None => RowLook::Note(copy_text("")),
        },
        Row::Line { line, .. } => match entry.diff() {
            Some(shared) => {
                let d: &FileDiff = shared;
                let cell = line_cell(entry, d, line);
                let gutter = gutter(&cell);
                RowLook::Line { gutter, cell }
            },
            None => RowLook::Note(copy_text("")),
        },
        Row::Pair { old, new, .. } => match entry.diff() {
            Some(shared) => {
                let d: &FileDiff = shared;
                RowLook::Pair { old: half(entry, d, old, true), new: half(entry, d, new, false) }
            },
            None => RowLook::Note(copy_text("")),
        },
        Row::Image { part, .. } => match &entry.content {
            Content::Loaded(Loaded::Image { kind, .. }) => RowLook::Image {
                kind: *kind,
                first: part == 0,
            },
            _ => RowLook::Note(copy_text("")),
        },
        Row::Comment { comment, line, .. } => RowLook::Comment {
            marked: line == 0,
            text: line_of_text(review.comments()[comment].text.as_str(), line),
        },
        Row::Note { note, .. } => RowLook::Note(note_text(note)),
    }
}

/// The file whose header stays above the rows: that of the top row, unless the row is a file's
/// header itself.
pub fn sticky_header(review: &Review, top: usize) -> (file: Option<usize>)
    ensures
        file == (if top < review@.rows.len() && !(review@.rows[top as int] is File) {
            Some(review@.rows[top as int].file_of())
        } else {
            None
        }),
{
    let rows = review.rows();
    if top >= rows.len() {
        return None;
    }
    match rows[top] {
        Row::File { .. } => None,
        _ => Some(rows[top].file()),
    }
}

} // verus!
