//! Review comments on diff lines, exported as markdown an agent can act on.
use vstd::prelude::*;

use crate::diff;
use crate::diff::{DiffLine, FileDiff, LineKind};
use crate::order;
use crate::text::{from_utf8_lossy, push_number, push_text, trim};

verus! {

/// Which side of the diff a comment's line numbers refer to.
#[derive(Debug, Clone, Copy, PartialEq, Eq, Hash, Structural)]
pub enum Side {
    Old,
    New,
}

#[derive(Debug, PartialEq, Eq)]
pub struct Comment {
    pub id: u64,
    pub path: String,
    pub side: Side,
    /// 1-based, inclusive.
    pub start: u32,
    pub end: u32,
    /// The commented diff lines, each prefixed with `+`, `-` or ` `.
    pub excerpt: Vec<String>,
    pub text: String,
}

/// The lines of a diff that the indices name; what is out of range is ignored.
pub open spec fn chosen(lines: Seq<DiffLine>, picks: Seq<usize>) -> Seq<int>
    decreases picks.len(),
{
    if picks.len() == 0 {
        Seq::empty()
    } else if picks.last() < lines.len() {
        chosen(lines, picks.drop_last()).push(picks.last() as int)
    } else {
        chosen(lines, picks.drop_last())
    }
}

/// The side that a comment on these lines is on: the new one, unless all are removals.
pub open spec fn side_of(lines: Seq<DiffLine>, picks: Seq<int>) -> Side {
    if forall|i: int| 0 <= i < picks.len() ==> lines[#[trigger] picks[i]].kind == LineKind::Removed {
        Side::Old
    } else {
        Side::New
    }
}

/// The number of a line on a side.
pub open spec fn number_of(line: DiffLine, side: Side) -> Option<u32> {
    match side {
        Side::Old => line.old_no,
        Side::New => line.new_no,
    }
}

/// Whether `start..=end` is the smallest range that holds the lines' numbers on a side.
pub open spec fn spans_numbers(
    lines: Seq<DiffLine>,
    picks: Seq<int>,
    side: Side,
    start: u32,
    end: u32,
) -> bool {
    &&& exists|i: int| 0 <= i < picks.len() && number_of(lines[#[trigger] picks[i]], side) == Some(start)
    &&& exists|i: int| 0 <= i < picks.len() && number_of(lines[#[trigger] picks[i]], side) == Some(end)
    &&& forall|i: int|
        0 <= i < picks.len() ==> (number_of(lines[#[trigger] picks[i]], side) matches Some(n)
            ==> start <= n <= end)
}

/// Whether any of the lines has a number on a side.
pub open spec fn any_number(lines: Seq<DiffLine>, picks: Seq<int>, side: Side) -> bool {
    exists|i: int| 0 <= i < picks.len() && number_of(lines[#[trigger] picks[i]], side) is Some
}

/// The character before a line of this kind.
pub open spec fn prefix_char(kind: LineKind) -> char {
    match kind {
        LineKind::Added => '+',
        LineKind::Removed => '-',
        LineKind::Context => ' ',
    }
}

/// A diff line as an excerpt shows it.
pub open spec fn excerpt_line(old: Seq<u8>, new: Seq<u8>, line: DiffLine) -> Seq<char> {
    seq![prefix_char(line.kind)] + crate::text::lossy(diff::shown_bytes(old, new, line))
}

/// Where a comment is, as text.
pub open spec fn location_text(c: Comment) -> Seq<char> {
    c.path@ + ":"@ + crate::text::digits(c.start as nat) + (if c.start == c.end {
        Seq::empty()
    } else {
        "-"@ + crate::text::digits(c.end as nat)
    }) + (match c.side {
        Side::Old => " (removed lines)"@,
        Side::New => Seq::empty(),
    })
}

/// Whether a text names a path, a first line behind a colon, a last line behind a dash where it
/// is another one, and then that the lines were removed if they were.
pub open spec fn is_location(
    text: Seq<char>,
    path: Seq<char>,
    start: nat,
    end: nat,
    side: Side,
) -> bool {
    let from = path.len() + 1;
    let dash = crate::text::digits_end(text, from as int);
    let ranged = dash < text.len() && text[dash] == '-';
    let rest = if ranged {
        crate::text::digits_end(text, dash + 1)
    } else {
        dash
    };
    &&& from < dash <= rest <= text.len()
    &&& text.take(path.len() as int) == path
    &&& text[path.len() as int] == ':'
    &&& crate::text::digits_value(text.subrange(from as int, dash)) == Some(start)
    &&& ranged <==> start != end
    &&& ranged ==> dash + 1 < rest && crate::text::digits_value(text.subrange(dash + 1, rest))
        == Some(end)
    &&& side == Side::Old ==> text.skip(rest) == " (removed lines)"@
    &&& side == Side::New ==> rest == text.len()
}

/// What a location says can be read back from it: the path, the first and the last line, and
/// the side.
pub proof fn law_locations_read_back(c: Comment)
    ensures
        is_location(location_text(c), c.path@, c.start as nat, c.end as nat, c.side),
{
    reveal_strlit(":");
    reveal_strlit("-");
    reveal_strlit(" (removed lines)");
    let text = location_text(c);
    let (first, last) = (crate::text::digits(c.start as nat), crate::text::digits(c.end as nat));
    crate::text::law_digits_read_back(c.start as nat);
    crate::text::law_digits_read_back(c.end as nat);
    let from = (c.path@.len() + 1) as int;
    let dash = from + first.len() as int;
    assert(text.take(c.path@.len() as int) =~= c.path@);
    assert(text.subrange(from as int, dash as int) =~= first);
    assert forall|i: int| from <= i < dash implies '0' <= #[trigger] text[i] <= '9' by {
        assert(text[i] == first[i - from]);
    }
    crate::text::lemma_digits_end(text, from as int, dash as int);
    if c.start != c.end {
        let rest = dash + 1 + last.len() as int;
        assert(text.subrange(dash + 1, rest as int) =~= last);
        assert forall|i: int| dash + 1 <= i < rest implies '0' <= #[trigger] text[i] <= '9' by {
            assert(text[i] == last[i - dash - 1]);
        }
        crate::text::lemma_digits_end(text, dash + 1, rest as int);
        if c.side == Side::Old {
            assert(text.skip(rest as int) =~= " (removed lines)"@);
        }
    } else if c.side == Side::Old {
        assert(text.skip(dash as int) =~= " (removed lines)"@);
    }
}

/// Locations tell comments apart: two on one path that have the same location are on the same
/// lines of the same side.
pub proof fn law_locations_tell_ranges_apart(a: Comment, b: Comment)
    requires
        a.path@ == b.path@,
        location_text(a) == location_text(b),
    ensures
        a.start == b.start,
        a.end == b.end,
        a.side == b.side,
{
    law_locations_read_back(a);
    law_locations_read_back(b);
    reveal_strlit(" (removed lines)");
}

/// Whether `comment` is the comment on `lines` of a diff: the range is on the new side unless
/// every line is a removal. There is none where no line has a number.
pub open spec fn is_on_lines(
    id: u64,
    path: Seq<char>,
    diff: FileDiff,
    lines: Seq<usize>,
    text: String,
    comment: Option<Comment>,
) -> bool {
    let picks = chosen(diff.lines@, lines);
    let side = side_of(diff.lines@, picks);
    match comment {
        None => !any_number(diff.lines@, picks, side),
        Some(c) => {
            &&& c.id == id
            &&& c.path@ == path
            &&& c.side == side
            &&& spans_numbers(diff.lines@, picks, side, c.start, c.end)
            &&& c.excerpt@.len() == picks.len()
            &&& forall|i: int|
                0 <= i < picks.len() ==> (#[trigger] c.excerpt@[i])@ == excerpt_line(
                    diff.old@,
                    diff.new@,
                    diff.lines@[picks[i]],
                )
            &&& c.text == text
        },
    }
}

/// A comment, as text.
pub struct CommentView {
    pub id: u64,
    pub path: Seq<char>,
    pub side: Side,
    pub start: u32,
    pub end: u32,
    pub excerpt: Seq<Seq<char>>,
    pub text: Seq<char>,
}

impl DeepView for Comment {
    type V = CommentView;

    open spec fn deep_view(&self) -> CommentView {
        CommentView {
            id: self.id,
            path: self.path@,
            side: self.side,
            start: self.start,
            end: self.end,
            excerpt: self.excerpt.deep_view(),
            text: self.text@,
        }
    }
}

/// Comments, as text.
pub open spec fn comment_views(comments: Seq<Comment>) -> Seq<CommentView> {
    Seq::new(comments.len(), |i: int| comments[i].deep_view())
}

/// Comments that say the same are the same as text.
pub proof fn lemma_same_views(a: Seq<Comment>, b: Seq<Comment>)
    requires
        same_comments(a, b),
    ensures
        comment_views(a) == comment_views(b),
{
    assert forall|i: int| 0 <= i < a.len() implies a[i].deep_view() == b[i].deep_view() by {
        assert(same_comment(a[i], b[i]));
        assert(a[i].excerpt.deep_view() =~= b[i].excerpt.deep_view());
    }
    assert(comment_views(a) =~= comment_views(b));
}

impl Comment {
    /// A comment on `lines` (indices into `diff.lines`) of `path`. The range is on the new
    /// side unless every selected line is a removal.
    pub fn on_lines(
        id: u64,
        path: &str,
        diff: &FileDiff,
        lines: &[usize],
        text: String,
    ) -> (comment: Option<Self>)
        requires
            diff.wf(),
        ensures
            is_on_lines(id, path@, *diff, lines@, text, comment),
    {
        let ghost picks = chosen(diff.lines@, lines@);
        let selected = in_range(diff, lines);
        let side = if all_removed(diff, selected.as_slice()) {
            Side::Old
        } else {
            Side::New
        };
        assert(side == side_of(diff.lines@, picks)) by {
            if forall|i: int|
                0 <= i < picks.len() ==> diff.lines@[#[trigger] picks[i]].kind
                    == LineKind::Removed {
                assert forall|k: int| 0 <= k < selected@.len() implies diff.lines@[(
                #[trigger] selected@[k]) as int].kind == LineKind::Removed by {
                    assert(diff.lines@[picks[k]].kind == LineKind::Removed);
                }
            } else {
                let i = choose|i: int|
                    0 <= i < picks.len() && diff.lines@[#[trigger] picks[i]].kind
                        != LineKind::Removed;
                assert(selected@[i] == picks[i]);
            }
        }
        let (start, end) = match number_range(diff, selected.as_slice(), side) {
            Some(range) => range,
            None => {
                assert forall|i: int| 0 <= i < picks.len() implies number_of(
                    diff.lines@[#[trigger] picks[i]],
                    side,
                ) is None by {
                    assert(selected@[i] == picks[i]);
                }
                return None;
            },
        };
        assert(spans_numbers(diff.lines@, picks, side, start, end)) by {
            let i = choose|k: int|
                0 <= k < selected@.len() && number_of(
                    diff.lines@[(#[trigger] selected@[k]) as int],
                    side,
                ) == Some(start);
            let j = choose|k: int|
                0 <= k < selected@.len() && number_of(
                    diff.lines@[(#[trigger] selected@[k]) as int],
                    side,
                ) == Some(end);
            assert(number_of(diff.lines@[picks[i]], side) == Some(start));
            assert(number_of(diff.lines@[picks[j]], side) == Some(end));
            assert forall|i: int| 0 <= i < picks.len() implies (number_of(
                diff.lines@[#[trigger] picks[i]],
                side,
            ) matches Some(n) ==> start <= n <= end) by {
                assert(selected@[i] == picks[i]);
            }
        }
        let mut excerpt: Vec<String> = Vec::new();
        let mut i: usize = 0;
        while i < selected.len()
            invariant
                diff.wf(),
                i == excerpt@.len() <= selected@.len(),
                selected@.len() == picks.len(),
                forall|k: int| 0 <= k < picks.len() ==> #[trigger] selected@[k] == picks[k],
                forall|k: int| 0 <= k < selected@.len() ==> #[trigger] selected@[k] < diff.lines@.len(),
                forall|k: int|
                    0 <= k < i ==> (#[trigger] excerpt@[k])@ == excerpt_line(
                        diff.old@,
                        diff.new@,
                        diff.lines@[picks[k]],
                    ),
            decreases selected.len() - i,
        {
            let ghost k = selected@[i as int] as int;
            proof {
                diff.lemma_line_at(k);
            }
            let line = &diff.lines[selected[i]];
            let mut shown = String::new();
            shown.push(
                match line.kind {
                    LineKind::Added => '+',
                    LineKind::Removed => '-',
                    LineKind::Context => ' ',
                },
            );
            push_text(&mut shown, from_utf8_lossy(diff.line_bytes(line)).as_str());
            assert(shown@ =~= excerpt_line(diff.old@, diff.new@, diff.lines@[k]));
            excerpt.push(shown);
            i = i + 1;
        }
        Some(Comment { id, path: path.to_owned(), side, start, end, excerpt, text })
    }

    /// `path:line` or `path:start-end`, with a mark on removed lines.
    pub fn location(&self) -> (text: String)
        ensures
            text@ == location_text(*self),
            is_location(text@, self.path@, self.start as nat, self.end as nat, self.side),
    {
        proof {
            law_locations_read_back(*self);
        }
        let mut text = self.path.as_str().to_owned();
        push_text(&mut text, ":");
        push_number(&mut text, self.start as u64);
        if self.start != self.end {
            push_text(&mut text, "-");
            push_number(&mut text, self.end as u64);
        }
        match self.side {
            Side::Old => push_text(&mut text, " (removed lines)"),
            Side::New => {},
        }
        assert(text@ =~= location_text(*self));
        text
    }
}

fn in_range(diff: &FileDiff, lines: &[usize]) -> (selected: Vec<usize>)
    ensures
        selected@.len() == chosen(diff.lines@, lines@).len(),
        forall|k: int|
            0 <= k < selected@.len() ==> #[trigger] selected@[k] == chosen(diff.lines@, lines@)[k],
        forall|k: int| 0 <= k < selected@.len() ==> #[trigger] selected@[k] < diff.lines@.len(),
{
    let mut selected: Vec<usize> = Vec::new();
    let mut i: usize = 0;
    while i < lines.len()
        invariant
            i <= lines@.len(),
            selected@.len() == chosen(diff.lines@, lines@.take(i as int)).len(),
            forall|k: int|
                0 <= k < selected@.len() ==> #[trigger] selected@[k] == chosen(
                    diff.lines@,
                    lines@.take(i as int),
                )[k],
            forall|k: int| 0 <= k < selected@.len() ==> #[trigger] selected@[k] < diff.lines@.len(),
        decreases lines.len() - i,
    {
        assert(lines@.take(i + 1).drop_last() =~= lines@.take(i as int));
        if lines[i] < diff.lines.len() {
            selected.push(lines[i]);
        }
        i = i + 1;
    }
    assert(lines@.take(i as int) =~= lines@);
    selected
}

fn all_removed(diff: &FileDiff, selected: &[usize]) -> (result: bool)
    requires
        forall|k: int| 0 <= k < selected@.len() ==> #[trigger] selected@[k] < diff.lines@.len(),
    ensures
        result == forall|k: int|
            0 <= k < selected@.len() ==> diff.lines@[(#[trigger] selected@[k]) as int].kind
                == LineKind::Removed,
{
    let mut i: usize = 0;
    while i < selected.len()
        invariant
            i <= selected@.len(),
            forall|k: int| 0 <= k < selected@.len() ==> #[trigger] selected@[k] < diff.lines@.len(),
            forall|k: int|
                0 <= k < i ==> diff.lines@[(#[trigger] selected@[k]) as int].kind
                    == LineKind::Removed,
        decreases selected.len() - i,
    {
        if diff.lines[selected[i]].kind != LineKind::Removed {
            return false;
        }
        i = i + 1;
    }
    true
}

fn number_range(diff: &FileDiff, selected: &[usize], side: Side) -> (range: Option<(u32, u32)>)
    requires
        forall|k: int| 0 <= k < selected@.len() ==> #[trigger] selected@[k] < diff.lines@.len(),
    ensures
        match range {
            None => forall|k: int|
                0 <= k < selected@.len() ==> number_of(
                    diff.lines@[(#[trigger] selected@[k]) as int],
                    side,
                ) is None,
            Some((start, end)) => {
                &&& exists|k: int|
                    0 <= k < selected@.len() && number_of(
                        diff.lines@[(#[trigger] selected@[k]) as int],
                        side,
                    ) == Some(start)
                &&& exists|k: int|
                    0 <= k < selected@.len() && number_of(
                        diff.lines@[(#[trigger] selected@[k]) as int],
                        side,
                    ) == Some(end)
                &&& forall|k: int|
                    0 <= k < selected@.len() ==> (number_of(
                        diff.lines@[(#[trigger] selected@[k]) as int],
                        side,
                    ) matches Some(n) ==> start <= n <= end)
            },
        },
{
    let mut range: Option<(u32, u32)> = None;
    let mut i: usize = 0;
    while i < selected.len()
        invariant
            i <= selected@.len(),
            forall|k: int| 0 <= k < selected@.len() ==> #[trigger] selected@[k] < diff.lines@.len(),
            match range {
                None => forall|k: int|
                    0 <= k < i ==> number_of(
                        diff.lines@[(#[trigger] selected@[k]) as int],
                        side,
                    ) is None,
                Some((start, end)) => {
                    &&& exists|k: int|
                        0 <= k < i && number_of(
                            diff.lines@[(#[trigger] selected@[k]) as int],
                            side,
                        ) == Some(start)
                    &&& exists|k: int|
                        0 <= k < i && number_of(
                            diff.lines@[(#[trigger] selected@[k]) as int],
                            side,
                        ) == Some(end)
                    &&& forall|k: int|
                        0 <= k < i ==> (number_of(
                            diff.lines@[(#[trigger] selected@[k]) as int],
                            side,
                        ) matches Some(n) ==> start <= n <= end)
                },
            },
        decreases selected.len() - i,
    {
        let line = &diff.lines[selected[i]];
        let number: Option<u32> = match side {
            Side::Old => line.old_no,
            Side::New => line.new_no,
        };
        assert(number == number_of(diff.lines@[selected@[i as int] as int], side));
        if let Some(n) = number {
            range = match range {
                None => Some((n, n)),
                Some((start, end)) => Some(
                    (
                        if n < start {
                            n
                        } else {
                            start
                        },
                        if n > end {
                            n
                        } else {
                            end
                        },
                    ),
                ),
            };
        }
        i = i + 1;
    }
    range
}

// ---------------------------------------------------------------------------
// Markdown.

/// Whether comment `a` is listed before comment `b`, by path, then first line, then
/// position in the list.
pub open spec fn listed_before(comments: Seq<Comment>, a: int, b: int) -> bool {
    let (x, y) = (comments[a], comments[b]);
    let (p, q) = (vstd::utf8::encode_utf8(x.path@), vstd::utf8::encode_utf8(y.path@));
    order::before(p, q) || (p == q && (x.start < y.start || (x.start == y.start && a < b)))
}

/// Whether `order` lists each comment once, sorted.
pub open spec fn is_listing(comments: Seq<Comment>, order: Seq<int>) -> bool {
    &&& order.len() == comments.len()
    &&& forall|i: int| 0 <= i < order.len() ==> 0 <= #[trigger] order[i] < comments.len()
    &&& forall|i: int, j: int|
        #![trigger order[i], order[j]]
        0 <= i < j < order.len() ==> listed_before(comments, order[i], order[j])
}

/// The excerpt, a line each.
pub open spec fn excerpt_text(excerpt: Seq<String>) -> Seq<char>
    decreases excerpt.len(),
{
    if excerpt.len() == 0 {
        Seq::empty()
    } else {
        excerpt_text(excerpt.drop_last()) + excerpt.last()@ + "\n"@
    }
}

/// One comment: its location, the diff it refers to, and its text.
pub open spec fn comment_text(c: Comment) -> Seq<char> {
    "\n## "@ + location_text(c) + "\n\n```diff\n"@ + excerpt_text(c.excerpt@) + "```\n\n"@
        + crate::text::trimmed(c.text@) + "\n"@
}

/// The comments in the order given.
pub open spec fn listed_text(comments: Seq<Comment>, order: Seq<int>) -> Seq<char>
    decreases order.len(),
{
    if order.len() == 0 {
        Seq::empty()
    } else {
        listed_text(comments, order.drop_last()) + comment_text(comments[order.last()])
    }
}

/// The whole text for the comments in the order given.
pub open spec fn markdown(comments: Seq<Comment>, order: Seq<int>) -> Seq<char> {
    if comments.len() == 0 {
        "No review comments.\n"@
    } else {
        "# Review comments ("@ + crate::text::digits(comments.len())
            + ")\n\nAddress each comment below; line numbers refer to the current files.\n"@
            + listed_text(comments, order)
    }
}

fn comes_before(comments: &[Comment], a: usize, b: usize) -> (result: bool)
    requires
        a < comments@.len(),
        b < comments@.len(),
    ensures
        result == listed_before(comments@, a as int, b as int),
{
    let p = comments[a].path.as_str().as_bytes();
    let q = comments[b].path.as_str().as_bytes();
    if order::is_before(p, q) {
        return true;
    }
    crate::bytes::same(p, q) && (comments[a].start < comments[b].start || (comments[a].start
        == comments[b].start && a < b))
}

proof fn lemma_listed_transitive(comments: Seq<Comment>, a: int, b: int, c: int)
    requires
        listed_before(comments, a, b),
        listed_before(comments, b, c),
    ensures
        listed_before(comments, a, c),
{
    let p = vstd::utf8::encode_utf8(comments[a].path@);
    let q = vstd::utf8::encode_utf8(comments[b].path@);
    let r = vstd::utf8::encode_utf8(comments[c].path@);
    if order::before(p, q) && order::before(q, r) {
        order::lemma_transitive(p, q, r);
    }
}

proof fn lemma_listed_total(comments: Seq<Comment>, a: int, b: int)
    requires
        a != b,
    ensures
        listed_before(comments, a, b) || listed_before(comments, b, a),
{
    order::lemma_total(
        vstd::utf8::encode_utf8(comments[a].path@),
        vstd::utf8::encode_utf8(comments[b].path@),
    );
}

/// The order in which comments are listed.
fn listing(comments: &[Comment]) -> (order: Vec<usize>)
    ensures
        is_listing(comments@, order@.map_values(|i: usize| i as int)),
{
    let mut order: Vec<usize> = Vec::new();
    let mut n: usize = 0;
    while n < comments.len()
        invariant
            n == order@.len() <= comments@.len(),
            forall|i: int| 0 <= i < n ==> #[trigger] order@[i] < n,
            forall|i: int, j: int|
                #![trigger order@[i], order@[j]]
                0 <= i < j < n ==> listed_before(comments@, order@[i] as int, order@[j] as int),
        decreases comments.len() - n,
    {
        let ghost before = order@;
        let mut at: usize = n;
        while at > 0 && comes_before(comments, n, order[at - 1])
            invariant
                at <= n == order@.len() < comments@.len(),
                order@ == before,
                forall|i: int| 0 <= i < n ==> #[trigger] order@[i] < n,
                forall|i: int|
                    at <= i < n ==> listed_before(comments@, n as int, #[trigger] order@[i] as int),
            decreases at,
        {
            at = at - 1;
        }
        order.insert(at, n);
        proof {
            assert forall|i: int, j: int|
                #![trigger order@[i], order@[j]]
                0 <= i < j < n + 1 implies listed_before(
                comments@,
                order@[i] as int,
                order@[j] as int,
            ) by {
                let old_i = if i > at {
                    i - 1
                } else {
                    i
                };
                let old_j = if j > at {
                    j - 1
                } else {
                    j
                };
                if i != at && j != at {
                    assert(order@[i] == before[old_i]);
                    assert(order@[j] == before[old_j]);
                } else if i == at {
                    assert(order@[j] == before[old_j]);
                } else {
                    assert(order@[i] == before[i]);
                    let last = before[at - 1] as int;
                    lemma_listed_total(comments@, n as int, last);
                    if i < at - 1 {
                        assert(listed_before(comments@, before[i] as int, last));
                        lemma_listed_transitive(comments@, before[i] as int, last, n as int);
                    }
                }
            }
            assert forall|i: int| 0 <= i < n + 1 implies #[trigger] order@[i] < n + 1 by {
                if i < at {
                    assert(order@[i] == before[i]);
                } else if i > at {
                    assert(order@[i] == before[i - 1]);
                }
            }
        }
        n = n + 1;
    }
    order
}

fn push_excerpt(out: &mut String, excerpt: &[String])
    ensures
        final(out)@ == old(out)@ + excerpt_text(excerpt@),
{
    let ghost start = out@;
    let mut i: usize = 0;
    assert(start + excerpt_text(excerpt@.take(0)) =~= start);
    while i < excerpt.len()
        invariant
            i <= excerpt@.len(),
            out@ == start + excerpt_text(excerpt@.take(i as int)),
        decreases excerpt.len() - i,
    {
        assert(excerpt@.take(i + 1).drop_last() =~= excerpt@.take(i as int));
        push_text(out, excerpt[i].as_str());
        push_text(out, "\n");
        i = i + 1;
        assert(out@ =~= start + excerpt_text(excerpt@.take(i as int)));
    }
    assert(excerpt@.take(i as int) =~= excerpt@);
}

/// One comment as markdown.
fn comment_markdown(c: &Comment) -> (out: String)
    ensures
        out@ == comment_text(*c),
{
    let mut out = "\n## ".to_owned();
    push_text(&mut out, c.location().as_str());
    push_text(&mut out, "\n\n```diff\n");
    push_excerpt(&mut out, c.excerpt.as_slice());
    push_text(&mut out, "```\n\n");
    push_text(&mut out, trim(c.text.as_str()).as_str());
    push_text(&mut out, "\n");
    out
}

/// Markdown for an agent: each comment with its location and the diff it refers to.
pub fn to_markdown(comments: &[Comment]) -> (text: String)
    ensures
        exists|order: Seq<int>|
            is_listing(comments@, order) && #[trigger] markdown(comments@, order) == text@,
{
    if comments.len() == 0 {
        assert(is_listing(comments@, Seq::<int>::empty()));
        assert(markdown(comments@, Seq::<int>::empty()) == "No review comments.\n"@);
        return "No review comments.\n".to_owned();
    }
    let order = listing(comments);
    let ghost all = order@.map_values(|i: usize| i as int);
    let mut out = "# Review comments (".to_owned();
    push_number(&mut out, comments.len() as u64);
    push_text(
        &mut out,
        ")\n\nAddress each comment below; line numbers refer to the current files.\n",
    );
    let ghost start = out@;
    let mut i: usize = 0;
    assert(start + listed_text(comments@, all.take(0)) =~= start);
    while i < order.len()
        invariant
            i <= order@.len() == all.len(),
            all == order@.map_values(|i: usize| i as int),
            is_listing(comments@, all),
            out@ == start + listed_text(comments@, all.take(i as int)),
        decreases order.len() - i,
    {
        assert(all.take(i + 1).drop_last() =~= all.take(i as int));
        assert(all[i as int] == order@[i as int]);
        push_text(&mut out, comment_markdown(&comments[order[i]]).as_str());
        i = i + 1;
        assert(out@ =~= start + listed_text(comments@, all.take(i as int)));
    }
    assert(all.take(i as int) =~= all);
    assert(markdown(comments@, all) == out@);
    out
}

proof fn lemma_listed_once(comments: Seq<Comment>, a: int, b: int)
    requires
        listed_before(comments, a, b),
    ensures
        !listed_before(comments, b, a),
{
    let p = vstd::utf8::encode_utf8(comments[a].path@);
    let q = vstd::utf8::encode_utf8(comments[b].path@);
    order::lemma_irreflexive(p);
    if order::before(p, q) && order::before(q, p) {
        order::lemma_transitive(p, q, p);
    }
}

/// A listing lists every comment.
proof fn lemma_listing_is_full(comments: Seq<Comment>, order: Seq<int>, x: int) -> (at: int)
    requires
        is_listing(comments, order),
        0 <= x < comments.len(),
    ensures
        0 <= at < order.len(),
        order[at] == x,
{
    let n = comments.len() as int;
    assert forall|i: int, j: int| 0 <= i < j < order.len() implies order[i] != order[j] by {
        assert(listed_before(comments, order[i], order[j]));
        lemma_listed_once(comments, order[i], order[j]);
    }
    assert(order.no_duplicates());
    let all = order.to_set();
    let range = vstd::set_lib::set_int_range(0, n);
    order.unique_seq_to_set();
    vstd::set_lib::lemma_int_range(0, n);
    assert forall|v: int| all.contains(v) implies range.contains(v) by {
        let i = order.index_of(v);
        assert(order[i] == v);
    }
    vstd::set_lib::lemma_subset_equality(all, range);
    assert(all.contains(x));
    order.index_of(x)
}

/// There is one listing.
proof fn lemma_one_listing(comments: Seq<Comment>, a: Seq<int>, b: Seq<int>, count: int)
    requires
        is_listing(comments, a),
        is_listing(comments, b),
        0 <= count <= comments.len(),
    ensures
        a.take(count) == b.take(count),
    decreases count,
{
    if count > 0 {
        let k = count - 1;
        lemma_one_listing(comments, a, b, k);
        if a[k] != b[k] {
            let m = lemma_listing_is_full(comments, b, a[k]);
            let l = lemma_listing_is_full(comments, a, b[k]);
            if m < k {
                assert(a.take(k)[m] == b.take(k)[m]);
                assert(a[m] == a[k]);
                assert(listed_before(comments, a[m], a[k]));
                lemma_listed_once(comments, a[m], a[k]);
            }
            if l < k {
                assert(a.take(k)[l] == b.take(k)[l]);
                assert(b[l] == b[k]);
                assert(listed_before(comments, b[l], b[k]));
                lemma_listed_once(comments, b[l], b[k]);
            }
            assert(listed_before(comments, a[k], a[l]));
            assert(listed_before(comments, b[k], b[m]));
            lemma_listed_once(comments, a[k], b[k]);
        }
        assert(a.take(count) =~= a.take(k).push(a[k]));
        assert(b.take(count) =~= b.take(k).push(b[k]));
    } else {
        assert(a.take(0) =~= b.take(0));
    }
}

/// Whether `moved` are the comments in another order, comment `i` being the one at `places[i]`;
/// those on the same path and first line keep their order.
pub open spec fn is_moved(comments: Seq<Comment>, moved: Seq<Comment>, places: Seq<int>) -> bool {
    &&& moved.len() == comments.len()
    &&& places.len() == comments.len()
    &&& forall|i: int|
        0 <= i < places.len() ==> 0 <= #[trigger] places[i] < comments.len() && moved[i]
            == comments[places[i]]
    &&& forall|i: int, j: int|
        #![trigger places[i], places[j]]
        0 <= i < j < places.len() ==> places[i] != places[j] && (moved[i].path@ == moved[j].path@
            && moved[i].start == moved[j].start ==> places[i] < places[j])
}

proof fn lemma_moved_text(
    comments: Seq<Comment>,
    moved: Seq<Comment>,
    places: Seq<int>,
    order: Seq<int>,
)
    requires
        forall|i: int|
            0 <= i < order.len() ==> 0 <= #[trigger] order[i] < moved.len() && moved[order[i]]
                == comments[places[order[i]]],
    ensures
        listed_text(moved, order) == listed_text(comments, order.map_values(|i: int| places[i])),
    decreases order.len(),
{
    if order.len() > 0 {
        let before = order.drop_last();
        assert forall|i: int| 0 <= i < before.len() implies 0 <= #[trigger] before[i] < moved.len()
            && moved[before[i]] == comments[places[before[i]]] by {
            assert(before[i] == order[i]);
        }
        lemma_moved_text(comments, moved, places, before);
        assert(order.map_values(|i: int| places[i]).drop_last() =~= before.map_values(
            |i: int| places[i],
        ));
        assert(order[order.len() - 1] == order.last());
    }
}

/// The text for comments does not depend on the order in which they were made: the same ones
/// in another order, those on the same path and first line in theirs, give the same text.
pub proof fn law_markdown_ignores_the_order(
    comments: Seq<Comment>,
    order: Seq<int>,
    moved: Seq<Comment>,
    moved_order: Seq<int>,
    places: Seq<int>,
)
    requires
        is_moved(comments, moved, places),
        is_listing(comments, order),
        is_listing(moved, moved_order),
    ensures
        markdown(moved, moved_order) == markdown(comments, order),
{
    let back = moved_order.map_values(|i: int| places[i]);
    assert forall|i: int, j: int|
        #![trigger back[i], back[j]]
        0 <= i < j < back.len() implies listed_before(comments, back[i], back[j]) by {
        let (a, b) = (moved_order[i], moved_order[j]);
        assert(listed_before(moved, a, b));
        assert(moved[a] == comments[places[a]] && moved[b] == comments[places[b]]);
        let p = vstd::utf8::encode_utf8(moved[a].path@);
        let q = vstd::utf8::encode_utf8(moved[b].path@);
        if !order::before(p, q) {
            crate::utf8::lemma_encode_injective(moved[a].path@, moved[b].path@);
            if moved[a].start == moved[b].start {
                assert(a < b);
                assert(places[a] < places[b]);
            }
        }
    }
    assert forall|i: int| 0 <= i < back.len() implies 0 <= #[trigger] back[i] < comments.len() by {
        assert(0 <= moved_order[i] < moved.len());
        assert(0 <= places[moved_order[i]] < comments.len());
    }
    assert(is_listing(comments, back));
    lemma_one_listing(comments, back, order, comments.len() as int);
    assert(back.take(comments.len() as int) =~= back);
    assert(order.take(comments.len() as int) =~= order);
    assert forall|i: int| 0 <= i < moved_order.len() implies 0 <= #[trigger] moved_order[i]
        < moved.len() && moved[moved_order[i]] == comments[places[moved_order[i]]] by {
        let a = moved_order[i];
        assert(0 <= places[a] < comments.len());
    }
    lemma_moved_text(comments, moved, places, moved_order);
}

/// Whether a text has a part at a place.
#[verifier::opaque]
pub open spec fn has_at(text: Seq<char>, at: int, part: Seq<char>) -> bool {
    0 <= at && at + part.len() <= text.len() && text.subrange(at, at + part.len()) == part
}

/// Whether a text has a line of an excerpt where `lines` says, up to where the next one stands.
pub open spec fn has_line(text: Seq<char>, lines: Seq<int>, excerpt: Seq<String>, i: int) -> bool {
    &&& has_at(text, lines[i], excerpt[i]@)
    &&& lines[i + 1] == lines[i] + excerpt[i]@.len() + 1
    &&& 0 < lines[i + 1] <= text.len()
    &&& text[lines[i + 1] - 1] == '\n'
}

/// Whether a text has the lines of an excerpt one after the other, the first at `lines[0]`, and
/// ends them at the last of `lines`.
pub open spec fn has_lines(text: Seq<char>, lines: Seq<int>, excerpt: Seq<String>) -> bool {
    &&& lines.len() == excerpt.len() + 1
    &&& forall|i: int| 0 <= i < excerpt.len() ==> #[trigger] has_line(text, lines, excerpt, i)
}

/// Whether a text shows a comment between two places: its location in a line of its own, then
/// the lines that it is on, then what it says without white space around it.
pub open spec fn shows_comment(
    text: Seq<char>,
    from: int,
    to: int,
    c: Comment,
    lines: Seq<int>,
) -> bool {
    let said = to - 1 - crate::text::trimmed(c.text@).len();
    let named = from + 4;
    &&& 0 <= from < to <= text.len()
    &&& has_at(text, from, "\n## "@)
    &&& has_at(text, named, location_text(c))
    &&& text[named + location_text(c).len()] == '\n'
    &&& has_lines(text, lines, c.excerpt@)
    &&& named + location_text(c).len() < lines[0]
    &&& has_at(text, lines[0] - 8, "```diff\n"@)
    &&& has_at(text, lines.last(), "```\n"@)
    &&& lines.last() + 4 < said
    &&& has_at(text, said, crate::text::trimmed(c.text@))
    &&& text[to - 1] == '\n'
}

/// Whether a text shows a comment between two places.
pub open spec fn has_comment(text: Seq<char>, from: int, to: int, c: Comment) -> bool {
    exists|lines: Seq<int>| #[trigger] shows_comment(text, from, to, c, lines)
}

/// Where the lines of an excerpt stand in its text.
proof fn lemma_excerpt_lines(excerpt: Seq<String>) -> (lines: Seq<int>)
    ensures
        has_lines(excerpt_text(excerpt), lines, excerpt),
        lines[0] == 0,
        lines.last() == excerpt_text(excerpt).len(),
    decreases excerpt.len(),
{
    reveal(has_at);
    reveal_strlit("\n");
    if excerpt.len() == 0 {
        seq![0]
    } else {
        let before = excerpt.drop_last();
        let part = excerpt_text(before);
        let text = excerpt_text(excerpt);
        let found = lemma_excerpt_lines(before);
        let lines = found.push(text.len() as int);
        assert forall|i: int| 0 <= i < excerpt.len() implies #[trigger] has_line(
            text,
            lines,
            excerpt,
            i,
        ) by {
            if i < before.len() {
                assert(has_line(part, found, before, i));
                assert(text.subrange(lines[i], lines[i] + excerpt[i]@.len()) =~= part.subrange(
                    found[i],
                    found[i] + before[i]@.len(),
                ));
                assert(lines[i + 1] == found[i + 1]) by {
                    if i + 1 == before.len() {
                        assert(found[i + 1] == found.last());
                    }
                }
                assert(text[lines[i + 1] - 1] == part[found[i + 1] - 1]);
            } else {
                assert(text.subrange(lines[i], lines[i] + excerpt[i]@.len()) =~= excerpt[i]@);
            }
        }
        lines
    }
}

/// A part stands where it stood, once something is put before or behind the text.
proof fn lemma_has_at(text: Seq<char>, at: int, part: Seq<char>, before: Seq<char>, after: Seq<char>)
    requires
        has_at(text, at, part),
    ensures
        has_at(text + after, at, part),
        has_at(before + text, before.len() + at, part),
{
    reveal(has_at);
    assert((text + after).subrange(at, at + part.len()) =~= text.subrange(at, at + part.len()));
    assert((before + text).subrange(before.len() + at, before.len() + at + part.len())
        =~= text.subrange(at, at + part.len()));
}

proof fn lemma_has_all(text: Seq<char>)
    ensures
        has_at(text, 0, text),
{
    reveal(has_at);
    assert(text.subrange(0, text.len() as int) =~= text);
}

/// A text that shows a comment does so with something before and behind it.
proof fn lemma_shown_within(
    text: Seq<char>,
    from: int,
    to: int,
    c: Comment,
    lines: Seq<int>,
    before: Seq<char>,
    after: Seq<char>,
)
    requires
        shows_comment(text, from, to, c, lines),
    ensures
        has_comment(before + text + after, before.len() + from, before.len() + to, c),
{
    let n = before.len() as int;
    let mid = before + text;
    let whole = mid + after;
    let moved = lines.map_values(|at: int| n + at);
    let said = to - 1 - crate::text::trimmed(c.text@).len();
    lemma_has_at(text, from, "\n## "@, before, after);
    lemma_has_at(mid, n + from, "\n## "@, before, after);
    lemma_has_at(text, from + 4, location_text(c), before, after);
    lemma_has_at(mid, n + from + 4, location_text(c), before, after);
    lemma_has_at(text, lines[0] - 8, "```diff\n"@, before, after);
    lemma_has_at(mid, n + lines[0] - 8, "```diff\n"@, before, after);
    lemma_has_at(text, lines.last(), "```\n"@, before, after);
    lemma_has_at(mid, n + lines.last(), "```\n"@, before, after);
    lemma_has_at(text, said, crate::text::trimmed(c.text@), before, after);
    lemma_has_at(mid, n + said, crate::text::trimmed(c.text@), before, after);
    assert forall|i: int| 0 <= i < c.excerpt@.len() implies #[trigger] has_line(
        whole,
        moved,
        c.excerpt@,
        i,
    ) by {
        assert(has_line(text, lines, c.excerpt@, i));
        lemma_has_at(text, lines[i], c.excerpt@[i]@, before, after);
        lemma_has_at(mid, n + lines[i], c.excerpt@[i]@, before, after);
        assert(whole[moved[i + 1] - 1] == text[lines[i + 1] - 1]);
    }
    assert(has_lines(whole, moved, c.excerpt@));
    assert(moved[0] == n + lines[0] && moved.last() == n + lines.last());
    assert(from + 4 + location_text(c).len() < text.len()) by {
        reveal(has_at);
        reveal_strlit("```diff\n");
    }
    assert(whole[n + from + 4 + location_text(c).len()] == text[from + 4 + location_text(c).len()]);
    assert(whole[n + to - 1] == text[to - 1]);
    assert(shows_comment(whole, n + from, n + to, c, moved));
}

proof fn lemma_comment_shown(c: Comment, before: Seq<char>, after: Seq<char>)
    ensures
        has_comment(
            before + comment_text(c) + after,
            before.len() as int,
            (before.len() + comment_text(c).len()) as int,
            c,
        ),
{
    let lines = lemma_comment_parts(c);
    lemma_shown_within(comment_text(c), 0, comment_text(c).len() as int, c, lines, before, after);
}

/// A part stays where it stands when more is appended, three times.
proof fn lemma_has_at_three(
    text: Seq<char>,
    at: int,
    part: Seq<char>,
    a: Seq<char>,
    b: Seq<char>,
    c: Seq<char>,
)
    requires
        has_at(text, at, part),
    ensures
        has_at(text + a + b + c, at, part),
        has_at(text + a + b, at, part),
{
    lemma_has_at(text, at, part, text, a);
    lemma_has_at(text + a, at, part, text, b);
    lemma_has_at(text + a + b, at, part, text, c);
}

/// A text in seven parts.
spec fn joined(p: Seq<Seq<char>>) -> Seq<char> {
    p[0] + p[1] + p[2] + p[3] + p[4] + p[5] + p[6]
}

/// Where the third and the fifth of seven parts start.
spec fn third_at(p: Seq<Seq<char>>) -> int {
    (p[0].len() + p[1].len()) as int
}

spec fn fourth_at(p: Seq<Seq<char>>) -> int {
    third_at(p) + p[2].len()
}

spec fn fifth_at(p: Seq<Seq<char>>) -> int {
    fourth_at(p) + p[3].len()
}

/// What stands in one of the first three parts stands in the whole.
proof fn lemma_in_first_parts(p: Seq<Seq<char>>, k: int, at: int, part: Seq<char>)
    requires
        0 <= k < 3,
        has_at(p[k], at, part),
    ensures
        k == 0 ==> has_at(joined(p), at, part),
        k == 1 ==> has_at(joined(p), p[0].len() + at, part),
        k == 2 ==> has_at(joined(p), third_at(p) + at, part),
{
    let two = p[0] + p[1];
    let three = two + p[2];
    if k == 0 {
        lemma_has_at_three(p[0], at, part, p[1], p[2], p[3]);
        lemma_has_at_three(three + p[3], at, part, p[4], p[5], p[6]);
    } else if k == 1 {
        lemma_has_at(p[1], at, part, p[0], p[0]);
        lemma_has_at(two, p[0].len() + at, part, p[0], p[2]);
        lemma_has_at(three, p[0].len() + at, part, p[0], p[3]);
        lemma_has_at_three(three + p[3], p[0].len() + at, part, p[4], p[5], p[6]);
    } else {
        lemma_has_at(p[2], at, part, two, two);
        lemma_has_at(three, third_at(p) + at, part, two, p[3]);
        lemma_has_at_three(three + p[3], third_at(p) + at, part, p[4], p[5], p[6]);
    }
}

/// What stands in one of the last four parts stands in the whole.
proof fn lemma_in_last_parts(p: Seq<Seq<char>>, k: int, at: int, part: Seq<char>)
    requires
        3 <= k < 7,
        has_at(p[k], at, part),
    ensures
        k == 3 ==> has_at(joined(p), fourth_at(p) + at, part),
        k == 4 ==> has_at(joined(p), fifth_at(p) + at, part),
        k == 5 ==> has_at(joined(p), fifth_at(p) + p[4].len() + at, part),
        k == 6 ==> has_at(joined(p), fifth_at(p) + p[4].len() + p[5].len() + at, part),
{
    let three = p[0] + p[1] + p[2];
    let four = three + p[3];
    let five = four + p[4];
    let six = five + p[5];
    if k == 3 {
        lemma_has_at(p[3], at, part, three, three);
        lemma_has_at_three(four, fourth_at(p) + at, part, p[4], p[5], p[6]);
    } else if k == 4 {
        lemma_has_at(p[4], at, part, four, four);
        lemma_has_at(five, fifth_at(p) + at, part, four, p[5]);
        lemma_has_at(six, fifth_at(p) + at, part, four, p[6]);
    } else if k == 5 {
        lemma_has_at(p[5], at, part, five, five);
        lemma_has_at(six, fifth_at(p) + p[4].len() + at, part, five, p[6]);
    } else {
        lemma_has_at(p[6], at, part, six, six);
    }
}

proof fn lemma_has_one(text: Seq<char>, at: int, c: char)
    ensures
        has_at(text, at, seq![c]) <==> 0 <= at < text.len() && text[at] == c,
{
    reveal(has_at);
    if 0 <= at < text.len() {
        assert(text.subrange(at, at + 1) =~= seq![text[at]]);
        assert(seq![text[at]][0] == text[at]);
        assert(seq![c][0] == c);
    }
}

/// The fixed parts of the text of a comment.
proof fn lemma_comment_words()
    ensures
        "\n## "@.len() == 4,
        "\n\n```diff\n"@.len() == 10,
        "```\n\n"@.len() == 5,
        "\n"@ == seq!['\n'],
        has_at("\n\n```diff\n"@, 0, seq!['\n']),
        has_at("\n\n```diff\n"@, 2, "```diff\n"@),
        has_at("```\n\n"@, 0, "```\n"@),
{
    reveal(has_at);
    reveal_strlit("\n## ");
    reveal_strlit("\n\n```diff\n");
    reveal_strlit("```diff\n");
    reveal_strlit("```\n\n");
    reveal_strlit("```\n");
    reveal_strlit("\n");
    assert("\n"@ =~= seq!['\n']);
    assert("\n\n```diff\n"@.subrange(0, 1) =~= seq!['\n']);
    assert("\n\n```diff\n"@.subrange(2, 10) =~= "```diff\n"@);
    assert("```\n\n"@.subrange(0, 4) =~= "```\n"@);
}

proof fn lemma_lines_within(p: Seq<Seq<char>>, found: Seq<int>, excerpt: Seq<String>)
    requires
        has_lines(p[3], found, excerpt),
        found[0] == 0,
        found.last() == p[3].len(),
    ensures
        has_lines(joined(p), found.map_values(|at: int| fourth_at(p) + at), excerpt),
{
    let text = joined(p);
    let lines = found.map_values(|at: int| fourth_at(p) + at);
    assert forall|i: int| 0 <= i < excerpt.len() implies #[trigger] has_line(
        text,
        lines,
        excerpt,
        i,
    ) by {
        assert(has_line(p[3], found, excerpt, i));
        lemma_in_last_parts(p, 3, found[i], excerpt[i]@);
        lemma_has_one(p[3], found[i + 1] - 1, '\n');
        lemma_in_last_parts(p, 3, found[i + 1] - 1, seq!['\n']);
        lemma_has_one(text, lines[i + 1] - 1, '\n');
    }
}

proof fn lemma_comment_parts(c: Comment) -> (lines: Seq<int>)
    ensures
        shows_comment(comment_text(c), 0, comment_text(c).len() as int, c, lines),
{
    lemma_comment_words();
    let place = location_text(c);
    let excerpt = excerpt_text(c.excerpt@);
    let said = crate::text::trimmed(c.text@);
    let p = seq![
        "\n## "@,
        place,
        "\n\n```diff\n"@,
        excerpt,
        "```\n\n"@,
        said,
        "\n"@,
    ];
    let text = joined(p);
    assert(text == comment_text(c));
    let found = lemma_excerpt_lines(c.excerpt@);
    lemma_lines_within(p, found, c.excerpt@);
    let lines = found.map_values(|at: int| fourth_at(p) + at);
    assert(lines[0] == fourth_at(p) && lines.last() == fifth_at(p));
    let to = text.len() as int;
    assert(to == fifth_at(p) + 5 + said.len() + 1);
    lemma_has_all("\n## "@);
    lemma_has_all(place);
    lemma_has_all(said);
    lemma_has_all("\n"@);
    lemma_in_first_parts(p, 0, 0, "\n## "@);
    lemma_in_first_parts(p, 1, 0, place);
    lemma_in_first_parts(p, 2, 0, seq!['\n']);
    lemma_has_one(text, third_at(p), '\n');
    lemma_in_first_parts(p, 2, 2, "```diff\n"@);
    lemma_in_last_parts(p, 4, 0, "```\n"@);
    lemma_in_last_parts(p, 5, 0, said);
    lemma_in_last_parts(p, 6, 0, seq!['\n']);
    lemma_has_one(text, to - 1, '\n');
    lines
}

/// Where the first `count` comments end in the text for all of them.
pub open spec fn comment_ends(comments: Seq<Comment>, order: Seq<int>, count: int) -> int {
    markdown(comments, order).len() - listed_text(comments, order).len() + listed_text(
        comments,
        order.take(count),
    ).len()
}

proof fn lemma_listed_split(comments: Seq<Comment>, order: Seq<int>, k: int) -> (rest: Seq<char>)
    requires
        0 <= k < order.len(),
    ensures
        listed_text(comments, order) == listed_text(comments, order.take(k)) + comment_text(
            comments[order[k]],
        ) + rest,
        listed_text(comments, order.take(k + 1)) == listed_text(comments, order.take(k))
            + comment_text(comments[order[k]]),
    decreases order.len(),
{
    let next = order.take(k + 1);
    assert(next.drop_last() =~= order.take(k));
    assert(next.last() == order[k]);
    if k == order.len() - 1 {
        assert(next =~= order);
        let rest = Seq::<char>::empty();
        assert(listed_text(comments, order) =~= listed_text(comments, order.take(k))
            + comment_text(comments[order[k]]) + rest);
        rest
    } else {
        let before = order.drop_last();
        assert(before.take(k) =~= order.take(k));
        let rest = lemma_listed_split(comments, before, k);
        let all = rest + comment_text(comments[order.last()]);
        assert(listed_text(comments, order) =~= listed_text(comments, order.take(k))
            + comment_text(comments[order[k]]) + all);
        all
    }
}

/// The text for comments begins with how many there are, and shows every one of them whole:
/// comment after comment by path and first line, from the end of the one before to the end of
/// the text.
#[verifier::spinoff_prover]
#[verifier::rlimit(40)]
pub proof fn law_markdown_shows_every_comment(comments: Seq<Comment>, order: Seq<int>)
    requires
        is_listing(comments, order),
        comments.len() > 0,
    ensures
        has_at(markdown(comments, order), 0, "# Review comments ("@),
        ({
            let text = markdown(comments, order);
            let end = crate::text::digits_end(text, 19);
            &&& 19 < end < text.len() && text[end] == ')'
            &&& crate::text::digits_value(text.subrange(19, end)) == Some(comments.len())
        }),
        comment_ends(comments, order, comments.len() as int) == markdown(comments, order).len(),
        forall|k: int|
            0 <= k < order.len() ==> has_comment(
                markdown(comments, order),
                comment_ends(comments, order, k),
                comment_ends(comments, order, k + 1),
                comments[#[trigger] order[k]],
            ),
        forall|x: int|
            0 <= x < comments.len() ==> order.contains(x),
{
    lemma_markdown_head(comments, order);
    assert(order.take(order.len() as int) =~= order);
    assert forall|k: int| 0 <= k < order.len() implies has_comment(
        markdown(comments, order),
        comment_ends(comments, order, k),
        comment_ends(comments, order, k + 1),
        comments[#[trigger] order[k]],
    ) by {
        lemma_comment_at(comments, order, k);
    }
    assert forall|x: int| 0 <= x < comments.len() implies order.contains(x) by {
        let at = lemma_listing_is_full(comments, order, x);
    }
}

/// Each comment is shown from the end of the one before to its own.
#[verifier::spinoff_prover]
#[verifier::rlimit(40)]
proof fn lemma_comment_at(comments: Seq<Comment>, order: Seq<int>, k: int)
    requires
        comments.len() > 0,
        0 <= k < order.len(),
    ensures
        has_comment(
            markdown(comments, order),
            comment_ends(comments, order, k),
            comment_ends(comments, order, k + 1),
            comments[order[k]],
        ),
{
    lemma_markdown_head(comments, order);
    let head = markdown_head(comments.len());
    let rest = lemma_listed_split(comments, order, k);
    let part = listed_text(comments, order.take(k));
    let c = comments[order[k]];
    lemma_comment_shown(c, head + part, rest);
    lemma_regrouped(head, part, comment_text(c), rest);
    assert((head + part).len() == head.len() + part.len());
    assert((part + comment_text(c)).len() == part.len() + comment_text(c).len());
    assert(markdown(comments, order).len() == head.len() + listed_text(comments, order).len());
}

spec fn markdown_head(count: nat) -> Seq<char> {
    "# Review comments ("@ + crate::text::digits(count)
        + ")\n\nAddress each comment below; line numbers refer to the current files.\n"@
}

proof fn lemma_regrouped(a: Seq<char>, b: Seq<char>, c: Seq<char>, d: Seq<char>)
    ensures
        a + (b + c + d) == a + b + c + d,
{
    assert(a + (b + c + d) =~= a + b + c + d);
}

proof fn lemma_markdown_head(comments: Seq<Comment>, order: Seq<int>)
    requires
        comments.len() > 0,
    ensures
        markdown(comments, order) == markdown_head(comments.len()) + listed_text(comments, order),
        has_at(markdown(comments, order), 0, "# Review comments ("@),
        ({
            let text = markdown(comments, order);
            let end = crate::text::digits_end(text, 19);
            &&& 19 < end < text.len() && text[end] == ')'
            &&& crate::text::digits_value(text.subrange(19, end)) == Some(comments.len())
        }),
{
    reveal(has_at);
    reveal_strlit("# Review comments (");
    reveal_strlit(")\n\nAddress each comment below; line numbers refer to the current files.\n");
    let text = markdown(comments, order);
    let count = crate::text::digits(comments.len());
    let tail = ")\n\nAddress each comment below; line numbers refer to the current files.\n"@;
    let rest = tail + listed_text(comments, order);
    let end = 19 + count.len() as int;
    assert(text =~= "# Review comments ("@ + count + rest);
    assert(rest[0] == ')');
    assert(text.subrange(0, 19) =~= "# Review comments ("@);
    crate::text::law_digits_read_back(comments.len());
    assert(text.subrange(19, end) =~= count);
    assert(text[end] == rest[0]);
    assert forall|i: int| 19 <= i < end implies '0' <= #[trigger] text[i] <= '9' by {
        assert(text[i] == count[i - 19]);
    }
    crate::text::lemma_digits_end(text, 19, end);
}

/// Whether two comments say the same of the same lines.
pub open spec fn same_comment(a: Comment, b: Comment) -> bool {
    &&& a.id == b.id
    &&& a.path@ == b.path@
    &&& a.side == b.side
    &&& a.start == b.start
    &&& a.end == b.end
    &&& a.excerpt@ == b.excerpt@
    &&& a.text@ == b.text@
}

/// Whether two lists hold the same comments.
pub open spec fn same_comments(a: Seq<Comment>, b: Seq<Comment>) -> bool {
    a.len() == b.len() && forall|i: int|
        0 <= i < a.len() ==> same_comment(#[trigger] a[i], b[i])
}

impl Comment {
    /// A copy.
    pub fn copy(&self) -> (copy: Comment)
        ensures
            same_comment(*self, copy),
    {
        let mut excerpt: Vec<String> = Vec::new();
        let mut i: usize = 0;
        while i < self.excerpt.len()
            invariant
                i <= self.excerpt@.len(),
                excerpt@ == self.excerpt@.take(i as int),
            decreases self.excerpt.len() - i,
        {
            excerpt.push(self.excerpt[i].clone());
            i = i + 1;
            assert(excerpt@ =~= self.excerpt@.take(i as int));
        }
        assert(excerpt@ =~= self.excerpt@);
        Comment {
            id: self.id,
            path: self.path.clone(),
            side: self.side,
            start: self.start,
            end: self.end,
            excerpt,
            text: self.text.clone(),
        }
    }
}

/// Copies of comments.
pub fn copy_comments(comments: &[Comment]) -> (copies: Vec<Comment>)
    ensures
        same_comments(comments@, copies@),
{
    let mut copies: Vec<Comment> = Vec::new();
    let mut i: usize = 0;
    while i < comments.len()
        invariant
            i == copies@.len() <= comments@.len(),
            forall|k: int| 0 <= k < i ==> same_comment(#[trigger] comments@[k], copies@[k]),
        decreases comments.len() - i,
    {
        copies.push(comments[i].copy());
        i = i + 1;
    }
    copies
}

/// Comments are listed by path, and on one path by their first line.
pub proof fn law_comments_are_listed_by_place(comments: Seq<Comment>, order: Seq<int>, i: int, j: int)
    requires
        is_listing(comments, order),
        0 <= i < j < order.len(),
    ensures
        ({
            let (a, b) = (comments[order[i]], comments[order[j]]);
            let (p, q) = (vstd::utf8::encode_utf8(a.path@), vstd::utf8::encode_utf8(b.path@));
            &&& !order::before(q, p)
            &&& a.path@ == b.path@ ==> a.start <= b.start
            &&& a.path@ == b.path@ && a.start == b.start ==> order[i] < order[j]
        }),
{
    let (a, b) = (comments[order[i]], comments[order[j]]);
    let (p, q) = (vstd::utf8::encode_utf8(a.path@), vstd::utf8::encode_utf8(b.path@));
    assert(listed_before(comments, order[i], order[j]));
    order::lemma_irreflexive(p);
    if order::before(q, p) && order::before(p, q) {
        order::lemma_transitive(p, q, p);
    }
}

/// A comment is on the lines that it was made on: it names the old side if and only if all of
/// them were removed; each of them that has a number there lies in its range, and the ends of
/// the range are such numbers; and its excerpt shows each of them as it is, with its sign.
pub proof fn law_comments_are_on_their_lines(
    id: u64,
    path: Seq<char>,
    diff: FileDiff,
    lines: Seq<usize>,
    text: String,
    c: Comment,
    k: int,
)
    requires
        is_on_lines(id, path, diff, lines, text, Some(c)),
        0 <= k < lines.len(),
        lines[k] < diff.lines@.len(),
    ensures
        ({
            let line = diff.lines@[lines[k] as int];
            &&& c.side == Side::Old ==> line.kind == LineKind::Removed && (line.old_no matches Some(n)
                ==> c.start <= n <= c.end)
            &&& c.side == Side::New ==> (line.new_no matches Some(n) ==> c.start <= n <= c.end)
            &&& exists|e: int| #[trigger] shows_excerpt(c, e, diff, line)
        }),
        c.side == Side::New ==> exists|m: int| #[trigger] is_kept_line(diff, lines, m),
        c.start <= c.end,
        c.path@ == path && c.text == text && c.id == id,
{
    let picks = chosen(diff.lines@, lines);
    let at = lemma_chosen(diff.lines@, lines, k);
    let line = diff.lines@[lines[k] as int];
    assert(picks[at] == lines[k]);
    assert(shows_excerpt(c, at, diff, line)) by {
        assert(c.excerpt@[at]@ == excerpt_line(diff.old@, diff.new@, diff.lines@[picks[at]]));
        let shown = crate::text::lossy(diff::shown_bytes(diff.old@, diff.new@, line));
        assert(c.excerpt@[at]@.skip(1) =~= shown);
    }
    if c.side == Side::New {
        let i = choose|i: int|
            0 <= i < picks.len() && diff.lines@[#[trigger] picks[i]].kind != LineKind::Removed;
        let m = lemma_chosen_from(diff.lines@, lines, i);
        assert(is_kept_line(diff, lines, m));
    }
    let first = choose|i: int|
        0 <= i < picks.len() && number_of(diff.lines@[#[trigger] picks[i]], c.side) == Some(c.start);
    assert(number_of(diff.lines@[picks[first]], c.side) matches Some(n) ==> c.start <= n <= c.end);
}

/// Whether a chosen line is one that was not removed.
pub open spec fn is_kept_line(diff: FileDiff, lines: Seq<usize>, m: int) -> bool {
    0 <= m < lines.len() && lines[m] < diff.lines@.len() && diff.lines@[lines[m] as int].kind
        != LineKind::Removed
}

/// Whether a line of a comment's excerpt shows a line of a diff: its sign, then its text.
pub open spec fn shows_excerpt(c: Comment, e: int, diff: FileDiff, line: DiffLine) -> bool {
    let shown = c.excerpt@[e]@;
    &&& 0 <= e < c.excerpt@.len()
    &&& shown.len() > 0
    &&& shown.skip(1) == crate::text::lossy(diff::shown_bytes(diff.old@, diff.new@, line))
    &&& line.kind == LineKind::Added <==> shown[0] == '+'
    &&& line.kind == LineKind::Removed <==> shown[0] == '-'
    &&& line.kind == LineKind::Context <==> shown[0] == ' '
}

/// A line that is there and was picked is among those chosen.
proof fn lemma_chosen(lines: Seq<DiffLine>, picks: Seq<usize>, k: int) -> (at: int)
    requires
        0 <= k < picks.len(),
        picks[k] < lines.len(),
    ensures
        0 <= at < chosen(lines, picks).len(),
        chosen(lines, picks)[at] == picks[k],
    decreases picks.len(),
{
    let before = chosen(lines, picks.drop_last());
    if k == picks.len() - 1 {
        before.len() as int
    } else {
        lemma_chosen(lines, picks.drop_last(), k)
    }
}

/// What is chosen was picked.
proof fn lemma_chosen_from(lines: Seq<DiffLine>, picks: Seq<usize>, i: int) -> (m: int)
    requires
        0 <= i < chosen(lines, picks).len(),
    ensures
        0 <= m < picks.len(),
        picks[m] < lines.len(),
        chosen(lines, picks)[i] == picks[m],
    decreases picks.len(),
{
    let before = chosen(lines, picks.drop_last());
    if i < before.len() {
        lemma_chosen_from(lines, picks.drop_last(), i)
    } else {
        picks.len() - 1
    }
}

} // verus!
