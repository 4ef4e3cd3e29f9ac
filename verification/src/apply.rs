//! What applying a patch does, and that a built patch does exactly what was selected.
use vstd::prelude::*;

use crate::diff;
use crate::diff::{DiffLine, FileDiff, Hunk, LineKind};
use crate::patch;
use crate::patch::{Direction, OutLine, PatchHunk};

verus! {

/// The text lines on the side that lacks lines of kind `missing`.
pub open spec fn side_texts(
    old: Seq<u8>,
    new: Seq<u8>,
    lines: Seq<DiffLine>,
    outs: Seq<OutLine>,
    missing: LineKind,
) -> Seq<Seq<u8>>
    decreases outs.len(),
{
    if outs.len() == 0 {
        Seq::empty()
    } else {
        (if outs[0].kind == missing {
            Seq::empty()
        } else {
            seq![diff::full_line(old, new, lines[outs[0].ix as int])]
        }) + side_texts(old, new, lines, outs.drop_first(), missing)
    }
}

/// 1-based first line of a patch hunk on the side it applies to.
pub open spec fn base_first(p: PatchHunk, direction: Direction) -> int {
    match direction {
        Direction::Forward => p.old_first,
        Direction::Reverse => p.new_first,
    }
}

/// Applies the hunks of a patch, with no fuzz and no searching, to the lines of `base`
/// from line `pos` on: each hunk must name as many lines as it shows, and its context and
/// the lines that it takes away must stand in `base` at the very position that it names.
pub open spec fn applied(
    old: Seq<u8>,
    new: Seq<u8>,
    lines: Seq<DiffLine>,
    base: Seq<Seq<u8>>,
    ps: Seq<PatchHunk>,
    direction: Direction,
    pos: int,
) -> Option<Seq<Seq<u8>>>
    decreases ps.len(),
{
    if ps.len() == 0 {
        Some(base.subrange(pos, base.len() as int))
    } else {
        let p = ps[0];
        let from = base_first(p, direction) - 1;
        let before = side_texts(old, new, lines, p.lines, patch::base_missing(direction));
        let after = side_texts(old, new, lines, p.lines, patch::result_missing(direction));
        let to = from + before.len();
        if p.old_len == side_texts(old, new, lines, p.lines, LineKind::Added).len() && p.new_len
            == side_texts(old, new, lines, p.lines, LineKind::Removed).len() && pos <= from && to
            <= base.len() && base.subrange(from, to) == before {
            match applied(old, new, lines, base, ps.drop_first(), direction, to) {
                Some(rest) => Some(base.subrange(pos, from) + after + rest),
                None => None,
            }
        } else {
            None
        }
    }
}

/// The lines of the side that a patch applies to.
pub open spec fn base_lines(old: Seq<u8>, new: Seq<u8>, direction: Direction) -> Seq<Seq<u8>> {
    match direction {
        Direction::Forward => diff::lines_of(old),
        Direction::Reverse => diff::lines_of(new),
    }
}

/// Whether a diff line stands in the result: context does, a change of the base side does
/// unless it is selected, and one of the other side does if it is selected.
pub open spec fn stays(kind: LineKind, direction: Direction, selected: bool) -> bool {
    kind == LineKind::Context || (kind == patch::result_missing(direction)) != selected
}

/// The text lines of the diff lines `from..to` that stand in the result.
pub open spec fn kept(
    old: Seq<u8>,
    new: Seq<u8>,
    lines: Seq<DiffLine>,
    selected: Seq<bool>,
    direction: Direction,
    from: int,
    to: int,
) -> Seq<Seq<u8>>
    decreases to - from,
{
    if from >= to {
        Seq::empty()
    } else {
        (if stays(lines[from].kind, direction, selected[from]) {
            seq![diff::full_line(old, new, lines[from])]
        } else {
            Seq::empty()
        }) + kept(old, new, lines, selected, direction, from + 1, to)
    }
}

/// 0-based first line of a hunk on the base side.
pub open spec fn hunk_from(h: Hunk, direction: Direction) -> int {
    match direction {
        Direction::Forward => h.old_from(),
        Direction::Reverse => h.new_from(),
    }
}

/// Length of a hunk on the base side.
pub open spec fn hunk_len(h: Hunk, direction: Direction) -> int {
    match direction {
        Direction::Forward => h.old_len as int,
        Direction::Reverse => h.new_len as int,
    }
}

/// The base side with the selected changes made (or, in reverse, undone), from the diff's
/// hunk `i` and the base line `pos` on.
pub open spec fn selected_result(
    old: Seq<u8>,
    new: Seq<u8>,
    hunks: Seq<Hunk>,
    lines: Seq<DiffLine>,
    selected: Seq<bool>,
    direction: Direction,
    i: int,
    pos: int,
) -> Seq<Seq<u8>>
    decreases hunks.len() - i,
{
    let base = base_lines(old, new, direction);
    if i >= hunks.len() {
        base.subrange(pos, base.len() as int)
    } else {
        let h = hunks[i];
        let from = hunk_from(h, direction);
        base.subrange(pos, from) + kept(
            old,
            new,
            lines,
            selected,
            direction,
            h.lines.start as int,
            h.lines.end as int,
        ) + selected_result(
            old,
            new,
            hunks,
            lines,
            selected,
            direction,
            i + 1,
            from + hunk_len(h, direction),
        )
    }
}

// ---------------------------------------------------------------------------

proof fn lemma_side_len_front(outs: Seq<OutLine>, missing: LineKind)
    requires
        outs.len() > 0,
    ensures
        patch::side_len(outs, missing) == patch::side_len(outs.drop_first(), missing) + if outs[0].kind
            == missing {
            0int
        } else {
            1
        },
    decreases outs.len(),
{
    if outs.len() > 1 {
        lemma_side_len_front(outs.drop_last(), missing);
        assert(outs.drop_last().drop_first() =~= outs.drop_first().drop_last());
    } else {
        assert(outs.drop_first() =~= outs.drop_last());
    }
}

proof fn lemma_side_len(
    old: Seq<u8>,
    new: Seq<u8>,
    lines: Seq<DiffLine>,
    outs: Seq<OutLine>,
    missing: LineKind,
)
    ensures
        side_texts(old, new, lines, outs, missing).len() == patch::side_len(outs, missing),
    decreases outs.len(),
{
    if outs.len() > 0 {
        lemma_side_len_front(outs, missing);
        lemma_side_len(old, new, lines, outs.drop_first(), missing);
    }
}

/// What a patch shows of a run of diff lines: on the base side exactly the base's lines, on
/// the other side exactly the lines that stay.
proof fn lemma_shown(
    old: Seq<u8>,
    new: Seq<u8>,
    lines: Seq<DiffLine>,
    selected: Seq<bool>,
    direction: Direction,
    from: int,
    to: int,
    o: int,
    n: int,
)
    requires
        0 <= from <= to <= lines.len() <= usize::MAX,
        diff::walks(old, new, lines.subrange(from, to), o, n),
        0 <= o,
        0 <= n,
        o + diff::old_count(lines.subrange(from, to)) <= diff::lines_of(old).len() < diff::MAX_LINES,
        n + diff::new_count(lines.subrange(from, to)) <= diff::lines_of(new).len() < diff::MAX_LINES,
    ensures
        diff::old_count(lines.subrange(from, to)) >= 0,
        diff::new_count(lines.subrange(from, to)) >= 0,
        ({
            let outs = patch::out_lines(lines, selected, direction, from, to);
            let pos = match direction {
                Direction::Forward => o,
                Direction::Reverse => n,
            };
            let count = match direction {
                Direction::Forward => diff::old_count(lines.subrange(from, to)),
                Direction::Reverse => diff::new_count(lines.subrange(from, to)),
            };
            &&& side_texts(old, new, lines, outs, patch::base_missing(direction)) == base_lines(
                old,
                new,
                direction,
            ).subrange(pos, pos + count)
            &&& side_texts(old, new, lines, outs, patch::result_missing(direction)) == kept(
                old,
                new,
                lines,
                selected,
                direction,
                from,
                to,
            )
        }),
    decreases to - from,
{
    let body = lines.subrange(from, to);
    let outs = patch::out_lines(lines, selected, direction, from, to);
    let base = base_lines(old, new, direction);
    if from < to {
        let line = lines[from];
        assert(body[0] == line);
        let rest = lines.subrange(from + 1, to);
        assert(body.drop_first() =~= rest);
        let (o2, n2) = match line.kind {
            LineKind::Context => (o + 1, n + 1),
            LineKind::Removed => (o + 1, n),
            LineKind::Added => (o, n + 1),
        };
        lemma_shown(old, new, lines, selected, direction, from + 1, to, o2, n2);
        let more = patch::out_lines(lines, selected, direction, from + 1, to);
        match patch::out_kind(line.kind, direction, selected[from]) {
            Some(kind) => {
                assert(outs[0] == (OutLine { kind, ix: from as usize }));
                assert(outs.drop_first() =~= more);
            },
            None => {
                assert(outs =~= more);
            },
        }
        let (pos, pos2, count) = match direction {
            Direction::Forward => (o, o2, diff::old_count(body)),
            Direction::Reverse => (n, n2, diff::new_count(body)),
        };
        if line.kind != patch::base_missing(direction) {
            assert(diff::full_line(old, new, line) == base[pos]);
            assert(base.subrange(pos, pos + count) =~= seq![base[pos]] + base.subrange(
                pos + 1,
                pos + count,
            ));
        }
        assert(side_texts(old, new, lines, outs, patch::base_missing(direction)) =~= base.subrange(
            pos,
            pos + count,
        ));
        assert(side_texts(old, new, lines, outs, patch::result_missing(direction)) =~= kept(
            old,
            new,
            lines,
            selected,
            direction,
            from,
            to,
        ));
    } else {
        assert(side_texts(old, new, lines, outs, patch::base_missing(direction)) =~= base.subrange(
            match direction {
                Direction::Forward => o,
                Direction::Reverse => n,
            },
            match direction {
                Direction::Forward => o,
                Direction::Reverse => n,
            },
        ));
    }
}

/// Where nothing is selected, both sides of what a patch would show are the same.
proof fn lemma_kept_none(
    old: Seq<u8>,
    new: Seq<u8>,
    lines: Seq<DiffLine>,
    selected: Seq<bool>,
    direction: Direction,
    from: int,
    to: int,
)
    requires
        0 <= from <= to <= lines.len() <= usize::MAX,
        forall|ix: int|
            #![trigger selected[ix]]
            from <= ix < to ==> lines[ix].kind == LineKind::Context || !selected[ix],
    ensures
        side_texts(
            old,
            new,
            lines,
            patch::out_lines(lines, selected, direction, from, to),
            patch::base_missing(direction),
        ) == kept(old, new, lines, selected, direction, from, to),
    decreases to - from,
{
    if from < to {
        lemma_kept_none(old, new, lines, selected, direction, from + 1, to);
        let outs = patch::out_lines(lines, selected, direction, from, to);
        let more = patch::out_lines(lines, selected, direction, from + 1, to);
        assert(lines[from].kind == LineKind::Context || !selected[from]);
        match patch::out_kind(lines[from].kind, direction, selected[from]) {
            Some(kind) => {
                assert(outs[0] == (OutLine { kind, ix: from as usize }));
                assert(outs.drop_first() =~= more);
            },
            None => {
                assert(outs =~= more);
            },
        }
    }
}

proof fn lemma_join(
    base: Seq<Seq<u8>>,
    pos: int,
    reached: int,
    from: int,
    mine: Seq<Seq<u8>>,
    rest: Seq<Seq<u8>>,
)
    requires
        0 <= pos <= reached <= from <= base.len(),
    ensures
        base.subrange(pos, from) + mine + rest == base.subrange(pos, reached) + (base.subrange(
            reached,
            from,
        ) + mine + rest),
{
    assert(base.subrange(pos, from) + mine + rest =~= base.subrange(pos, reached) + (base.subrange(
        reached,
        from,
    ) + mine + rest));
}

#[verifier::rlimit(40)]
proof fn lemma_applies(
    old: Seq<u8>,
    new: Seq<u8>,
    hunks: Seq<Hunk>,
    lines: Seq<DiffLine>,
    selected: Seq<bool>,
    direction: Direction,
    i: int,
    o: int,
    n: int,
    at: int,
    offset: int,
    pos: int,
)
    requires
        diff::hunks_walk(old, new, hunks, lines, i, o, n, at),
        diff::lines_of(old).len() < diff::MAX_LINES,
        diff::lines_of(new).len() < diff::MAX_LINES,
        lines.len() <= usize::MAX,
        0 <= i <= hunks.len(),
        0 <= o <= diff::lines_of(old).len(),
        0 <= n <= diff::lines_of(new).len(),
        0 <= pos <= (match direction {
            Direction::Forward => o,
            Direction::Reverse => n,
        }),
    ensures
        ({
            let reached = match direction {
                Direction::Forward => o,
                Direction::Reverse => n,
            };
            let base = base_lines(old, new, direction);
            applied(
                old,
                new,
                lines,
                base,
                patch::patch_hunks(hunks, lines, selected, direction, i, offset),
                direction,
                pos,
            ) == Some(
                base.subrange(pos, reached) + selected_result(
                    old,
                    new,
                    hunks,
                    lines,
                    selected,
                    direction,
                    i,
                    reached,
                ),
            )
        }),
    decreases hunks.len() - i,
{
    let reached = match direction {
        Direction::Forward => o,
        Direction::Reverse => n,
    };
    let base = base_lines(old, new, direction);
    let ps = patch::patch_hunks(hunks, lines, selected, direction, i, offset);
    if i >= hunks.len() {
        assert(base.subrange(pos, base.len() as int) =~= base.subrange(pos, reached)
            + base.subrange(reached, base.len() as int));
    } else {
        let h = hunks[i];
        let from = hunk_from(h, direction);
        let to = from + hunk_len(h, direction);
        let (o2, n2) = (h.old_from() + h.old_len, h.new_from() + h.new_len);
        let (s, e) = (h.lines.start as int, h.lines.end as int);
        let mine = kept(old, new, lines, selected, direction, s, e);
        assert(h.body(lines) == lines.subrange(s, e));
        lemma_shown(
            old,
            new,
            lines,
            selected,
            direction,
            s,
            e,
            h.old_from(),
            h.new_from(),
        );
        let rest = selected_result(old, new, hunks, lines, selected, direction, i + 1, to);
        if patch::picked(lines, selected, h) {
            let p = patch::patch_hunk(lines, selected, direction, h, offset);
            let offset2 = offset + patch::growth(p, direction);
            let more = patch::patch_hunks(hunks, lines, selected, direction, i + 1, offset2);
            assert(ps[0] == p);
            assert(ps.drop_first() =~= more);
            lemma_side_len(old, new, lines, p.lines, LineKind::Added);
            lemma_side_len(old, new, lines, p.lines, LineKind::Removed);
            lemma_applies(
                old,
                new,
                hunks,
                lines,
                selected,
                direction,
                i + 1,
                o2,
                n2,
                e,
                offset2,
                to,
            );
            lemma_join(base, pos, reached, from, mine, rest);
            assert(base.subrange(to, to) + rest =~= rest);
        } else {
            lemma_kept_none(old, new, lines, selected, direction, s, e);
            lemma_applies(
                old,
                new,
                hunks,
                lines,
                selected,
                direction,
                i + 1,
                o2,
                n2,
                e,
                offset,
                pos,
            );
            lemma_join(base, pos, reached, from, mine, rest);
            assert(base.subrange(pos, to) =~= base.subrange(pos, from) + base.subrange(from, to));
        }
    }
}

/// A built patch applies without fuzz, exactly where it says, to the side that it is meant
/// for, and makes (or, in reverse, undoes) exactly the selected changes.
pub proof fn law_patch_applies(diff: FileDiff, selected: Seq<bool>, direction: Direction)
    requires
        diff.wf(),
        selected.len() == diff.lines@.len(),
    ensures
        applied(
            diff.old@,
            diff.new@,
            diff.lines@,
            base_lines(diff.old@, diff.new@, direction),
            patch::patch_hunks(diff.hunks@, diff.lines@, selected, direction, 0, 0),
            direction,
            0,
        ) == Some(
            selected_result(
                diff.old@,
                diff.new@,
                diff.hunks@,
                diff.lines@,
                selected,
                direction,
                0,
                0,
            ),
        ),
{
    assert(diff.lines.len() <= usize::MAX);
    lemma_applies(
        diff.old@,
        diff.new@,
        diff.hunks@,
        diff.lines@,
        selected,
        direction,
        0,
        0,
        0,
        0,
        0,
        0,
    );
    let base = base_lines(diff.old@, diff.new@, direction);
    let result = selected_result(
        diff.old@,
        diff.new@,
        diff.hunks@,
        diff.lines@,
        selected,
        direction,
        0,
        0,
    );
    assert(base.subrange(0, 0) + result =~= result);
}

/// Whether each hunk of a forward patch gives as its new position where its lines come to
/// stand, when the hunks before it have made the text longer by `offset` lines.
pub open spec fn placed(ps: Seq<PatchHunk>, offset: int) -> bool
    decreases ps.len(),
{
    ps.len() > 0 ==> {
        &&& ps[0].new_first == ps[0].old_first + offset
        &&& placed(ps.drop_first(), offset + ps[0].new_len - ps[0].old_len)
    }
}

proof fn lemma_placed(
    hunks: Seq<Hunk>,
    lines: Seq<DiffLine>,
    selected: Seq<bool>,
    i: int,
    offset: int,
)
    ensures
        placed(patch::patch_hunks(hunks, lines, selected, Direction::Forward, i, offset), offset),
    decreases hunks.len() - i,
{
    if i < hunks.len() {
        if patch::picked(lines, selected, hunks[i]) {
            let p = patch::patch_hunk(lines, selected, Direction::Forward, hunks[i], offset);
            let offset2 = offset + patch::growth(p, Direction::Forward);
            lemma_placed(hunks, lines, selected, i + 1, offset2);
            let ps = patch::patch_hunks(hunks, lines, selected, Direction::Forward, i, offset);
            assert(ps.drop_first() =~= patch::patch_hunks(
                hunks,
                lines,
                selected,
                Direction::Forward,
                i + 1,
                offset2,
            ));
        } else {
            lemma_placed(hunks, lines, selected, i + 1, offset);
        }
    }
}

/// The hunks of a forward patch name the positions that their lines get in the result.
pub proof fn law_forward_patch_positions(diff: FileDiff, selected: Seq<bool>)
    ensures
        placed(
            patch::patch_hunks(diff.hunks@, diff.lines@, selected, Direction::Forward, 0, 0),
            0,
        ),
{
    lemma_placed(diff.hunks@, diff.lines@, selected, 0, 0);
}

/// Where nothing that changed is selected, the patch has no hunks and the result is the
/// side that it would apply to.
pub proof fn law_nothing_selected(diff: FileDiff, selected: Seq<bool>, direction: Direction)
    requires
        diff.wf(),
        selected.len() == diff.lines@.len(),
        forall|ix: int|
            0 <= ix < selected.len() ==> diff.lines@[ix].kind == LineKind::Context
                || !#[trigger] selected[ix],
    ensures
        patch::patch_hunks(diff.hunks@, diff.lines@, selected, direction, 0, 0).len() == 0,
        selected_result(
            diff.old@,
            diff.new@,
            diff.hunks@,
            diff.lines@,
            selected,
            direction,
            0,
            0,
        ) == base_lines(diff.old@, diff.new@, direction),
{
    lemma_nothing_selected(diff, selected, direction, 0, 0, 0, 0);
    law_patch_applies(diff, selected, direction);
    let base = base_lines(diff.old@, diff.new@, direction);
    assert(base.subrange(0, base.len() as int) =~= base);
}

proof fn lemma_nothing_selected(
    diff: FileDiff,
    selected: Seq<bool>,
    direction: Direction,
    i: int,
    o: int,
    n: int,
    at: int,
)
    requires
        diff.lines@.len() == selected.len(),
        0 <= i,
        0 <= at,
        diff::hunks_walk(diff.old@, diff.new@, diff.hunks@, diff.lines@, i, o, n, at),
        forall|ix: int|
            0 <= ix < selected.len() ==> diff.lines@[ix].kind == LineKind::Context
                || !#[trigger] selected[ix],
    ensures
        patch::patch_hunks(diff.hunks@, diff.lines@, selected, direction, i, 0).len() == 0,
    decreases diff.hunks@.len() - i,
{
    if i < diff.hunks@.len() {
        let h = diff.hunks@[i];
        lemma_nothing_selected(
            diff,
            selected,
            direction,
            i + 1,
            h.old_from() + h.old_len,
            h.new_from() + h.new_len,
            h.lines.end as int,
        );
    }
}

/// Making the selected changes gives the same text as undoing the others: what staging a
/// selection puts into the index is what discarding the rest leaves in the worktree.
pub proof fn law_forward_is_reverse_of_the_rest(diff: FileDiff, selected: Seq<bool>)
    requires
        diff.wf(),
        selected.len() == diff.lines@.len(),
    ensures
        selected_result(
            diff.old@,
            diff.new@,
            diff.hunks@,
            diff.lines@,
            selected,
            Direction::Forward,
            0,
            0,
        ) == selected_result(
            diff.old@,
            diff.new@,
            diff.hunks@,
            diff.lines@,
            selected.map_values(|s: bool| !s),
            Direction::Reverse,
            0,
            0,
        ),
{
    lemma_complement(diff, selected, 0, 0, 0, 0);
}

proof fn lemma_kept_complement(
    old: Seq<u8>,
    new: Seq<u8>,
    lines: Seq<DiffLine>,
    selected: Seq<bool>,
    from: int,
    to: int,
)
    requires
        0 <= from <= to <= selected.len(),
    ensures
        kept(old, new, lines, selected, Direction::Forward, from, to) == kept(
            old,
            new,
            lines,
            selected.map_values(|s: bool| !s),
            Direction::Reverse,
            from,
            to,
        ),
    decreases to - from,
{
    if from < to {
        lemma_kept_complement(old, new, lines, selected, from + 1, to);
    }
}

proof fn lemma_complement(diff: FileDiff, selected: Seq<bool>, i: int, o: int, n: int, at: int)
    requires
        selected.len() == diff.lines@.len(),
        0 <= i,
        0 <= at,
        0 <= o,
        0 <= n,
        diff::hunks_walk(diff.old@, diff.new@, diff.hunks@, diff.lines@, i, o, n, at),
    ensures
        selected_result(
            diff.old@,
            diff.new@,
            diff.hunks@,
            diff.lines@,
            selected,
            Direction::Forward,
            i,
            o,
        ) == selected_result(
            diff.old@,
            diff.new@,
            diff.hunks@,
            diff.lines@,
            selected.map_values(|s: bool| !s),
            Direction::Reverse,
            i,
            n,
        ),
    decreases diff.hunks@.len() - i,
{
    let (old, new) = (diff::lines_of(diff.old@), diff::lines_of(diff.new@));
    if i < diff.hunks@.len() {
        let h = diff.hunks@[i];
        lemma_complement(
            diff,
            selected,
            i + 1,
            h.old_from() + h.old_len,
            h.new_from() + h.new_len,
            h.lines.end as int,
        );
        lemma_kept_complement(
            diff.old@,
            diff.new@,
            diff.lines@,
            selected,
            h.lines.start as int,
            h.lines.end as int,
        );
        lemma_same_subrange(diff.old@, diff.new@, o, n, h.old_from() - o);
    } else {
        lemma_same_subrange(diff.old@, diff.new@, o, n, old.len() - o);
    }
}

proof fn lemma_same_subrange(old: Seq<u8>, new: Seq<u8>, o: int, n: int, count: int)
    requires
        diff::same_lines(old, new, o, n, count),
    ensures
        diff::lines_of(old).subrange(o, o + count) == diff::lines_of(new).subrange(n, n + count),
{
    let a = diff::lines_of(old).subrange(o, o + count);
    let b = diff::lines_of(new).subrange(n, n + count);
    assert forall|k: int| 0 <= k < count implies a[k] == b[k] by {
        assert(diff::lines_of(old)[o + k] == diff::lines_of(new)[n + k]);
    }
    assert(a =~= b);
}

/// Where every change is selected, the result is the other side: the diff's old text with
/// all its changes made is its new text, and the other way round.
pub proof fn law_everything_selected(diff: FileDiff, selected: Seq<bool>, direction: Direction)
    requires
        diff.wf(),
        selected.len() == diff.lines@.len(),
        forall|ix: int| 0 <= ix < selected.len() ==> #[trigger] selected[ix],
    ensures
        selected_result(
            diff.old@,
            diff.new@,
            diff.hunks@,
            diff.lines@,
            selected,
            direction,
            0,
            0,
        ) == (match direction {
            Direction::Forward => diff::lines_of(diff.new@),
            Direction::Reverse => diff::lines_of(diff.old@),
        }),
{
    let others = selected.map_values(|s: bool| !s);
    match direction {
        Direction::Forward => {
            law_forward_is_reverse_of_the_rest(diff, selected);
            law_nothing_selected(diff, others, Direction::Reverse);
        },
        Direction::Reverse => {
            law_forward_is_reverse_of_the_rest(diff, others);
            assert(others.map_values(|s: bool| !s) =~= selected);
            law_nothing_selected(diff, others, Direction::Forward);
        },
    }
}

/// The lines of a text, put together again, are the text; so a patch that gives a side's
/// lines gives its bytes.
pub proof fn law_lines_make_the_text(bytes: Seq<u8>)
    ensures
        diff::lines_of(bytes).flatten() == bytes,
{
    diff::lemma_lines_flatten(bytes, 0);
    assert(bytes.subrange(0, bytes.len() as int) =~= bytes);
}

} // verus!
