use vstd::prelude::*;

use crate::display_map::{
    clip_end_spec, doc_delete, doc_slice, doc_wf, line_end_col, pos_in_doc, DisplayMap,
};
use crate::position::{Bias, Position};
use crate::selection::Selection;

verus! {

/// The editor mode an operation leaves behind: deletes return to `Normal`,
/// changes drop into `Insert`; `Visual` and `VisualLine` are the modes in
/// which the selections of this module live.
#[derive(Clone, Copy, PartialEq, Eq, Structural, Debug)]
pub enum Mode {
    Normal,
    Insert,
    Visual,
    VisualLine,
}

/// `p` with its column pushed one to the right, kept within its line: the
/// column one past a line's end clips back to the end.
pub open spec fn bump_col_spec(doc: Seq<Seq<u8>>, p: Position) -> Position
    recommends
        pos_in_doc(doc, p),
{
    let len = doc[p.row as int].len();
    if p.col < len && (p.col as int) < (usize::MAX as int) {
        Position { row: p.row, col: (p.col + 1) as usize }
    } else {
        // a valid position's column is at most the line length, so here it
        // already sits at the end of the line and stays put
        p
    }
}

/// The selection after one motion. The externally computed target is
/// clipped so the head rests on a character, the head moves there, and when
/// the selection's direction flips, the boundary the head left behind is
/// repaired by one column, compensating for the inclusive display
/// convention: a flip from reversed to forward pulls `start` back one
/// column, a flip the other way pushes `end` out one column.
pub open spec fn motion_spec(
    doc: Seq<Seq<u8>>,
    sel: Selection,
    target: Position,
    goal: Option<usize>,
) -> Selection
    recommends
        doc_wf(doc),
        sel.wf(doc),
{
    let moved = sel.with_head(clip_end_spec(doc, target), goal);
    if sel.reversed && !moved.reversed {
        let dec = Position {
            row: moved.start.row,
            col: if moved.start.col > 0 {
                (moved.start.col - 1) as usize
            } else {
                0
            },
        };
        Selection {
            id: moved.id,
            start: crate::display_map::clip_spec(doc, dec),
            end: moved.end,
            reversed: moved.reversed,
            goal: moved.goal,
        }
    } else if !sel.reversed && moved.reversed {
        Selection {
            id: moved.id,
            start: moved.start,
            end: bump_col_spec(doc, moved.end),
            reversed: moved.reversed,
            goal: moved.goal,
        }
    } else {
        moved
    }
}

/// Push `p` one column to the right, clipped within its line.
#[allow(unused_variables)]
fn extend_col(map: &DisplayMap, p: Position, bias: Bias) -> (r: Position)
    requires
        map.wf(),
        pos_in_doc(map@, p),
    ensures
        r == bump_col_spec(map@, p),
        pos_in_doc(map@, r),
{
    let len = map.line_len(p.row);
    if p.col < len {
        Position { row: p.row, col: p.col + 1 }
    } else {
        p
    }
}

/// Apply one externally computed motion result — the new target for the
/// head, and the updated sticky goal column — to one selection.
pub fn visual_motion_sel(
    map: &DisplayMap,
    sel: &mut Selection,
    target: Position,
    goal: Option<usize>,
)
    requires
        map.wf(),
        old(sel).wf(map@),
    ensures
        *final(sel) == motion_spec(map@, *old(sel), target, goal),
        final(sel).wf(map@),
{
    proof {
        crate::display_map::lemma_clip_valid(map@, target);
    }
    let new_head = map.clip_at_line_end(target);
    let was_reversed = sel.reversed;
    sel.set_head(new_head, goal);
    if was_reversed && !sel.reversed {
        // The head moved from the low end to the high end: pull the new
        // low boundary back one column so the character that used to sit
        // under the head stays outside the stored exclusive range.
        let dec = if sel.start.col > 0 {
            sel.start.col - 1
        } else {
            0
        };
        let p = Position { row: sel.start.row, col: dec };
        proof {
            assert(pos_in_doc(map@, p));
            crate::display_map::lemma_clip_idempotent(map@, p);
        }
        sel.start = map.clip_point(p, Bias::Left);
    } else if !was_reversed && sel.reversed {
        // The head moved from the high end to the low end: push the high
        // boundary out one column to keep covering the character that used
        // to sit under the head.
        sel.end = extend_col(map, sel.end, Bias::Right);
    }
}

/// Apply one motion to every selection of the batch. `targets` carries, for
/// each selection in order, the new head position and goal that the motion
/// engine computed from that selection's old head and goal.
pub fn visual_motion(
    map: &DisplayMap,
    selections: &mut Vec<Selection>,
    targets: &Vec<(Position, Option<usize>)>,
)
    requires
        map.wf(),
        crate::visual::sels_wf(map@, old(selections)@),
        targets@.len() == old(selections)@.len(),
    ensures
        final(selections)@.len() == old(selections)@.len(),
        forall|i: int|
            0 <= i < old(selections)@.len() ==> final(selections)@[i] == motion_spec(
                map@,
                old(selections)@[i],
                targets@[i].0,
                targets@[i].1,
            ),
        sels_wf(map@, final(selections)@),
{
    let n = selections.len();
    let mut i: usize = 0;
    while i < n
        invariant
            map.wf(),
            n == selections@.len(),
            n == old(selections)@.len(),
            targets@.len() == n,
            0 <= i <= n,
            forall|j: int|
                0 <= j < i ==> selections@[j] == motion_spec(
                    map@,
                    old(selections)@[j],
                    targets@[j].0,
                    targets@[j].1,
                ),
            forall|j: int| i <= j < n ==> selections@[j] == old(selections)@[j],
            forall|j: int| 0 <= j < n ==> (#[trigger] selections@[j]).wf(map@),
        decreases n - i,
    {
        let (target, goal) = targets[i];
        let sel = vstd::std_specs::vec::vec_index_mut(selections, i);
        visual_motion_sel(map, sel, target, goal);
        i = i + 1;
    }
}

/// Every selection of the batch is well formed over `doc`.
pub open spec fn sels_wf(doc: Seq<Seq<u8>>, sels: Seq<Selection>) -> bool {
    forall|i: int| 0 <= i < sels.len() ==> (#[trigger] sels[i]).wf(doc)
}

/// The batch is ordered front to back: each selection's range ends no
/// later than the next begins (touching is allowed).
pub open spec fn ranges_ordered(sels: Seq<Selection>) -> bool {
    forall|i: int|
        0 <= i && i + 1 < sels.len() ==> (#[trigger] sels[i]).end.le(sels[i + 1].start)
}

/// Each selection of the batch ends strictly before the next begins.
pub open spec fn sels_separated(sels: Seq<Selection>) -> bool {
    forall|i: int|
        0 <= i && i + 1 < sels.len() ==> (#[trigger] sels[i]).end.lt(sels[i + 1].start)
}

/// No two selections of the batch share an identity.
pub open spec fn sel_ids_distinct(sels: Seq<Selection>) -> bool {
    forall|i: int, j: int|
        0 <= i < j < sels.len() ==> (#[trigger] sels[i]).id != (#[trigger] sels[j]).id
}

/// Where a position at or past `e` lands once the exclusive range `[s, e)`
/// ahead of it has been removed: the rows the range swallowed close up,
/// and a position on the range's last row moves onto the merged line, just
/// after the kept prefix.
pub open spec fn shift_after_delete(p: Position, s: Position, e: Position) -> Position
    recommends
        s.le(e),
        e.le(p),
{
    if p.row == e.row {
        Position { row: s.row, col: (s.col + (p.col - e.col)) as usize }
    } else {
        Position { row: (p.row - (e.row - s.row)) as usize, col: p.col }
    }
}

/// The column arithmetic of `shift_after_delete` stays within `usize`.
spec fn shift_fits(p: Position, s: Position, e: Position) -> bool {
    p.row == e.row ==> s.col + p.col - e.col <= usize::MAX
}

/// A selection with both endpoints re-addressed after `[s, e)` is removed.
pub open spec fn shift_sel(x: Selection, s: Position, e: Position) -> Selection {
    Selection {
        id: x.id,
        start: shift_after_delete(x.start, s, e),
        end: shift_after_delete(x.end, s, e),
        reversed: x.reversed,
        goal: x.goal,
    }
}

pub open spec fn shift_sels(sels: Seq<Selection>, s: Position, e: Position) -> Seq<Selection> {
    sels.map_values(|x: Selection| shift_sel(x, s, e))
}

/// The document once every selection's range is removed, front to back:
/// each step removes the first range and re-addresses the ranges still to
/// come in the shrunk document.
pub open spec fn fold_delete_doc(doc: Seq<Seq<u8>>, sels: Seq<Selection>) -> Seq<Seq<u8>>
    decreases sels.len(),
{
    if sels.len() == 0 {
        doc
    } else {
        fold_delete_doc(
            doc_delete(doc, sels[0].start, sels[0].end),
            shift_sels(sels.skip(1), sels[0].start, sels[0].end),
        )
    }
}

/// The spot each removed range collapses to, in the coordinates of the
/// document that remains when all the ranges are gone.
pub open spec fn fold_delete_cursors(sels: Seq<Selection>) -> Seq<Position>
    decreases sels.len(),
{
    if sels.len() == 0 {
        Seq::empty()
    } else {
        seq![sels[0].start] + fold_delete_cursors(
            shift_sels(sels.skip(1), sels[0].start, sels[0].end),
        )
    }
}

/// Re-addressing after a removal keeps positions in order, and never moves
/// one before the removed range's start.
proof fn lemma_shift_le(s: Position, e: Position, p: Position, q: Position)
    requires
        s.le(e),
        e.le(p),
        p.le(q),
        shift_fits(p, s, e),
        shift_fits(q, s, e),
    ensures
        shift_after_delete(p, s, e).le(shift_after_delete(q, s, e)),
        s.le(shift_after_delete(p, s, e)),
{
}

/// In an ordered batch, the first range ends at or before every later
/// selection begins.
proof fn lemma_ordered_chain(sels: Seq<Selection>, k: int)
    requires
        ranges_ordered(sels),
        forall|i: int| 0 <= i < sels.len() ==> (#[trigger] sels[i]).ordered(),
        1 <= k < sels.len(),
    ensures
        sels[0].end.le(sels[k].start),
    decreases k,
{
    if k > 1 {
        lemma_ordered_chain(sels, k - 1);
    }
}

/// Removing a range keeps every position at or before its start valid, at
/// the same coordinates.
proof fn lemma_delete_keeps_prefix(doc: Seq<Seq<u8>>, s: Position, e: Position, p: Position)
    requires
        pos_in_doc(doc, p),
        pos_in_doc(doc, s),
        pos_in_doc(doc, e),
        s.le(e),
        p.le(s),
    ensures
        pos_in_doc(doc_delete(doc, s, e), p),
{
    let d = doc_delete(doc, s, e);
    if p.row < s.row {
        assert(d[p.row as int] == doc[p.row as int]);
    } else {
        assert(d[p.row as int] == doc[s.row as int].take(s.col as int) + doc[e.row as int].skip(
            e.col as int,
        ));
    }
}

/// Re-address `p` after the removal of `[s, e)`, against the already
/// shrunk document: `doc0` is the document the removal started from.
fn shift_pos(
    map: &DisplayMap,
    p: Position,
    s: Position,
    e: Position,
    Ghost(doc0): Ghost<Seq<Seq<u8>>>,
) -> (r: Position)
    requires
        map@ == doc_delete(doc0, s, e),
        doc_wf(doc0),
        pos_in_doc(doc0, s),
        pos_in_doc(doc0, e),
        pos_in_doc(doc0, p),
        s.le(e),
        e.le(p),
    ensures
        r == shift_after_delete(p, s, e),
        pos_in_doc(map@, r),
        shift_fits(p, s, e),
{
    if p.row == e.row {
        let merged_len = map.line_len(s.row);
        proof {
            assert(map@[s.row as int] == doc0[s.row as int].take(s.col as int) + doc0[
                e.row as int
            ].skip(e.col as int));
            assert(s.col + (p.col - e.col) <= merged_len);
        }
        Position { row: s.row, col: s.col + (p.col - e.col) }
    } else {
        let r = Position { row: p.row - (e.row - s.row), col: p.col };
        proof {
            assert(map@[r.row as int] == doc0[p.row as int]);
        }
        r
    }
}

/// Capture and then remove every selection's range, front to back. On
/// return, each selection's `start` is the spot its removed range
/// collapsed to, in final-document coordinates; `id` and `goal` are
/// untouched, and `copies` holds each range's text in input order.
#[verifier::rlimit(100)]
fn remove_ranges(map: &mut DisplayMap, selections: &mut Vec<Selection>) -> (copies: Vec<
    Vec<Vec<u8>>,
>)
    requires
        old(map).wf(),
        sels_wf(old(map)@, old(selections)@),
        ranges_ordered(old(selections)@),
    ensures
        final(map)@ == fold_delete_doc(old(map)@, old(selections)@),
        final(map).wf(),
        final(selections)@.len() == old(selections)@.len(),
        final(selections)@.map_values(|x: Selection| x.start) == fold_delete_cursors(
            old(selections)@,
        ),
        forall|j: int|
            0 <= j < old(selections)@.len() ==> (#[trigger] final(selections)@[j]).id == old(
                selections,
            )@[j].id && final(selections)@[j].goal == old(selections)@[j].goal,
        forall|j: int|
            0 <= j < old(selections)@.len() ==> pos_in_doc(
                final(map)@,
                (#[trigger] final(selections)@[j]).start,
            ),
        copies.deep_view() == Seq::new(
            old(selections)@.len(),
            |j: int| doc_slice(old(map)@, old(selections)@[j].start, old(selections)@[j].end),
        ),
{
    let ghost doc0 = map@;
    let ghost sels0 = selections@;
    let n = selections.len();

    // the clipboard first, from the still unedited document
    let mut copies: Vec<Vec<Vec<u8>>> = Vec::new();
    let mut i: usize = 0;
    while i < n
        invariant
            0 <= i <= n,
            n == sels0.len(),
            map@ == doc0,
            map.wf(),
            selections@ == sels0,
            sels_wf(doc0, sels0),
            copies@.len() == i,
            forall|j: int|
                0 <= j < i ==> (#[trigger] copies@[j]).deep_view() == doc_slice(
                    doc0,
                    sels0[j].start,
                    sels0[j].end,
                ),
        decreases n - i,
    {
        let st = selections[i].start;
        let en = selections[i].end;
        copies.push(map.copy_range(st, en));
        i = i + 1;
    }
    proof {
        assert(copies.deep_view() =~= Seq::new(
            sels0.len(),
            |j: int| doc_slice(doc0, sels0[j].start, sels0[j].end),
        ));
    }

    // remove the ranges front to back; each removal re-addresses the
    // ranges still to come and leaves that range's cursor at its start
    proof {
        assert(selections@.skip(0) =~= selections@);
        assert(selections@.take(0).map_values(|x: Selection| x.start)
            =~= Seq::<Position>::empty());
    }
    let mut i: usize = 0;
    while i < n
        invariant
            0 <= i <= n,
            n == sels0.len(),
            n == selections@.len(),
            map.wf(),
            sels_wf(map@, selections@.skip(i as int)),
            ranges_ordered(selections@.skip(i as int)),
            fold_delete_doc(doc0, sels0) == fold_delete_doc(map@, selections@.skip(i as int)),
            fold_delete_cursors(sels0) == selections@.take(i as int).map_values(
                |x: Selection| x.start,
            ) + fold_delete_cursors(selections@.skip(i as int)),
            forall|j: int|
                0 <= j < n ==> (#[trigger] selections@[j]).id == sels0[j].id
                    && selections@[j].goal == sels0[j].goal,
            forall|j: int|
                0 <= j < i ==> pos_in_doc(map@, (#[trigger] selections@[j]).start),
            forall|j: int|
                0 <= j < i && i < n ==> (#[trigger] selections@[j]).start.le(
                    selections@[i as int].start,
                ),
        decreases n - i,
    {
        let ghost pre = selections@;
        let ghost doc_before = map@;
        let s = selections[i].start;
        let e = selections[i].end;
        proof {
            assert(pre.skip(i as int)[0] == pre[i as int]);
        }
        map.delete_range(s, e);
        proof {
            assert forall|j: int| 0 <= j < i implies pos_in_doc(
                map@,
                (#[trigger] selections@[j]).start,
            ) by {
                lemma_delete_keeps_prefix(doc_before, s, e, selections@[j].start);
            }
        }
        let mut j: usize = i + 1;
        while j < n
            invariant
                i < j <= n,
                i < n,
                n == selections@.len(),
                n == pre.len(),
                map@ == doc_delete(doc_before, s, e),
                map.wf(),
                doc_wf(doc_before),
                s == pre[i as int].start,
                e == pre[i as int].end,
                pos_in_doc(doc_before, s),
                pos_in_doc(doc_before, e),
                s.le(e),
                sels_wf(doc_before, pre.skip(i as int)),
                ranges_ordered(pre.skip(i as int)),
                forall|k: int| 0 <= k <= i ==> selections@[k] == pre[k],
                forall|k: int| j <= k < n ==> selections@[k] == pre[k],
                forall|k: int|
                    i < k < j ==> selections@[k] == shift_sel(pre[k], s, e),
                forall|k: int|
                    i < k < j ==> (#[trigger] selections@[k]).wf(map@) && shift_fits(
                        pre[k].start,
                        s,
                        e,
                    ) && shift_fits(pre[k].end, s, e),
            decreases n - j,
        {
            proof {
                lemma_ordered_chain(pre.skip(i as int), j - i);
                assert(pre.skip(i as int)[j - i] == pre[j as int]);
            }
            let st = selections[j].start;
            let en = selections[j].end;
            let new_start = shift_pos(map, st, s, e, Ghost(doc_before));
            let new_end = shift_pos(map, en, s, e, Ghost(doc_before));
            proof {
                lemma_shift_le(s, e, st, en);
            }
            let slot = vstd::std_specs::vec::vec_index_mut(selections, j);
            slot.start = new_start;
            slot.end = new_end;
            j = j + 1;
        }
        proof {
            // the suffix now reads exactly as the fold's next step expects
            assert(selections@.skip(i + 1) =~= shift_sels(pre.skip(i + 1), s, e));
            assert(pre.skip(i as int).skip(1) =~= pre.skip(i + 1));
            assert(shift_sels(pre.skip(i as int).skip(1), s, e) =~= selections@.skip(i + 1));
            assert(fold_delete_doc(doc_before, pre.skip(i as int)) == fold_delete_doc(
                map@,
                selections@.skip(i + 1),
            ));
            assert(selections@.take(i + 1).map_values(|x: Selection| x.start) =~= pre.take(
                i as int,
            ).map_values(|x: Selection| x.start).push(s));
            assert(fold_delete_cursors(pre.skip(i as int)) == seq![s] + fold_delete_cursors(
                selections@.skip(i + 1),
            ));
            // ordering of the re-addressed suffix
            assert forall|k: int| 0 <= k && k + 1 < selections@.skip(i + 1).len() implies (
            #[trigger] selections@.skip(i + 1)[k]).end.le(
                selections@.skip(i + 1)[k + 1].start,
            ) by {
                let a = pre[i + 1 + k];
                let b = pre[i + 1 + k + 1];
                assert(pre.skip(i as int)[k + 1] == a);
                assert(pre.skip(i as int)[k + 2] == b);
                lemma_ordered_chain(pre.skip(i as int), k + 1);
                lemma_shift_le(s, e, a.end, b.start);
            }
            // the cursor just laid down sits at or before the next range
            if i + 1 < n {
                lemma_ordered_chain(pre.skip(i as int), 1);
                lemma_shift_le(s, e, pre[i + 1].start, pre[i + 1].start);
            }
        }
        i = i + 1;
    }
    proof {
        assert(selections@.skip(n as int) =~= Seq::<Selection>::empty());
        assert(fold_delete_doc(map@, selections@.skip(n as int)) == map@);
        assert(selections@.take(n as int) =~= selections@);
    }
    copies
}

/// What an operation copied before removing text: one entry per selection,
/// each the removed range's line fragments in document order, and whether
/// the copy is linewise (a paste then reinserts whole lines).
pub struct Clipboard {
    pub copies: Vec<Vec<Vec<u8>>>,
    pub linewise: bool,
}

/// The exclusive range a characterwise operation removes: when the head is
/// at the high end, the stored `end` still excludes the character under
/// the cursor, so the end is pushed one column out (within its line); a
/// reversed selection's range is already exact.
pub open spec fn char_adjusted(doc: Seq<Seq<u8>>, x: Selection) -> Selection {
    if !x.reversed {
        Selection {
            id: x.id,
            start: x.start,
            end: bump_col_spec(doc, x.end),
            reversed: x.reversed,
            goal: x.goal,
        }
    } else {
        x
    }
}

/// The whole-line range a linewise delete removes. The start moves to the
/// beginning of its line; when lines follow the range, the end moves to
/// the start of the next line, so the range keeps its own terminator; when
/// none do but a line precedes, the start instead backs up over the
/// previous line's terminator; a range covering the whole document simply
/// runs to the last line's end.
pub open spec fn line_delete_adjusted(doc: Seq<Seq<u8>>, x: Selection) -> Selection {
    if x.end.row + 1 < doc.len() && (x.end.row as int) < (usize::MAX as int) {
        Selection {
            id: x.id,
            start: Position { row: x.start.row, col: 0 },
            end: Position { row: (x.end.row + 1) as usize, col: 0 },
            reversed: x.reversed,
            goal: x.goal,
        }
    } else if x.start.row > 0 {
        Selection {
            id: x.id,
            start: Position {
                row: (x.start.row - 1) as usize,
                col: line_end_col(doc[x.start.row - 1]),
            },
            end: Position { row: x.end.row, col: line_end_col(doc[x.end.row as int]) },
            reversed: x.reversed,
            goal: x.goal,
        }
    } else {
        Selection {
            id: x.id,
            start: Position { row: x.start.row, col: 0 },
            end: Position { row: x.end.row, col: line_end_col(doc[x.end.row as int]) },
            reversed: x.reversed,
            goal: x.goal,
        }
    }
}

/// The range a linewise change removes: the full content of the covered
/// lines, from the first line's start to the last line's end, leaving
/// every line terminator in place.
pub open spec fn line_change_adjusted(doc: Seq<Seq<u8>>, x: Selection) -> Selection {
    Selection {
        id: x.id,
        start: Position { row: x.start.row, col: 0 },
        end: Position { row: x.end.row, col: line_end_col(doc[x.end.row as int]) },
        reversed: x.reversed,
        goal: x.goal,
    }
}

/// Strictly separated selections stay ordered once their ends are pushed
/// out one column, and each adjusted selection stays well formed.
proof fn lemma_char_adjusted_props(doc: Seq<Seq<u8>>, sels: Seq<Selection>)
    requires
        doc_wf(doc),
        sels_wf(doc, sels),
        sels_separated(sels),
    ensures
        sels_wf(doc, sels.map_values(|x: Selection| char_adjusted(doc, x))),
        ranges_ordered(sels.map_values(|x: Selection| char_adjusted(doc, x))),
{
    let adj = sels.map_values(|x: Selection| char_adjusted(doc, x));
    assert forall|i: int| 0 <= i < adj.len() implies (#[trigger] adj[i]).wf(doc) by {
        assert(sels[i].wf(doc));
    }
    assert forall|i: int| 0 <= i && i + 1 < adj.len() implies (#[trigger] adj[i]).end.le(
        adj[i + 1].start,
    ) by {
        assert(sels[i].wf(doc));
        assert(sels[i + 1].wf(doc));
        assert(sels[i].end.lt(sels[i + 1].start));
    }
}

/// Linewise-adjusted selections stay well formed.
proof fn lemma_line_adjusted_wf(doc: Seq<Seq<u8>>, sels: Seq<Selection>)
    requires
        doc_wf(doc),
        sels_wf(doc, sels),
    ensures
        sels_wf(doc, sels.map_values(|x: Selection| line_delete_adjusted(doc, x))),
        sels_wf(doc, sels.map_values(|x: Selection| line_change_adjusted(doc, x))),
{
    let adj = sels.map_values(|x: Selection| line_delete_adjusted(doc, x));
    assert forall|i: int| 0 <= i < adj.len() implies (#[trigger] adj[i]).wf(doc) by {
        assert(sels[i].wf(doc));
    }
    let adjc = sels.map_values(|x: Selection| line_change_adjusted(doc, x));
    assert forall|i: int| 0 <= i < adjc.len() implies (#[trigger] adjc[i]).wf(doc) by {
        assert(sels[i].wf(doc));
    }
}

/// Selections on disjoint lines expand, for a linewise change, to ranges
/// that stay in order.
proof fn lemma_line_change_ordered(doc: Seq<Seq<u8>>, sels: Seq<Selection>)
    requires
        doc_wf(doc),
        sels_wf(doc, sels),
        forall|i: int|
            0 <= i && i + 1 < sels.len() ==> (#[trigger] sels[i]).end.row < sels[i + 1].start.row,
    ensures
        ranges_ordered(sels.map_values(|x: Selection| line_change_adjusted(doc, x))),
{
    let adj = sels.map_values(|x: Selection| line_change_adjusted(doc, x));
    assert forall|i: int| 0 <= i && i + 1 < adj.len() implies (#[trigger] adj[i]).end.le(
        adj[i + 1].start,
    ) by {
        assert(sels[i].end.row < sels[i + 1].start.row);
    }
}

/// Push every non-reversed selection's end one column out.
fn char_adjust_all(map: &DisplayMap, selections: &mut Vec<Selection>, bias: Bias)
    requires
        map.wf(),
        sels_wf(map@, old(selections)@),
    ensures
        final(selections)@ == old(selections)@.map_values(
            |x: Selection| char_adjusted(map@, x),
        ),
{
    let ghost sels0 = selections@;
    let n = selections.len();
    let mut i: usize = 0;
    while i < n
        invariant
            0 <= i <= n,
            n == selections@.len(),
            n == sels0.len(),
            map.wf(),
            sels_wf(map@, sels0),
            forall|j: int| 0 <= j < i ==> selections@[j] == char_adjusted(map@, sels0[j]),
            forall|j: int| i <= j < n ==> selections@[j] == sels0[j],
        decreases n - i,
    {
        proof {
            assert(sels0[i as int].wf(map@));
        }
        let reversed = selections[i].reversed;
        if !reversed {
            let en = selections[i].end;
            let new_end = extend_col(map, en, bias);
            let slot = vstd::std_specs::vec::vec_index_mut(selections, i);
            slot.end = new_end;
        }
        i = i + 1;
    }
    proof {
        assert(selections@ =~= sels0.map_values(|x: Selection| char_adjusted(map@, x)));
    }
}

/// Collapse every selection to the spot its removed range left behind,
/// clipped so the cursor rests on a character when `clip` asks for it.
fn collapse_all(map: &DisplayMap, selections: &mut Vec<Selection>, clip: bool)
    requires
        map.wf(),
        forall|j: int|
            0 <= j < old(selections)@.len() ==> pos_in_doc(
                map@,
                (#[trigger] old(selections)@[j]).start,
            ),
    ensures
        final(selections)@.len() == old(selections)@.len(),
        forall|j: int|
            0 <= j < old(selections)@.len() ==> final(selections)@[j] == (
            #[trigger] old(selections)@[j]).collapsed_to(
                if clip {
                    clip_end_spec(map@, old(selections)@[j].start)
                } else {
                    old(selections)@[j].start
                },
                old(selections)@[j].goal,
            ),
        sels_wf(map@, final(selections)@),
{
    let ghost sels0 = selections@;
    let n = selections.len();
    let mut i: usize = 0;
    while i < n
        invariant
            0 <= i <= n,
            n == selections@.len(),
            n == sels0.len(),
            map.wf(),
            forall|j: int|
                0 <= j < sels0.len() ==> pos_in_doc(map@, (#[trigger] sels0[j]).start),
            forall|j: int|
                0 <= j < i ==> selections@[j] == (#[trigger] sels0[j]).collapsed_to(
                    if clip {
                        clip_end_spec(map@, sels0[j].start)
                    } else {
                        sels0[j].start
                    },
                    sels0[j].goal,
                ),
            forall|j: int| i <= j < n ==> selections@[j] == sels0[j],
            forall|j: int| 0 <= j < i ==> (#[trigger] selections@[j]).wf(map@),
        decreases n - i,
    {
        let st = selections[i].start;
        let cursor = if clip {
            map.clip_at_line_end(st)
        } else {
            st
        };
        proof {
            crate::display_map::lemma_clip_valid(map@, st);
            assert(st == sels0[i as int].start);
            assert(pos_in_doc(map@, sels0[i as int].start));
            assert(pos_in_doc(map@, cursor));
        }
        let goal = selections[i].goal;
        let slot = vstd::std_specs::vec::vec_index_mut(selections, i);
        slot.collapse_to(cursor, goal);
        proof {
            assert(selections@[i as int].wf(map@));
        }
        i = i + 1;
    }
}

/// The selections a characterwise delete leaves behind: each collapsed to
/// where its removed range was, clipped onto a character of the final
/// document.
pub open spec fn delete_result_sels(doc0: Seq<Seq<u8>>, adj: Seq<Selection>) -> Seq<Selection> {
    let docf = fold_delete_doc(doc0, adj);
    let curs = fold_delete_cursors(adj);
    Seq::new(
        adj.len(),
        |i: int| adj[i].collapsed_to(clip_end_spec(docf, curs[i]), adj[i].goal),
    )
}

/// The selections a characterwise change leaves behind: each collapsed to
/// where its removed range was, unclipped — insert mode may rest at a
/// line's very end.
pub open spec fn change_result_sels(doc0: Seq<Seq<u8>>, adj: Seq<Selection>) -> Seq<Selection> {
    let curs = fold_delete_cursors(adj);
    Seq::new(adj.len(), |i: int| adj[i].collapsed_to(curs[i], adj[i].goal))
}

/// Delete the selected text: extend each non-reversed selection's end over
/// the character under the cursor, capture the ranges, remove them as one
/// batch, and leave each cursor on a character where its range was. Ends
/// in normal mode.
pub fn delete(map: &mut DisplayMap, selections: &mut Vec<Selection>) -> (r: (Clipboard, Mode))
    requires
        old(map).wf(),
        sels_wf(old(map)@, old(selections)@),
        sels_separated(old(selections)@),
    ensures
        ({
            let adj = old(selections)@.map_values(
                |x: Selection| char_adjusted(old(map)@, x),
            );
            &&& final(map)@ == fold_delete_doc(old(map)@, adj)
            &&& final(map).wf()
            &&& final(selections)@ == delete_result_sels(old(map)@, adj)
            &&& sels_wf(final(map)@, final(selections)@)
            &&& r.0.copies.deep_view() == Seq::new(
                adj.len(),
                |j: int| doc_slice(old(map)@, adj[j].start, adj[j].end),
            )
            &&& r.0.linewise == false
            &&& r.1 == Mode::Normal
        }),
{
    let ghost doc0 = map@;
    let ghost sels0 = selections@;
    proof {
        lemma_char_adjusted_props(doc0, sels0);
    }
    char_adjust_all(map, selections, Bias::Right);
    let ghost adj = selections@;
    let copies = remove_ranges(map, selections);
    collapse_all(map, selections, true);
    proof {
        assert(selections@ =~= delete_result_sels(doc0, adj));
    }
    (Clipboard { copies, linewise: false }, Mode::Normal)
}

/// Change the selected text: like `delete`, but the end extension stops at
/// the line's content, the cursor is left unclipped where the removed text
/// began, and the editor drops into insert mode.
pub fn change(map: &mut DisplayMap, selections: &mut Vec<Selection>) -> (r: (Clipboard, Mode))
    requires
        old(map).wf(),
        sels_wf(old(map)@, old(selections)@),
        sels_separated(old(selections)@),
    ensures
        ({
            let adj = old(selections)@.map_values(
                |x: Selection| char_adjusted(old(map)@, x),
            );
            &&& final(map)@ == fold_delete_doc(old(map)@, adj)
            &&& final(map).wf()
            &&& final(selections)@ == change_result_sels(old(map)@, adj)
            &&& sels_wf(final(map)@, final(selections)@)
            &&& r.0.copies.deep_view() == Seq::new(
                adj.len(),
                |j: int| doc_slice(old(map)@, adj[j].start, adj[j].end),
            )
            &&& r.0.linewise == false
            &&& r.1 == Mode::Insert
        }),
{
    let ghost doc0 = map@;
    let ghost sels0 = selections@;
    proof {
        lemma_char_adjusted_props(doc0, sels0);
    }
    char_adjust_all(map, selections, Bias::Left);
    let ghost adj = selections@;
    let copies = remove_ranges(map, selections);
    collapse_all(map, selections, false);
    proof {
        assert(selections@ =~= change_result_sels(doc0, adj));
    }
    (Clipboard { copies, linewise: false }, Mode::Insert)
}

/// The side table a linewise delete records before any mutation: each
/// selection's identity paired with the column its head sat in.
spec fn columns_of(sels: Seq<Selection>) -> Seq<(usize, usize)> {
    sels.map_values(|x: Selection| (x.id, x.head_spec().col))
}

/// The first column recorded under `id`, if any.
spec fn table_lookup(t: Seq<(usize, usize)>, id: usize) -> Option<usize>
    decreases t.len(),
{
    if t.len() == 0 {
        None
    } else if t[0].0 == id {
        Some(t[0].1)
    } else {
        table_lookup(t.skip(1), id)
    }
}

fn lookup_column(table: &Vec<(usize, usize)>, id: usize) -> (r: Option<usize>)
    ensures
        r == table_lookup(table@, id),
{
    let n = table.len();
    proof {
        assert(table@.skip(0) =~= table@);
    }
    let mut i: usize = 0;
    while i < n
        invariant
            0 <= i <= n,
            n == table@.len(),
            table_lookup(table@, id) == table_lookup(table@.skip(i as int), id),
        decreases n - i,
    {
        proof {
            assert(table@.skip(i as int)[0] == table@[i as int]);
            assert(table@.skip(i as int).skip(1) =~= table@.skip(i + 1));
        }
        let (tid, col) = table[i];
        if tid == id {
            return Some(col);
        }
        i = i + 1;
    }
    proof {
        assert(table@.skip(n as int) =~= Seq::<(usize, usize)>::empty());
    }
    None
}

/// With distinct identities, the table gives back exactly the column that
/// was recorded for each selection.
proof fn lemma_columns_lookup(sels: Seq<Selection>, i: int)
    requires
        sel_ids_distinct(sels),
        0 <= i < sels.len(),
    ensures
        table_lookup(columns_of(sels), sels[i].id) == Some(sels[i].head_spec().col),
    decreases i,
{
    let t = columns_of(sels);
    if i == 0 {
        assert(t[0].0 == sels[0].id);
    } else {
        assert(t[0].0 == sels[0].id);
        assert(sels[0].id != sels[i].id);
        assert(t.skip(1) =~= columns_of(sels.skip(1)));
        assert forall|a: int, b: int| 0 <= a < b < sels.skip(1).len() implies (
        #[trigger] sels.skip(1)[a]).id != (#[trigger] sels.skip(1)[b]).id by {
            assert(sels[a + 1].id != sels[b + 1].id);
        }
        lemma_columns_lookup(sels.skip(1), i - 1);
        assert(sels.skip(1)[i - 1] == sels[i]);
    }
}

/// Expand every selection to the whole-line range a linewise delete
/// removes.
fn line_delete_adjust_all(map: &DisplayMap, selections: &mut Vec<Selection>)
    requires
        map.wf(),
        sels_wf(map@, old(selections)@),
    ensures
        final(selections)@ == old(selections)@.map_values(
            |x: Selection| line_delete_adjusted(map@, x),
        ),
{
    let ghost sels0 = selections@;
    let n = selections.len();
    let n_lines = map.num_lines();
    let mut i: usize = 0;
    while i < n
        invariant
            0 <= i <= n,
            n == selections@.len(),
            n == sels0.len(),
            map.wf(),
            n_lines == map@.len(),
            sels_wf(map@, sels0),
            forall|j: int|
                0 <= j < i ==> selections@[j] == line_delete_adjusted(map@, sels0[j]),
            forall|j: int| i <= j < n ==> selections@[j] == sels0[j],
        decreases n - i,
    {
        proof {
            assert(sels0[i as int].wf(map@));
        }
        let st = selections[i].start;
        let en = selections[i].end;
        let line_start = map.prev_line_boundary(st);
        let new_sel: (Position, Position) = if en.row + 1 < n_lines {
            (line_start, Position { row: en.row + 1, col: 0 })
        } else if line_start.row > 0 {
            let prow = line_start.row - 1;
            (Position { row: prow, col: map.line_len(prow) }, map.next_line_boundary(en))
        } else {
            (line_start, map.next_line_boundary(en))
        };
        let slot = vstd::std_specs::vec::vec_index_mut(selections, i);
        slot.start = new_sel.0;
        slot.end = new_sel.1;
        i = i + 1;
    }
    proof {
        assert(selections@ =~= sels0.map_values(|x: Selection| line_delete_adjusted(map@, x)));
    }
}

/// Expand every selection to the content of the lines it covers, leaving
/// every line terminator in place, as a linewise change removes.
fn line_change_adjust_all(map: &DisplayMap, selections: &mut Vec<Selection>)
    requires
        map.wf(),
        sels_wf(map@, old(selections)@),
    ensures
        final(selections)@ == old(selections)@.map_values(
            |x: Selection| line_change_adjusted(map@, x),
        ),
{
    let ghost sels0 = selections@;
    let n = selections.len();
    let mut i: usize = 0;
    while i < n
        invariant
            0 <= i <= n,
            n == selections@.len(),
            n == sels0.len(),
            map.wf(),
            sels_wf(map@, sels0),
            forall|j: int|
                0 <= j < i ==> selections@[j] == line_change_adjusted(map@, sels0[j]),
            forall|j: int| i <= j < n ==> selections@[j] == sels0[j],
        decreases n - i,
    {
        proof {
            assert(sels0[i as int].wf(map@));
        }
        let st = selections[i].start;
        let en = selections[i].end;
        let line_start = map.prev_line_boundary(st);
        let line_end = map.next_line_boundary(en);
        let slot = vstd::std_specs::vec::vec_index_mut(selections, i);
        slot.start = line_start;
        slot.end = line_end;
        i = i + 1;
    }
    proof {
        assert(selections@ =~= sels0.map_values(|x: Selection| line_change_adjusted(map@, x)));
    }
}

/// The selections a linewise delete leaves behind: each collapsed onto the
/// line that took the deleted lines' place, at the column its head
/// started in, clipped to that line.
pub open spec fn line_delete_result_sels(doc0: Seq<Seq<u8>>, sels: Seq<Selection>) -> Seq<
    Selection,
> {
    let adj = sels.map_values(|x: Selection| line_delete_adjusted(doc0, x));
    let docf = fold_delete_doc(doc0, adj);
    let curs = fold_delete_cursors(adj);
    Seq::new(
        sels.len(),
        |i: int| adj[i].collapsed_to(
            clip_end_spec(docf, (Position { row: curs[i].row, col: sels[i].head_spec().col })),
            adj[i].goal,
        ),
    )
}

/// Delete whole lines: record every head's column, expand each selection
/// to whole-line boundaries with the document-edge merge policy, remove
/// the ranges as one batch, and put each cursor back at its recorded
/// column on the line that moved up. Ends in normal mode.
pub fn delete_line(map: &mut DisplayMap, selections: &mut Vec<Selection>) -> (r: (
    Clipboard,
    Mode,
))
    requires
        old(map).wf(),
        sels_wf(old(map)@, old(selections)@),
        sel_ids_distinct(old(selections)@),
        ranges_ordered(
            old(selections)@.map_values(|x: Selection| line_delete_adjusted(old(map)@, x)),
        ),
    ensures
        ({
            let adj = old(selections)@.map_values(
                |x: Selection| line_delete_adjusted(old(map)@, x),
            );
            &&& final(map)@ == fold_delete_doc(old(map)@, adj)
            &&& final(map).wf()
            &&& final(selections)@ == line_delete_result_sels(old(map)@, old(selections)@)
            &&& sels_wf(final(map)@, final(selections)@)
            &&& r.0.copies.deep_view() == Seq::new(
                adj.len(),
                |j: int| doc_slice(old(map)@, adj[j].start, adj[j].end),
            )
            &&& r.0.linewise == true
            &&& r.1 == Mode::Normal
        }),
{
    let ghost doc0 = map@;
    let ghost sels0 = selections@;

    // record every head's column before anything moves
    let n = selections.len();
    let mut original_columns: Vec<(usize, usize)> = Vec::new();
    let mut i: usize = 0;
    while i < n
        invariant
            0 <= i <= n,
            n == selections@.len(),
            selections@ == sels0,
            original_columns@.len() == i,
            forall|j: int|
                0 <= j < i ==> original_columns@[j] == ((#[trigger] sels0[j]).id,
                sels0[j].head_spec().col),
        decreases n - i,
    {
        let id = selections[i].id;
        let col = selections[i].head().col;
        original_columns.push((id, col));
        i = i + 1;
    }
    proof {
        assert(original_columns@ =~= columns_of(sels0));
    }

    proof {
        lemma_line_adjusted_wf(doc0, sels0);
    }
    line_delete_adjust_all(map, selections);
    let ghost adj = selections@;
    let copies = remove_ranges(map, selections);
    let ghost mid = selections@;

    // put each cursor back at its recorded column, on a character
    let mut i: usize = 0;
    while i < n
        invariant
            0 <= i <= n,
            n == selections@.len(),
            n == sels0.len(),
            n == mid.len(),
            map.wf(),
            sel_ids_distinct(sels0),
            original_columns@ == columns_of(sels0),
            forall|j: int|
                0 <= j < n ==> (#[trigger] mid[j]).id == sels0[j].id && mid[j].goal
                    == adj[j].goal,
            adj == sels0.map_values(|x: Selection| line_delete_adjusted(doc0, x)),
            forall|j: int| i <= j < n ==> selections@[j] == mid[j],
            forall|j: int|
                0 <= j < i ==> selections@[j] == (#[trigger] mid[j]).collapsed_to(
                    clip_end_spec(
                        map@,
                        (Position { row: mid[j].start.row, col: sels0[j].head_spec().col }),
                    ),
                    mid[j].goal,
                ),
            forall|j: int| 0 <= j < i ==> (#[trigger] selections@[j]).wf(map@),
        decreases n - i,
    {
        let st = selections[i].start;
        let id = selections[i].id;
        let goal = selections[i].goal;
        proof {
            lemma_columns_lookup(sels0, i as int);
        }
        let cursor0 = match lookup_column(&original_columns, id) {
            Some(c) => Position { row: st.row, col: c },
            None => st,
        };
        let cursor = map.clip_at_line_end(cursor0);
        proof {
            crate::display_map::lemma_clip_valid(map@, cursor0);
        }
        let slot = vstd::std_specs::vec::vec_index_mut(selections, i);
        slot.collapse_to(cursor, goal);
        proof {
            assert(selections@[i as int].wf(map@));
        }
        i = i + 1;
    }
    proof {
        assert(mid.map_values(|x: Selection| x.start) == fold_delete_cursors(adj));
        assert forall|j: int| 0 <= j < n implies (#[trigger] mid[j]).start
            == fold_delete_cursors(adj)[j] by {
            assert(mid.map_values(|x: Selection| x.start)[j] == mid[j].start);
        }
        assert(selections@ =~= line_delete_result_sels(doc0, sels0));
    }
    (Clipboard { copies, linewise: true }, Mode::Normal)
}

/// Change whole lines: expand each selection over the content of its
/// lines, leaving the terminators, remove the text as one batch, and drop
/// into insert mode with each cursor at its line's now-empty start.
pub fn change_line(map: &mut DisplayMap, selections: &mut Vec<Selection>) -> (r: (
    Clipboard,
    Mode,
))
    requires
        old(map).wf(),
        sels_wf(old(map)@, old(selections)@),
        forall|i: int|
            0 <= i && i + 1 < old(selections)@.len() ==> (#[trigger] old(
                selections,
            )@[i]).end.row < old(selections)@[i + 1].start.row,
    ensures
        ({
            let adj = old(selections)@.map_values(
                |x: Selection| line_change_adjusted(old(map)@, x),
            );
            &&& final(map)@ == fold_delete_doc(old(map)@, adj)
            &&& final(map).wf()
            &&& final(selections)@ == change_result_sels(old(map)@, adj)
            &&& sels_wf(final(map)@, final(selections)@)
            &&& r.0.copies.deep_view() == Seq::new(
                adj.len(),
                |j: int| doc_slice(old(map)@, adj[j].start, adj[j].end),
            )
            &&& r.0.linewise == true
            &&& r.1 == Mode::Insert
        }),
{
    let ghost doc0 = map@;
    let ghost sels0 = selections@;
    proof {
        lemma_line_adjusted_wf(doc0, sels0);
        lemma_line_change_ordered(doc0, sels0);
    }
    line_change_adjust_all(map, selections);
    let ghost adj = selections@;
    let copies = remove_ranges(map, selections);
    collapse_all(map, selections, false);
    proof {
        assert(selections@ =~= change_result_sels(doc0, adj));
    }
    (Clipboard { copies, linewise: true }, Mode::Insert)
}

/// Ordering invariant: a motion leaves the selection's endpoints in
/// order, whatever target the motion engine produced. Together with the
/// `sels_wf` clauses the four operations ensure, every selection this
/// module hands back satisfies `start <= end`.
pub proof fn lemma_motion_ordered(
    doc: Seq<Seq<u8>>,
    sel: Selection,
    target: Position,
    goal: Option<usize>,
)
    requires
        doc_wf(doc),
        sel.wf(doc),
    ensures
        motion_spec(doc, sel, target, goal).ordered(),
        motion_spec(doc, sel, target, goal).in_doc(doc),
{
    crate::display_map::lemma_clip_valid(doc, target);
    let moved = sel.with_head(clip_end_spec(doc, target), goal);
    if sel.reversed && !moved.reversed {
        let dec = Position {
            row: moved.start.row,
            col: if moved.start.col > 0 {
                (moved.start.col - 1) as usize
            } else {
                0
            },
        };
        assert(pos_in_doc(doc, dec));
        crate::display_map::lemma_clip_idempotent(doc, dec);
    }
}

/// A linewise delete whose range reaches the last line consumes the
/// previous line's terminator instead of its own: what remains is exactly
/// the lines above the range — the document ends without a blank trailing
/// line.
pub proof fn lemma_line_delete_merges_backward(doc: Seq<Seq<u8>>, sel: Selection)
    requires
        doc_wf(doc),
        crate::display_map::doc_lines_fit(doc),
        sel.wf(doc),
        sel.end.row + 1 == doc.len(),
        sel.start.row > 0,
    ensures
        ({
            let a = line_delete_adjusted(doc, sel);
            doc_delete(doc, a.start, a.end) == doc.take(sel.start.row as int)
        }),
{
    let a = line_delete_adjusted(doc, sel);
    assert(doc[sel.start.row - 1].len() <= usize::MAX);
    assert(doc[sel.end.row as int].len() <= usize::MAX);
    assert(doc[sel.start.row - 1].take(a.start.col as int) =~= doc[sel.start.row - 1]);
    assert(doc[sel.end.row as int].skip(a.end.col as int) =~= Seq::<u8>::empty());
    assert(doc_delete(doc, a.start, a.end) =~= doc.take(sel.start.row as int));
}

/// A linewise delete strictly above the last line removes exactly the
/// covered lines and their own terminators: the line after the range is
/// left intact and moves up into the range's place.
pub proof fn lemma_line_delete_consumes_forward(doc: Seq<Seq<u8>>, sel: Selection)
    requires
        doc_wf(doc),
        crate::display_map::doc_lines_fit(doc),
        sel.wf(doc),
        sel.end.row + 1 < doc.len(),
    ensures
        ({
            let a = line_delete_adjusted(doc, sel);
            doc_delete(doc, a.start, a.end) == doc.take(sel.start.row as int) + doc.skip(
                sel.end.row as int + 1,
            )
        }),
        doc_delete(
            doc,
            line_delete_adjusted(doc, sel).start,
            line_delete_adjusted(doc, sel).end,
        )[sel.start.row as int] == doc[sel.end.row as int + 1],
{
    let a = line_delete_adjusted(doc, sel);
    assert(doc[sel.start.row as int].take(0) + doc[sel.end.row as int + 1].skip(0) =~= doc[
        sel.end.row as int + 1
    ]);
    assert(doc_delete(doc, a.start, a.end) =~= doc.take(sel.start.row as int) + doc.skip(
        sel.end.row as int + 1,
    ));
}

/// Column restoration: clipping the recorded column onto the line the
/// cursor lands on gives that column back whenever the line is long
/// enough, and the line's last character otherwise — the linewise delete's
/// cursor fix-up preserves the horizontal position the head started in.
pub proof fn lemma_column_restored(docf: Seq<Seq<u8>>, row: usize, c: usize)
    requires
        doc_wf(docf),
        row < docf.len(),
    ensures
        clip_end_spec(docf, (Position { row, col: c })).row == row,
        c <= crate::display_map::last_cursor_col(docf[row as int]) ==> clip_end_spec(
            docf,
            (Position { row, col: c }),
        ) == (Position { row, col: c }),
        c > crate::display_map::last_cursor_col(docf[row as int]) ==> clip_end_spec(
            docf,
            (Position { row, col: c }),
        ).col == crate::display_map::last_cursor_col(docf[row as int]),
{
}

} // verus!
