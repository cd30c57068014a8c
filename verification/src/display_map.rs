use vstd::prelude::*;

use crate::position::{Bias, Position};

verus! {

/// Model of the display map together with the text buffer behind it: the
/// document as a sequence of lines, one sequence of bytes per line, with at
/// least one line. Columns are uniform width (no folds, no tab expansion),
/// so every column from 0 through a line's length is a valid position on
/// that line; the column equal to the length is the end-of-line spot.
pub struct DisplayMap {
    pub lines: Vec<Vec<u8>>,
}

/// A document is well formed when it has at least one line.
pub open spec fn doc_wf(doc: Seq<Seq<u8>>) -> bool {
    doc.len() >= 1
}

/// `p` names a real spot in `doc`: its row exists and its column is at most
/// that line's length.
pub open spec fn pos_in_doc(doc: Seq<Seq<u8>>, p: Position) -> bool {
    p.row < doc.len() && p.col <= doc[p.row as int].len()
}

/// Snapping `p` to the nearest valid spot: the row is clamped into the
/// document, then the column to that line's length.
pub open spec fn clip_spec(doc: Seq<Seq<u8>>, p: Position) -> Position
    recommends
        doc_wf(doc),
{
    let row = if p.row < doc.len() {
        p.row as int
    } else {
        doc.len() - 1
    };
    let col = if p.col <= doc[row].len() {
        p.col as int
    } else {
        doc[row].len() as int
    };
    Position { row: row as usize, col: col as usize }
}

/// The document is small enough for rows and columns to be `usize`
/// values — true of any document held in memory.
pub open spec fn doc_lines_fit(doc: Seq<Seq<u8>>) -> bool {
    doc.len() <= usize::MAX && forall|i: int|
        0 <= i < doc.len() ==> (#[trigger] doc[i]).len() <= usize::MAX
}

/// A line's length as a column number.
pub open spec fn line_end_col(line: Seq<u8>) -> usize {
    if line.len() <= usize::MAX {
        line.len() as usize
    } else {
        usize::MAX
    }
}

/// The last column a cursor may rest on when it must sit on a character:
/// one before the end of a non-empty line, column 0 of an empty one.
pub open spec fn last_cursor_col(line: Seq<u8>) -> int {
    if line.len() > 0 {
        line.len() - 1
    } else {
        0
    }
}

/// Snapping with the additional rule that the cursor must rest on a
/// character: a position at the very end of a non-empty line is pulled back
/// one column.
pub open spec fn clip_end_spec(doc: Seq<Seq<u8>>, p: Position) -> Position
    recommends
        doc_wf(doc),
{
    let q = clip_spec(doc, p);
    if q.col == doc[q.row as int].len() && q.col > 0 {
        Position { row: q.row, col: (q.col - 1) as usize }
    } else {
        q
    }
}

impl View for DisplayMap {
    type V = Seq<Seq<u8>>;

    open spec fn view(&self) -> Seq<Seq<u8>> {
        self.lines.deep_view()
    }
}

impl DisplayMap {
    pub open spec fn wf(self) -> bool {
        doc_wf(self@)
    }

    pub fn num_lines(&self) -> (n: usize)
        ensures
            n == self@.len(),
    {
        self.lines.len()
    }

    pub fn line_len(&self, row: usize) -> (n: usize)
        requires
            row < self@.len(),
        ensures
            n == self@[row as int].len(),
    {
        self.lines[row].len()
    }

    /// The last position of the document: the end of its last line.
    pub fn max_point(&self) -> (p: Position)
        requires
            self.wf(),
        ensures
            p.row == self@.len() - 1,
            p.col == self@[self@.len() - 1].len(),
    {
        let row = self.lines.len() - 1;
        Position { row, col: self.lines[row].len() }
    }

    /// Snap `p` to the nearest valid position. Both biases agree here
    /// because every in-range column is a valid stop; see `Bias`.
    #[allow(unused_variables)]
    pub fn clip_point(&self, p: Position, bias: Bias) -> (r: Position)
        requires
            self.wf(),
        ensures
            r == clip_spec(self@, p),
    {
        let row = if p.row < self.lines.len() {
            p.row
        } else {
            self.lines.len() - 1
        };
        let len = self.lines[row].len();
        let col = if p.col <= len {
            p.col
        } else {
            len
        };
        Position { row, col }
    }

    /// Keep the cursor on a character: snap `p`, then pull a position at
    /// the very end of a non-empty line back one column.
    pub fn clip_at_line_end(&self, p: Position) -> (r: Position)
        requires
            self.wf(),
        ensures
            r == clip_end_spec(self@, p),
    {
        let q = self.clip_point(p, Bias::Left);
        let len = self.lines[q.row].len();
        if q.col == len && q.col > 0 {
            Position { row: q.row, col: q.col - 1 }
        } else {
            q
        }
    }

    /// The beginning-of-line boundary of the line containing `p`.
    pub fn prev_line_boundary(&self, p: Position) -> (r: Position)
        requires
            p.row < self@.len(),
        ensures
            r == (Position { row: p.row, col: 0 }),
    {
        Position { row: p.row, col: 0 }
    }

    /// The end-of-line boundary of the line containing `p`.
    pub fn next_line_boundary(&self, p: Position) -> (r: Position)
        requires
            p.row < self@.len(),
        ensures
            r.row == p.row,
            r.col == self@[p.row as int].len(),
    {
        Position { row: p.row, col: self.lines[p.row].len() }
    }
}

/// The document after removing the exclusive range `[s, e)`: the lines
/// before `s.row` stay, the prefix of `s.row`'s line joins the suffix of
/// `e.row`'s line into one merged line, and the lines after `e.row` move up.
pub open spec fn doc_delete(doc: Seq<Seq<u8>>, s: Position, e: Position) -> Seq<Seq<u8>>
    recommends
        pos_in_doc(doc, s),
        pos_in_doc(doc, e),
        s.le(e),
{
    doc.take(s.row as int) + seq![
        doc[s.row as int].take(s.col as int) + doc[e.row as int].skip(e.col as int)
    ] + doc.skip(e.row as int + 1)
}

/// The text inside `[s, e)`, as the sequence of line fragments it covers:
/// the tail of `s.row`'s line, the whole lines between, and the head of
/// `e.row`'s line — a single fragment when the range stays on one line.
pub open spec fn doc_slice(doc: Seq<Seq<u8>>, s: Position, e: Position) -> Seq<Seq<u8>>
    recommends
        pos_in_doc(doc, s),
        pos_in_doc(doc, e),
        s.le(e),
{
    if s.row == e.row {
        seq![doc[s.row as int].subrange(s.col as int, e.col as int)]
    } else {
        seq![doc[s.row as int].skip(s.col as int)] + doc.subrange(
            s.row as int + 1,
            e.row as int,
        ) + seq![doc[e.row as int].take(e.col as int)]
    }
}

/// The document after inserting the fragments `parts` at `at`: the first
/// fragment continues `at`'s line after its prefix, the middle fragments
/// become lines of their own, and the last fragment is continued by the
/// suffix of `at`'s line.
pub open spec fn doc_insert(doc: Seq<Seq<u8>>, at: Position, parts: Seq<Seq<u8>>) -> Seq<Seq<u8>>
    recommends
        pos_in_doc(doc, at),
        parts.len() >= 1,
{
    let prefix = doc[at.row as int].take(at.col as int);
    let suffix = doc[at.row as int].skip(at.col as int);
    if parts.len() == 1 {
        doc.take(at.row as int) + seq![prefix + parts[0] + suffix] + doc.skip(at.row as int + 1)
    } else {
        doc.take(at.row as int) + seq![prefix + parts[0]] + parts.subrange(
            1,
            parts.len() - 1,
        ) + seq![parts.last() + suffix] + doc.skip(at.row as int + 1)
    }
}

/// Copy and delete invert each other: inserting the captured fragments
/// back at the start of the removed range restores the document exactly.
pub proof fn lemma_delete_insert_round_trip(doc: Seq<Seq<u8>>, s: Position, e: Position)
    requires
        doc_wf(doc),
        pos_in_doc(doc, s),
        pos_in_doc(doc, e),
        s.le(e),
    ensures
        doc_insert(doc_delete(doc, s, e), s, doc_slice(doc, s, e)) == doc,
{
    let d = doc_delete(doc, s, e);
    let parts = doc_slice(doc, s, e);
    let merged = doc[s.row as int].take(s.col as int) + doc[e.row as int].skip(e.col as int);
    assert(d[s.row as int] == merged);
    assert(merged.take(s.col as int) =~= doc[s.row as int].take(s.col as int));
    assert(merged.skip(s.col as int) =~= doc[e.row as int].skip(e.col as int));
    if s.row == e.row {
        assert(merged.take(s.col as int) + parts[0] + merged.skip(s.col as int) =~= doc[s.row as int]);
        assert(doc_insert(d, s, parts) =~= doc);
    } else {
        assert(merged.take(s.col as int) + parts[0] =~= doc[s.row as int]);
        assert(parts.last() + merged.skip(s.col as int) =~= doc[e.row as int]);
        assert(parts.subrange(1, parts.len() - 1) =~= doc.subrange(s.row as int + 1, e.row as int));
        assert(doc_insert(d, s, parts) =~= doc);
    }
}

/// A `Vec<u8>`'s deep view is its view, element for element.
pub broadcast proof fn lemma_bytes_deep_view(v: Vec<u8>)
    ensures
        #[trigger] v.deep_view() == v@,
{
    assert(v.deep_view() =~= v@);
}

/// A copy of `line[from..to]`.
fn fragment(line: &Vec<u8>, from: usize, to: usize) -> (r: Vec<u8>)
    requires
        from <= to,
        to <= line@.len(),
    ensures
        r@ == line@.subrange(from as int, to as int),
{
    let mut r: Vec<u8> = Vec::new();
    let mut i: usize = from;
    while i < to
        invariant
            from <= i <= to,
            to <= line@.len(),
            r@ == line@.subrange(from as int, i as int),
        decreases to - i,
    {
        r.push(line[i]);
        proof {
            assert(line@.subrange(from as int, i + 1) =~= line@.subrange(from as int, i as int)
                + seq![line@[i as int]]);
        }
        i = i + 1;
    }
    r
}

impl DisplayMap {
    /// The text inside `[s, e)`, copied out as its line fragments — what an
    /// operation hands to the clipboard before removing the range.
    pub fn copy_range(&self, s: Position, e: Position) -> (r: Vec<Vec<u8>>)
        requires
            self.wf(),
            pos_in_doc(self@, s),
            pos_in_doc(self@, e),
            s.le(e),
        ensures
            r.deep_view() == doc_slice(self@, s, e),
    {
        broadcast use lemma_bytes_deep_view;

        let mut r: Vec<Vec<u8>> = Vec::new();
        if s.row == e.row {
            r.push(fragment(&self.lines[s.row], s.col, e.col));
            proof {
                assert(r.deep_view() =~= doc_slice(self@, s, e));
            }
        } else {
            let first_len = self.lines[s.row].len();
            r.push(fragment(&self.lines[s.row], s.col, first_len));
            proof {
                assert(self.lines@[s.row as int]@.subrange(s.col as int, first_len as int) =~= self@[
                    s.row as int
                ].skip(s.col as int));
            }
            let mut i: usize = s.row + 1;
            while i < e.row
                invariant
                    s.row < i <= e.row,
                    e.row < self@.len(),
                    self@ == self.lines.deep_view(),
                    r@.len() == i - s.row,
                    r@[0]@ == self@[s.row as int].skip(s.col as int),
                    forall|k: int| 1 <= k < r@.len() ==> (#[trigger] r@[k])@ == self@[
                        s.row + k
                    ],
                decreases e.row - i,
            {
                let len = self.lines[i].len();
                r.push(fragment(&self.lines[i], 0, len));
                proof {
                    assert(self.lines@[i as int]@.subrange(0, len as int) =~= self@[i as int]);
                }
                i = i + 1;
            }
            r.push(fragment(&self.lines[e.row], 0, e.col));
            proof {
                assert(self.lines@[e.row as int]@.subrange(0, e.col as int) =~= self@[
                    e.row as int
                ].take(e.col as int));
                assert(r.deep_view() =~= doc_slice(self@, s, e));
            }
        }
        r
    }
}

impl DisplayMap {
    /// Remove the exclusive range `[s, e)` in place: the prefix of `s.row`'s
    /// line joins the suffix of `e.row`'s line, and the rows between go.
    pub fn delete_range(&mut self, s: Position, e: Position)
        requires
            old(self).wf(),
            pos_in_doc(old(self)@, s),
            pos_in_doc(old(self)@, e),
            s.le(e),
        ensures
            final(self)@ == doc_delete(old(self)@, s, e),
            final(self).wf(),
    {
        broadcast use lemma_bytes_deep_view;

        let e_len = self.lines[e.row].len();
        let mut merged = fragment(&self.lines[s.row], 0, s.col);
        let mut tail = fragment(&self.lines[e.row], e.col, e_len);
        merged.append(&mut tail);
        proof {
            assert(merged@ =~= old(self)@[s.row as int].take(s.col as int) + old(self)@[
                e.row as int
            ].skip(e.col as int));
        }
        let ghost l0 = self.lines@;
        let count = e.row - s.row;
        let mut removed: usize = 0;
        while removed < count
            invariant
                removed <= count,
                count == e.row - s.row,
                s.le(e),
                e.row < l0.len(),
                self.lines@ =~= l0.subrange(0, s.row + 1) + l0.skip(s.row + 1 + removed),
            decreases count - removed,
        {
            self.lines.remove(s.row + 1);
            proof {
                assert(self.lines@ =~= l0.subrange(0, s.row + 1) + l0.skip(
                    s.row + 1 + removed + 1,
                ));
            }
            removed = removed + 1;
        }
        self.lines.remove(s.row);
        self.lines.insert(s.row, merged);
        proof {
            assert(self.lines@ =~= l0.subrange(0, s.row as int) + seq![merged] + l0.skip(
                e.row as int + 1,
            ));
            assert(self@ =~= doc_delete(old(self)@, s, e));
        }
    }
    /// Insert the fragments `parts` at `at`: the first continues `at`'s
    /// line after its prefix, the rest become lines of their own, and the
    /// suffix of `at`'s line continues the last — the inverse of removing
    /// the range the fragments came from.
    pub fn insert_lines(&mut self, at: Position, parts: &Vec<Vec<u8>>)
        requires
            old(self).wf(),
            pos_in_doc(old(self)@, at),
            parts@.len() >= 1,
        ensures
            final(self)@ == doc_insert(old(self)@, at, parts.deep_view()),
            final(self).wf(),
    {
        broadcast use lemma_bytes_deep_view;

        let ghost l0 = self.lines@;
        let ghost doc0 = self@;
        let row_len = self.lines[at.row].len();
        let mut first = fragment(&self.lines[at.row], 0, at.col);
        let p0_len = parts[0].len();
        let mut p0 = fragment(&parts[0], 0, p0_len);
        first.append(&mut p0);
        proof {
            assert(first@ =~= doc0[at.row as int].take(at.col as int) + parts.deep_view()[0]);
        }
        let mut suffix = fragment(&self.lines[at.row], at.col, row_len);
        proof {
            assert(suffix@ =~= doc0[at.row as int].skip(at.col as int));
        }
        if parts.len() == 1 {
            first.append(&mut suffix);
            self.lines.remove(at.row);
            self.lines.insert(at.row, first);
            proof {
                assert(self@ =~= doc_insert(doc0, at, parts.deep_view()));
            }
        } else {
            let n = parts.len();
            let last_len = parts[n - 1].len();
            let mut last = fragment(&parts[n - 1], 0, last_len);
            last.append(&mut suffix);
            proof {
                assert(last@ =~= parts.deep_view().last() + doc0[at.row as int].skip(
                    at.col as int,
                ));
            }
            let nlines = self.lines.len();
            self.lines.remove(at.row);
            self.lines.insert(at.row, first);
            let ghost firstv = self.lines@[at.row as int];
            let mut k: usize = 1;
            let mut pos: usize = at.row + 1;
            while k < n - 1
                invariant
                    1 <= k < n,
                    n == parts@.len(),
                    pos == at.row + k,
                    at.row < l0.len(),
                    self.lines@.len() == l0.len() + k - 1,
                    forall|j: int| 0 <= j < at.row ==> self.lines@[j] == l0[j],
                    self.lines@[at.row as int] == firstv,
                    forall|m: int| 1 <= m < k ==> (#[trigger] self.lines@[at.row + m])@
                        == parts.deep_view()[m],
                    forall|j: int|
                        at.row + k <= j < self.lines@.len() ==> self.lines@[j] == l0[j - k + 1],
                decreases n - k,
            {
                let pk_len = parts[k].len();
                let frag = fragment(&parts[k], 0, pk_len);
                self.lines.insert(pos, frag);
                let new_len = self.lines.len();
                proof {
                    assert(pos < new_len);
                }
                k = k + 1;
                pos = pos + 1;
            }
            let ghost prev = self.lines@;
            let ghost lastv = last;
            self.lines.insert(pos, last);
            proof {
                let pd = parts.deep_view();
                let d = doc_insert(doc0, at, pd);
                assert(self.lines@.len() == l0.len() + n - 1);
                assert(d.len() == l0.len() + n - 1);
                assert forall|j: int| 0 <= j < self@.len() implies self@[j] == d[j] by {
                    if j < pos {
                        assert(self.lines@[j] == prev[j]);
                    } else if j == pos {
                        assert(self.lines@[j] == lastv);
                    } else {
                        assert(self.lines@[j] == prev[j - 1]);
                    }
                    if at.row < j && j < at.row + n - 1 {
                        let m = j - at.row;
                        assert(prev[at.row + m]@ == pd[m]);
                    }
                }
                assert(self@ =~= d);
            }
        }
    }
}

/// Clipping a position that is already valid returns it unchanged, with
/// either bias: `clip_point`'s result does not depend on the bias at all.
pub proof fn lemma_clip_idempotent(doc: Seq<Seq<u8>>, p: Position)
    requires
        doc_wf(doc),
        pos_in_doc(doc, p),
    ensures
        clip_spec(doc, p) == p,
{
}

/// Clipping a position that is already a legal cursor spot — on a character,
/// or on an empty line — returns it unchanged.
pub proof fn lemma_clip_end_idempotent(doc: Seq<Seq<u8>>, p: Position)
    requires
        doc_wf(doc),
        pos_in_doc(doc, p),
        p.col <= last_cursor_col(doc[p.row as int]),
    ensures
        clip_end_spec(doc, p) == p,
{
}

/// Clipping always lands inside the document.
pub proof fn lemma_clip_valid(doc: Seq<Seq<u8>>, p: Position)
    requires
        doc_wf(doc),
    ensures
        pos_in_doc(doc, clip_spec(doc, p)),
        pos_in_doc(doc, clip_end_spec(doc, p)),
{
}

} // verus!
