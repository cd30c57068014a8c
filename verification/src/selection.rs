use vstd::prelude::*;

use crate::display_map::pos_in_doc;
use crate::position::Position;

verus! {

/// One cursor's selection. The endpoint fixed at mode entry (the anchor)
/// and the endpoint the user moves (the head) are stored as the ordered
/// pair `start <= end` together with the `reversed` flag that records which
/// of the two the head currently is.
#[derive(Clone, Copy, PartialEq, Eq, Debug)]
pub struct Selection {
    /// Stable identity of this cursor among concurrent selections.
    pub id: usize,
    /// The earlier endpoint.
    pub start: Position,
    /// The later endpoint.
    pub end: Position,
    /// True when the head sits at `start`.
    pub reversed: bool,
    /// Sticky column: the last column the user aimed at, kept across
    /// vertical motions that land on shorter lines.
    pub goal: Option<usize>,
}

impl Selection {
    /// The endpoint the user moves with motions.
    pub open spec fn head_spec(self) -> Position {
        if self.reversed {
            self.start
        } else {
            self.end
        }
    }

    /// The endpoint fixed at mode entry.
    pub open spec fn tail_spec(self) -> Position {
        if self.reversed {
            self.end
        } else {
            self.start
        }
    }

    /// Ordering invariant: the endpoints are stored in order.
    pub open spec fn ordered(self) -> bool {
        self.start.le(self.end)
    }

    /// Both endpoints name real spots in `doc`.
    pub open spec fn in_doc(self, doc: Seq<Seq<u8>>) -> bool {
        pos_in_doc(doc, self.start) && pos_in_doc(doc, self.end)
    }

    pub open spec fn wf(self, doc: Seq<Seq<u8>>) -> bool {
        self.ordered() && self.in_doc(doc)
    }

    /// What the selection becomes when its head moves to `head`: the new
    /// head and the old tail, re-ordered, with `reversed` recomputed from
    /// which of the two ends the head came to rest at.
    pub open spec fn with_head(self, head: Position, goal: Option<usize>) -> Selection {
        if head.lt(self.tail_spec()) {
            Selection {
                id: self.id,
                start: head,
                end: self.tail_spec(),
                reversed: true,
                goal,
            }
        } else {
            Selection {
                id: self.id,
                start: self.tail_spec(),
                end: head,
                reversed: false,
                goal,
            }
        }
    }

    /// The selection shrunk to a single cursor at `p`.
    pub open spec fn collapsed_to(self, p: Position, goal: Option<usize>) -> Selection {
        Selection { id: self.id, start: p, end: p, reversed: false, goal }
    }

    /// A fresh selection, as created when visual or visual-line mode is
    /// entered: anchor and head both at the entry cursor.
    pub fn new_at(id: usize, p: Position) -> (sel: Selection)
        ensures
            sel == (Selection { id, start: p, end: p, reversed: false, goal: None }),
    {
        Selection { id, start: p, end: p, reversed: false, goal: None }
    }

    pub fn head(&self) -> (p: Position)
        ensures
            p == self.head_spec(),
    {
        if self.reversed {
            self.start
        } else {
            self.end
        }
    }

    pub fn tail(&self) -> (p: Position)
        ensures
            p == self.tail_spec(),
    {
        if self.reversed {
            self.end
        } else {
            self.start
        }
    }

    /// Move the head, leaving the tail in place and recomputing which
    /// endpoint is which.
    pub fn set_head(&mut self, head: Position, goal: Option<usize>)
        ensures
            *final(self) == old(self).with_head(head, goal),
            final(self).ordered(),
    {
        let tail = self.tail();
        if head.is_lt(&tail) {
            self.start = head;
            self.end = tail;
            self.reversed = true;
        } else {
            self.start = tail;
            self.end = head;
            self.reversed = false;
        }
        self.goal = goal;
    }

    /// Shrink to a single cursor at `p`.
    pub fn collapse_to(&mut self, p: Position, goal: Option<usize>)
        ensures
            *final(self) == old(self).collapsed_to(p, goal),
    {
        self.start = p;
        self.end = p;
        self.reversed = false;
        self.goal = goal;
    }
}

/// Moving the head never breaks the ordering invariant.
pub proof fn lemma_with_head_ordered(sel: Selection, head: Position, goal: Option<usize>)
    ensures
        sel.with_head(head, goal).ordered(),
{
}

/// Reversal consistency: for a selection whose endpoints differ, `reversed`
/// holds exactly when the head is the earlier endpoint. (When the endpoints
/// coincide the head is both of them at once, and `reversed` is false.)
pub proof fn lemma_reversed_iff_head_at_start(sel: Selection)
    requires
        sel.start != sel.end,
    ensures
        sel.reversed <==> sel.head_spec() == sel.start,
{
}

} // verus!
