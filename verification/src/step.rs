use crate::text::{decimal, digits, push_decimal, push_digits, SPACE};
use core::cmp::Ordering;
use vstd::prelude::*;
use vstd::std_specs::cmp::PartialEqSpecImpl;
use vstd::std_specs::cmp::PartialOrdSpecImpl;

verus! {

/// Mathematical model of one grid cell: its score, its row and column, and
/// the coordinates of the cell it was derived from, if any.
pub struct StepView {
    pub val: int,
    pub i: nat,
    pub j: nat,
    pub next: Option<(nat, nat)>,
}

/// Model of a backpointer held as machine integers.
pub open spec fn link_view(link: Option<(usize, usize)>) -> Option<(nat, nat)> {
    match link {
        Some((pi, pj)) => Some((pi as nat, pj as nat)),
        None => None,
    }
}

/// How two scores compare.
pub open spec fn order_of(x: int, y: int) -> Ordering {
    if x < y {
        Ordering::Less
    } else if x > y {
        Ordering::Greater
    } else {
        Ordering::Equal
    }
}

/// The byte that opens the place of a cell (`(`).
pub const OPENING: u8 = 40;

/// The byte that parts row and column (`,`).
pub const COMMA: u8 = 44;

/// The byte that closes the place of a cell (`)`).
pub const CLOSING: u8 = 41;

/// The byte that parts place and score (`:`).
pub const COLON: u8 = 58;

/// The text of a cell: its row and column in round brackets, a colon, and
/// its score, as in `(1, 2): -3`.
pub open spec fn rendered_step(s: StepView) -> Seq<u8> {
    seq![OPENING] + digits(s.i) + seq![COMMA, SPACE] + digits(s.j) + seq![CLOSING, COLON, SPACE]
        + decimal(s.val)
}

/// A single cell of the dynamic-programming grid.
///
/// Two cells are equal (`==`) when their coordinates and their score are
/// equal; the backpointer takes no part. Cells are ordered by score alone.
#[derive(Clone, Copy, Debug)]
pub struct Step {
    val: i128,
    i: usize,
    j: usize,
    next: Option<(usize, usize)>,
}

impl View for Step {
    type V = StepView;

    closed spec fn view(&self) -> StepView {
        StepView {
            val: self.val as int,
            i: self.i as nat,
            j: self.j as nat,
            next: link_view(self.next),
        }
    }
}

impl Step {
    /// A cell at row `i`, column `j` with score `val` and no backpointer.
    pub fn from(i: usize, j: usize, val: i128) -> (s: Step)
        ensures
            s@ == (StepView { val: val as int, i: i as nat, j: j as nat, next: None }),
    {
        Step { val, i, j, next: None }
    }

    /// The same cell, now pointing back at row `pi`, column `pj`.
    pub fn linked_to(self, pi: usize, pj: usize) -> (s: Step)
        ensures
            s@ == (StepView { next: Some((pi as nat, pj as nat)), ..self@ }),
    {
        Step { val: self.val, i: self.i, j: self.j, next: Some((pi, pj)) }
    }

    /// The score of the cell.
    pub fn val(&self) -> (r: i128)
        ensures
            r == self@.val,
    {
        self.val
    }

    /// The row of the cell.
    pub fn i(&self) -> (r: usize)
        ensures
            r == self@.i,
    {
        self.i
    }

    /// The column of the cell.
    pub fn j(&self) -> (r: usize)
        ensures
            r == self@.j,
    {
        self.j
    }

    /// The coordinates of the predecessor cell, if one was recorded.
    pub fn next(&self) -> (r: Option<(usize, usize)>)
        ensures
            link_view(r) == self@.next,
    {
        self.next
    }

    /// The text of the cell: its row and column in round brackets, a colon,
    /// and its score.
    pub fn render(&self) -> (out: Vec<u8>)
        ensures
            out@ == rendered_step(self@),
    {
        let mut out: Vec<u8> = Vec::new();
        out.push(OPENING);
        push_digits(&mut out, self.i as u128);
        out.push(COMMA);
        out.push(SPACE);
        push_digits(&mut out, self.j as u128);
        out.push(CLOSING);
        out.push(COLON);
        out.push(SPACE);
        push_decimal(&mut out, self.val);
        assert(out@ =~= rendered_step(self@));
        out
    }

    /// Total order of cells by score; coordinates and backpointer are ignored.
    pub fn cmp(&self, other: &Step) -> (r: Ordering)
        ensures
            r == order_of(self@.val, other@.val),
    {
        if self.val < other.val {
            Ordering::Less
        } else if self.val > other.val {
            Ordering::Greater
        } else {
            Ordering::Equal
        }
    }
}

impl Default for Step {
    /// The cell at the origin with the lowest score there is and no backpointer.
    fn default() -> (s: Step)
        ensures
            s@ == (StepView { val: i128::MIN as int, i: 0, j: 0, next: None }),
    {
        Step { val: i128::MIN, i: 0, j: 0, next: None }
    }
}

impl PartialEq for Step {
    fn eq(&self, other: &Self) -> (r: bool) {
        self.i == other.i && self.j == other.j && self.val == other.val
    }
}

impl PartialEqSpecImpl for Step {
    open spec fn obeys_eq_spec() -> bool {
        true
    }

    open spec fn eq_spec(&self, other: &Self) -> bool {
        self@.i == other@.i && self@.j == other@.j && self@.val == other@.val
    }
}

impl Eq for Step {

}

impl PartialOrd for Step {
    fn partial_cmp(&self, other: &Self) -> (r: Option<Ordering>) {
        Some(self.cmp(other))
    }
}

impl PartialOrdSpecImpl for Step {
    open spec fn obeys_partial_cmp_spec() -> bool {
        true
    }

    open spec fn partial_cmp_spec(&self, other: &Self) -> Option<Ordering> {
        Some(order_of(self@.val, other@.val))
    }
}

} // verus!
