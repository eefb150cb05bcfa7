use crate::alignment::grid_view;
use crate::step::{Step, StepView};
use crate::text::GAP;
use vstd::prelude::*;

verus! {

/// Whether `grid` has `rows` rows of `cols` cells each.
pub open spec fn has_shape(grid: Seq<Seq<StepView>>, rows: nat, cols: nat) -> bool {
    &&& grid.len() == rows
    &&& forall|r: int| 0 <= r < rows ==> (#[trigger] grid[r]).len() == cols
}

/// The aligned pair that the backpointers spell from the cell at row `i`,
/// column `j` back to the first cell without one, in the order of the
/// sequences.
///
/// A backpointer to the cell up and left sets `a[j - 1]` over `b[i - 1]`; one
/// to the cell above sets a gap over `b[i - 1]`; one to the cell on the left
/// sets `a[j - 1]` over a gap. Nothing is followed beyond a backpointer to any
/// other cell.
pub open spec fn traced(grid: Seq<Seq<StepView>>, a: Seq<u8>, b: Seq<u8>, i: nat, j: nat) -> (
    Seq<u8>,
    Seq<u8>,
)
    decreases i + j,
{
    match grid[i as int][j as int].next {
        None => (Seq::empty(), Seq::empty()),
        Some((pi, pj)) => if i > 0 && j > 0 && pi == i - 1 && pj == j - 1 {
            let rest = traced(grid, a, b, pi, pj);
            (rest.0.push(a[pj as int]), rest.1.push(b[pi as int]))
        } else if i > 0 && pi == i - 1 && pj == j {
            let rest = traced(grid, a, b, pi, pj);
            (rest.0.push(GAP), rest.1.push(b[pi as int]))
        } else if j > 0 && pi == i && pj == j - 1 {
            let rest = traced(grid, a, b, pi, pj);
            (rest.0.push(a[pj as int]), rest.1.push(GAP))
        } else {
            (Seq::empty(), Seq::empty())
        },
    }
}

/// The two rows of a traced pair have the same length.
pub proof fn lemma_traced_rows_agree(
    grid: Seq<Seq<StepView>>,
    a: Seq<u8>,
    b: Seq<u8>,
    i: nat,
    j: nat,
)
    ensures
        traced(grid, a, b, i, j).0.len() == traced(grid, a, b, i, j).1.len(),
        traced(grid, a, b, i, j).0.len() <= i + j,
    decreases i + j,
{
    match grid[i as int][j as int].next {
        None => {},
        Some((pi, pj)) => {
            if i > 0 && j > 0 && pi == i - 1 && pj == j - 1 {
                lemma_traced_rows_agree(grid, a, b, pi, pj);
            } else if i > 0 && pi == i - 1 && pj == j {
                lemma_traced_rows_agree(grid, a, b, pi, pj);
            } else if j > 0 && pi == i && pj == j - 1 {
                lemma_traced_rows_agree(grid, a, b, pi, pj);
            }
        },
    }
}

/// The bytes of `v` from the last to the first.
pub fn reversed(v: &Vec<u8>) -> (r: Vec<u8>)
    ensures
        r@ == v@.reverse(),
{
    let mut r: Vec<u8> = Vec::new();
    let mut k: usize = v.len();
    while k > 0
        invariant
            k <= v.len(),
            r.len() == v.len() - k,
            forall|x: int| 0 <= x < r.len() ==> r@[x] == v@[v.len() - 1 - x],
        decreases k,
    {
        k = k - 1;
        r.push(v[k]);
    }
    assert(r@ =~= v@.reverse());
    r
}

/// Follows the backpointers of `grid` from the cell at row `i`, column `j`
/// and returns the aligned pair they spell: the columns are collected from
/// the last to the first and then put in the order of the sequences.
pub fn traceback(grid: &Vec<Vec<Step>>, a: &Vec<u8>, b: &Vec<u8>, i: usize, j: usize) -> (r: (
    Vec<u8>,
    Vec<u8>,
))
    requires
        has_shape(grid_view(grid@), (b.len() + 1) as nat, (a.len() + 1) as nat),
        i <= b.len(),
        j <= a.len(),
    ensures
        (r.0@, r.1@) == traced(grid_view(grid@), a@, b@, i as nat, j as nat),
{
    let ghost g = grid_view(grid@);
    let ghost whole = traced(g, a@, b@, i as nat, j as nat);
    let mut top: Vec<u8> = Vec::new();
    let mut bottom: Vec<u8> = Vec::new();
    let mut ci: usize = i;
    let mut cj: usize = j;
    let mut done: bool = false;
    assert(whole.0 =~= whole.0 + top@.reverse());
    assert(whole.1 =~= whole.1 + bottom@.reverse());
    while !done
        invariant
            g == grid_view(grid@),
            has_shape(g, (b.len() + 1) as nat, (a.len() + 1) as nat),
            ci <= b.len(),
            cj <= a.len(),
            whole == traced(g, a@, b@, i as nat, j as nat),
            done ==> traced(g, a@, b@, ci as nat, cj as nat) == (
                Seq::<u8>::empty(),
                Seq::<u8>::empty(),
            ),
            whole.0 == traced(g, a@, b@, ci as nat, cj as nat).0 + top@.reverse(),
            whole.1 == traced(g, a@, b@, ci as nat, cj as nat).1 + bottom@.reverse(),
        decreases ci + cj + (if done { 0int } else { 1int }),
    {
        assert(g[ci as int].len() == a.len() + 1);
        let ghost here = traced(g, a@, b@, ci as nat, cj as nat);
        let ghost top_before = top@;
        let ghost bottom_before = bottom@;
        match grid[ci][cj].next() {
            None => {
                done = true;
            },
            Some((pi, pj)) => {
                if ci > 0 && cj > 0 && pi == ci - 1 && pj == cj - 1 {
                    top.push(a[pj]);
                    bottom.push(b[pi]);
                } else if ci > 0 && pi == ci - 1 && pj == cj {
                    top.push(GAP);
                    bottom.push(b[pi]);
                } else if cj > 0 && pi == ci && pj == cj - 1 {
                    top.push(a[pj]);
                    bottom.push(GAP);
                } else {
                    done = true;
                }
                if !done {
                    proof {
                        let rest = traced(g, a@, b@, pi as nat, pj as nat);
                        assert(here.0 == rest.0.push(top@.last()));
                        assert(here.1 == rest.1.push(bottom@.last()));
                        assert(top@.reverse() =~= seq![top@.last()] + top_before.reverse());
                        assert(bottom@.reverse() =~= seq![bottom@.last()]
                            + bottom_before.reverse());
                        assert(whole.0 =~= rest.0 + top@.reverse());
                        assert(whole.1 =~= rest.1 + bottom@.reverse());
                    }
                    ci = pi;
                    cj = pj;
                }
            },
        }
    }
    let r = (reversed(&top), reversed(&bottom));
    proof {
        assert(r.0@ =~= whole.0);
        assert(r.1@ =~= whole.1);
    }
    r
}

} // verus!
