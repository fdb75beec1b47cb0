use vstd::prelude::*;

use crate::action::ActionView;
use crate::action_set::ActionSet;
use crate::cell::CellView;
use crate::figure::{lemma_sqr_positions, sqr_positions, within_board, Figure};
use crate::grid::{digit_positions, lemma_digit_positions_solved, listed, spec_is_solved, Grid};
use crate::methods::confined::{confined, confined_from, Line};
use crate::unions::{
    lemma_union_below_empty, lemma_union_below_next, lemma_union_below_none, optional, union_below,
};

verus! {

/// For each digit, the removals that it leads to from a box: along the row
/// of its places, and along their column.
pub open spec fn pointing_digit_parts(g: Seq<CellView>, sqr: Seq<usize>, dim: int) -> spec_fn(
    int,
) -> Set<ActionView> {
    |d: int|
        optional(confined_from(g, sqr, dim, d as u8, Line::Row)).union(
            optional(confined_from(g, sqr, dim, d as u8, Line::Col)),
        )
}

/// For each of the nine boxes, the removals that the digits lead to from it.
pub open spec fn pointing_sqr_parts(g: Seq<CellView>, dim: int) -> spec_fn(int) -> Set<ActionView> {
    |n: int| union_below(256, pointing_digit_parts(g, sqr_positions(n), dim))
}

/// In a solved grid the method finds nothing.
pub proof fn lemma_pointing_solved(g: Seq<CellView>, method: Pointing)
    requires
        g.len() == 81,
        spec_is_solved(g),
    ensures
        method.applications(g) == Set::<ActionView>::empty(),
{
    let dim = method.dimension();
    assert forall|n: int| 0 <= n < 9 implies #[trigger] pointing_sqr_parts(g, dim)(n)
        == Set::<ActionView>::empty() by {
        lemma_sqr_positions(n);
        let sqr = sqr_positions(n);
        assert forall|d: int| 0 <= d < 256 implies #[trigger] pointing_digit_parts(g, sqr, dim)(d)
            == Set::<ActionView>::empty() by {
            lemma_digit_positions_solved(g, sqr, d as u8);
            assert(pointing_digit_parts(g, sqr, dim)(d) =~= Set::<ActionView>::empty());
        }
        lemma_union_below_empty(256, pointing_digit_parts(g, sqr, dim));
    }
    lemma_union_below_empty(9, pointing_sqr_parts(g, dim));
}

/// Pointing pairs and triples: a digit whose places in a box lie in one row
/// or column leaves the rest of that row or column.
#[derive(Debug, Clone, Copy, PartialEq, Eq)]
pub enum Pointing {
    Pair,
    Triple,
}

impl Pointing {
    /// How many places of a digit the method looks for.
    pub open spec fn dimension(self) -> int {
        match self {
            Pointing::Pair => 2,
            Pointing::Triple => 3,
        }
    }

    /// The actions that the method proposes for a grid.
    pub open spec fn applications(self, g: Seq<CellView>) -> Set<ActionView> {
        union_below(9, pointing_sqr_parts(g, self.dimension()))
    }

    /// The actions that the method proposes for the grid.
    pub fn get_all_applications(&self, grid: &Grid) -> (res: ActionSet)
        ensures
            res@ == self.applications(grid@),
            forall|a: ActionView| res@.contains(a) ==> a.in_bounds(),
    {
        let mut res = ActionSet::new();
        let dimension: usize = match self {
            Pointing::Pair => 2,
            Pointing::Triple => 3,
        };
        let mut sqr_number: u8 = 0;
        proof {
            lemma_union_below_none(pointing_sqr_parts(grid@, dimension as int));
        }
        while sqr_number < 9
            invariant
                sqr_number <= 9,
                dimension == self.dimension(),
                res@ == union_below(sqr_number as int, pointing_sqr_parts(grid@, dimension as int)),
                forall|a: ActionView| res@.contains(a) ==> a.in_bounds(),
            decreases 9 - sqr_number,
        {
            let sqr = Figure::sqr(sqr_number);
            let ghost parts = pointing_digit_parts(grid@, sqr@, dimension as int);
            let ghost done = res@;
            proof {
                lemma_union_below_next(
                    sqr_number as int,
                    pointing_sqr_parts(grid@, dimension as int),
                );
                lemma_sqr_positions(sqr_number as int);
                lemma_union_below_none(parts);
            }
            let pencilmarks_info = grid.pencilmarks_info(sqr.clone());
            let mut d: usize = 0;
            while d < 256
                invariant
                    d <= 256,
                    dimension >= 1,
                    within_board(sqr@),
                    parts == pointing_digit_parts(grid@, sqr@, dimension as int),
                    forall|c: u8| #[trigger]
                        listed(pencilmarks_info@, c) == digit_positions(grid@, sqr@, c),
                    res@ == done.union(union_below(d as int, parts)),
                    forall|a: ActionView| res@.contains(a) ==> a.in_bounds(),
                decreases 256 - d,
            {
                proof {
                    lemma_union_below_next(d as int, parts);
                }
                let pencilmark = d as u8;
                if let Some(action) = confined(
                    grid,
                    &sqr,
                    &pencilmarks_info,
                    dimension,
                    pencilmark,
                    Line::Row,
                ) {
                    res.insert(action);
                }
                if let Some(action) = confined(
                    grid,
                    &sqr,
                    &pencilmarks_info,
                    dimension,
                    pencilmark,
                    Line::Col,
                ) {
                    res.insert(action);
                }
                assert(res@ =~= done.union(union_below(d + 1, parts)));
                d += 1;
            }
            sqr_number += 1;
        }
        res
    }
}

} // verus!
