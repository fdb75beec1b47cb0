use vstd::prelude::*;

use crate::action::ActionView;
use crate::action_set::ActionSet;
use crate::cell::CellView;
use crate::figure::{
    col_positions, lemma_col_positions, lemma_row_positions, row_positions, within_board, Figure,
};
use crate::grid::{lemma_digit_positions_solved, spec_is_solved, Grid};
use crate::methods::confined::{confined, confined_from, Line};
use crate::unions::{
    lemma_union_below_empty, lemma_union_below_next, lemma_union_below_none, optional, union_below,
};

verus! {

/// For each digit, the set of the removal that it leads to from a row or
/// column: within the box of its places.
pub open spec fn box_line_digit_parts(g: Seq<CellView>, line: Seq<usize>, dim: int) -> spec_fn(
    int,
) -> Set<ActionView> {
    |d: int| optional(confined_from(g, line, dim, d as u8, Line::Sqr))
}

/// For each number from 0 to 8, the removals that the digits lead to from
/// the row and from the column of that number.
pub open spec fn box_line_parts(g: Seq<CellView>, dim: int) -> spec_fn(int) -> Set<ActionView> {
    |i: int|
        union_below(256, box_line_digit_parts(g, row_positions(i), dim)).union(
            union_below(256, box_line_digit_parts(g, col_positions(i), dim)),
        )
}

/// In a solved grid the method finds nothing.
pub proof fn lemma_box_line_solved(g: Seq<CellView>, method: BoxLineReduction)
    requires
        g.len() == 81,
        spec_is_solved(g),
    ensures
        method.applications(g) == Set::<ActionView>::empty(),
{
    let dim = method.dimension();
    assert forall|i: int| 0 <= i < 9 implies #[trigger] box_line_parts(g, dim)(i)
        == Set::<ActionView>::empty() by {
        lemma_row_positions(i);
        lemma_col_positions(i);
        let row = row_positions(i);
        let col = col_positions(i);
        assert forall|d: int| 0 <= d < 256 implies #[trigger] box_line_digit_parts(g, row, dim)(d)
            == Set::<ActionView>::empty() by {
            lemma_digit_positions_solved(g, row, d as u8);
        }
        assert forall|d: int| 0 <= d < 256 implies #[trigger] box_line_digit_parts(g, col, dim)(d)
            == Set::<ActionView>::empty() by {
            lemma_digit_positions_solved(g, col, d as u8);
        }
        lemma_union_below_empty(256, box_line_digit_parts(g, row, dim));
        lemma_union_below_empty(256, box_line_digit_parts(g, col, dim));
        assert(box_line_parts(g, dim)(i) =~= Set::<ActionView>::empty());
    }
    lemma_union_below_empty(9, box_line_parts(g, dim));
}

/// Box-line reduction: a digit whose places in a row or column lie in one
/// box leaves the rest of that box.
#[derive(Debug, Clone, Copy, PartialEq, Eq)]
pub enum BoxLineReduction {
    Pair,
    Triple,
}

impl BoxLineReduction {
    /// How many places of a digit the method looks for.
    pub open spec fn dimension(self) -> int {
        match self {
            BoxLineReduction::Pair => 2,
            BoxLineReduction::Triple => 3,
        }
    }

    /// The actions that the method proposes for a grid.
    pub open spec fn applications(self, g: Seq<CellView>) -> Set<ActionView> {
        union_below(9, box_line_parts(g, self.dimension()))
    }

    /// The removals that the digits lead to from one row or column.
    fn find_in_figure(&self, grid: &Grid, figure: &Figure, dimension: usize) -> (res: ActionSet)
        requires
            within_board(figure@),
            dimension >= 1,
        ensures
            res@ == union_below(256, box_line_digit_parts(grid@, figure@, dimension as int)),
            forall|a: ActionView| res@.contains(a) ==> a.in_bounds(),
    {
        let mut res = ActionSet::new();
        let pencilmarks_info = grid.pencilmarks_info(figure.clone());
        let ghost parts = box_line_digit_parts(grid@, figure@, dimension as int);
        let mut d: usize = 0;
        proof {
            lemma_union_below_none(parts);
        }
        while d < 256
            invariant
                d <= 256,
                dimension >= 1,
                within_board(figure@),
                parts == box_line_digit_parts(grid@, figure@, dimension as int),
                forall|c: u8| #[trigger]
                    crate::grid::listed(pencilmarks_info@, c) == crate::grid::digit_positions(
                        grid@,
                        figure@,
                        c,
                    ),
                res@ == union_below(d as int, parts),
                forall|a: ActionView| res@.contains(a) ==> a.in_bounds(),
            decreases 256 - d,
        {
            proof {
                lemma_union_below_next(d as int, parts);
            }
            let ghost before = res@;
            if let Some(action) = confined(
                grid,
                figure,
                &pencilmarks_info,
                dimension,
                d as u8,
                Line::Sqr,
            ) {
                res.insert(action);
            }
            assert(res@ =~= before.union(parts(d as int)));
            d += 1;
        }
        res
    }

    /// The actions that the method proposes for the grid.
    pub fn get_all_applications(&self, grid: &Grid) -> (res: ActionSet)
        ensures
            res@ == self.applications(grid@),
            forall|a: ActionView| res@.contains(a) ==> a.in_bounds(),
    {
        let mut res = ActionSet::new();
        let dimension: usize = match self {
            BoxLineReduction::Pair => 2,
            BoxLineReduction::Triple => 3,
        };
        let mut i: u8 = 0;
        proof {
            lemma_union_below_none(box_line_parts(grid@, dimension as int));
        }
        while i < 9
            invariant
                i <= 9,
                dimension == self.dimension(),
                res@ == union_below(i as int, box_line_parts(grid@, dimension as int)),
                forall|a: ActionView| res@.contains(a) ==> a.in_bounds(),
            decreases 9 - i,
        {
            proof {
                lemma_union_below_next(i as int, box_line_parts(grid@, dimension as int));
                lemma_row_positions(i as int);
                lemma_col_positions(i as int);
            }
            let ghost before = res@;
            res.extend(self.find_in_figure(grid, &Figure::row(i), dimension));
            res.extend(self.find_in_figure(grid, &Figure::col(i), dimension));
            assert(res@ =~= before.union(box_line_parts(grid@, dimension as int)(i as int)));
            i += 1;
        }
        res
    }
}

} // verus!
