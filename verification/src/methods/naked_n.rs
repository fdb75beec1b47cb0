use vstd::prelude::*;

use crate::action::{Action, ActionView};
use crate::action_set::ActionSet;
use crate::cell::{all_bytes, has_digit, Cell, CellView};
use crate::combinations::{index_combinations, is_selection};
use crate::figure::{
    house_positions, lemma_ascending_unique, lemma_filter_ascending, lemma_house_positions,
    within_board, Figure,
};
use crate::grid::{spec_is_solved, Grid};
use crate::unions::{
    lemma_union_below_empty, lemma_union_below_next, lemma_union_below_none, optional, union_below,
};

verus! {

/// The placement that the cell at `position` calls for: its only candidate, if it has just one.
pub open spec fn naked_single_at(g: Seq<CellView>, position: int) -> Option<ActionView> {
    match g[position] {
        CellView::Pencilmarks(p) => if p.len() == 1 {
            Some(ActionView::PlaceNumber { position: position as usize, number: p[0] })
        } else {
            None
        },
        CellView::Number(_) => None,
    }
}

/// For each position, the set of the placement that its cell calls for.
pub open spec fn naked_single_parts(g: Seq<CellView>) -> spec_fn(int) -> Set<ActionView> {
    |position: int| optional(naked_single_at(g, position))
}

/// The positions of a house at the places that `selection` lists.
pub open spec fn selected(house: Seq<usize>, selection: Seq<usize>) -> Seq<usize> {
    selection.map_values(|t: usize| house[t as int])
}

/// Whether every cell at `cells` is unsolved.
pub open spec fn all_unsolved(g: Seq<CellView>, cells: Seq<usize>) -> bool {
    forall|i: int| 0 <= i < cells.len() ==> g[#[trigger] cells[i] as int] is Pencilmarks
}

/// Whether one of the cells at `cells` has `digit` as a candidate.
pub open spec fn held_by(g: Seq<CellView>, cells: Seq<usize>, digit: u8) -> bool {
    exists|i: int| 0 <= i < cells.len() && g[#[trigger] cells[i] as int].has_candidate(digit)
}

/// The candidates of the cells at `cells` together, in ascending order.
pub open spec fn combined(g: Seq<CellView>, cells: Seq<usize>) -> Seq<u8> {
    all_bytes().filter(|d: u8| held_by(g, cells, d))
}

/// The removal that a selection of `dim` cells of a house leads to. If the
/// cells are unsolved and have exactly `dim` candidates together, then no
/// other cell of the house can hold these candidates.
pub open spec fn naked_from(
    g: Seq<CellView>,
    house: Seq<usize>,
    dim: int,
    selection: Seq<usize>,
) -> Option<ActionView> {
    let cells = selected(house, selection);
    if all_unsolved(g, cells) && combined(g, cells).len() == dim {
        Some(
            ActionView::RemovePencilmarks {
                figure: house.filter(|p: usize| !cells.contains(p)),
                pencilmarks: combined(g, cells),
            },
        )
    } else {
        None
    }
}

/// The removals that a house leads to: one for each way to choose `dim` of
/// its nine cells so that they are unsolved and have exactly `dim`
/// candidates together.
pub open spec fn naked_house_part(g: Seq<CellView>, house: Seq<usize>, dim: int) -> Set<
    ActionView,
> {
    Set::new(
        |a: ActionView|
            exists|selection: Seq<usize>|
                is_selection(selection, 9, dim) && #[trigger] naked_from(g, house, dim, selection)
                    == Some(a),
    )
}

/// For each of the 27 houses, the removals that it leads to.
pub open spec fn naked_house_parts(g: Seq<CellView>, dim: int) -> spec_fn(int) -> Set<ActionView> {
    |k: int| naked_house_part(g, house_positions(k), dim)
}

/// For each of the listed selections, the set of the removal that it leads to.
pub open spec fn naked_selection_parts(
    g: Seq<CellView>,
    house: Seq<usize>,
    dim: int,
    selections: Seq<Vec<usize>>,
) -> spec_fn(int) -> Set<ActionView> {
    |t: int| optional(naked_from(g, house, dim, selections[t]@))
}

/// In a solved grid the method finds nothing.
pub proof fn lemma_naked_solved(g: Seq<CellView>, method: Naked)
    requires
        g.len() == 81,
        spec_is_solved(g),
    ensures
        method.applications(g) == Set::<ActionView>::empty(),
{
    let dim = method.dimension();
    if dim == 1 {
        lemma_union_below_empty(81, naked_single_parts(g));
    } else {
        assert forall|k: int| 0 <= k < 27 implies #[trigger] naked_house_parts(g, dim)(k)
            == Set::<ActionView>::empty() by {
            lemma_house_positions(k);
            let house = house_positions(k);
            let part = naked_house_part(g, house, dim);
            assert forall|a: ActionView| !part.contains(a) by {
                if part.contains(a) {
                    let selection = choose|selection: Seq<usize>|
                        is_selection(selection, 9, dim) && #[trigger] naked_from(
                            g,
                            house,
                            dim,
                            selection,
                        ) == Some(a);
                    let cells = selected(house, selection);
                    assert(selection[0] < 9);
                    assert(house[selection[0] as int] < 81);
                    assert(g[cells[0] as int] is Number);
                }
            }
            assert(part =~= Set::<ActionView>::empty());
        }
        lemma_union_below_empty(27, naked_house_parts(g, dim));
    }
}

/// Naked singles, pairs, triples and quads: cells that have as many
/// candidates together as they are.
#[derive(Debug, Clone, Copy, PartialEq, Eq)]
pub enum Naked {
    Single,
    Pair,
    Triple,
    Quad,
}

/// Whether one of the cells at `cells` has `digit` as a candidate.
fn any_holds(grid: &Grid, cells: &Vec<usize>, digit: u8) -> (res: bool)
    requires
        within_board(cells@),
    ensures
        res == held_by(grid@, cells@, digit),
{
    let mut i: usize = 0;
    while i < cells.len()
        invariant
            i <= cells@.len(),
            within_board(cells@),
            forall|k: int| 0 <= k < i ==> !grid@[#[trigger] cells@[k] as int].has_candidate(digit),
        decreases cells@.len() - i,
    {
        if let Cell::Pencilmarks(p) = grid.get(cells[i]) {
            if has_digit(p, digit) {
                assert(grid@[cells@[i as int] as int].has_candidate(digit));
                return true;
            }
        }
        i += 1;
    }
    false
}

impl Naked {
    /// How many cells and candidates the method looks for.
    pub open spec fn dimension(self) -> int {
        match self {
            Naked::Single => 1,
            Naked::Pair => 2,
            Naked::Triple => 3,
            Naked::Quad => 4,
        }
    }

    /// The actions that the method proposes for a grid.
    pub open spec fn applications(self, g: Seq<CellView>) -> Set<ActionView> {
        if self.dimension() == 1 {
            union_below(81, naked_single_parts(g))
        } else {
            union_below(27, naked_house_parts(g, self.dimension()))
        }
    }

    /// A placement for each unsolved cell with a single candidate.
    fn single_applications(&self, grid: &Grid) -> (res: ActionSet)
        ensures
            res@ == union_below(81, naked_single_parts(grid@)),
            forall|a: ActionView| res@.contains(a) ==> a.in_bounds(),
    {
        let mut res = ActionSet::new();
        let mut i: usize = 0;
        proof {
            use_type_invariant(grid);
            lemma_union_below_none(naked_single_parts(grid@));
        }
        while i < 81
            invariant
                i <= 81,
                grid.wf(),
                res@ == union_below(i as int, naked_single_parts(grid@)),
                forall|a: ActionView| res@.contains(a) ==> a.in_bounds(),
            decreases 81 - i,
        {
            proof {
                lemma_union_below_next(i as int, naked_single_parts(grid@));
            }
            let ghost before = res@;
            if let Cell::Pencilmarks(pencilmarks) = grid.get(i) {
                if pencilmarks.len() == 1 {
                    proof {
                        assert(grid@[i as int].valid());
                        assert(crate::cell::is_digit(pencilmarks@[0]));
                    }
                    res.insert(Action::PlaceNumber { position: i, number: pencilmarks[0] });
                }
            }
            assert(res@ =~= before.union(naked_single_parts(grid@)(i as int)));
            i += 1;
        }
        res
    }

    /// The removal that the selected cells of `house` lead to, if any.
    fn from_selection(grid: &Grid, house: &Figure, dimension: usize, selection: &Vec<usize>) -> (res:
        Option<Action>)
        requires
            within_board(house@),
            house@.len() == 9,
            is_selection(selection@, 9, dimension as int),
        ensures
            res is Some <==> naked_from(grid@, house@, dimension as int, selection@) is Some,
            res matches Some(a) ==> Some(a@) == naked_from(
                grid@,
                house@,
                dimension as int,
                selection@,
            ) && a@.in_bounds(),
    {
        let positions = house.positions();
        let ghost cells = selected(house@, selection@);
        let mut possible_positions: Vec<usize> = Vec::new();
        let mut t: usize = 0;
        while t < selection.len()
            invariant
                t <= selection@.len(),
                positions@ == house@,
                house@.len() == 9,
                within_board(house@),
                is_selection(selection@, 9, dimension as int),
                cells == selected(house@, selection@),
                possible_positions@ == cells.take(t as int),
                forall|i: int| 0 <= i < t ==> grid@[#[trigger] cells[i] as int] is Pencilmarks,
            decreases selection@.len() - t,
        {
            let candidate = positions[selection[t]];
            proof {
                assert(cells[t as int] == candidate);
            }
            if !grid.get(candidate).is_pencilmarks() {
                return None;
            }
            possible_positions.push(candidate);
            t += 1;
            proof {
                assert(possible_positions@ =~= cells.take(t as int));
            }
        }
        proof {
            assert(cells.take(t as int) =~= cells);
            assert forall|i: int| 0 <= i < cells.len() implies cells[i] < 81 by {
                assert(cells[i] == house@[selection@[i] as int]);
            }
        }
        let ghost held = |d: u8| held_by(grid@, cells, d);
        let mut pencilmarks: Vec<u8> = Vec::new();
        let mut d: usize = 0;
        proof {
            reveal(Seq::filter);
            assert(all_bytes().take(0) =~= Seq::<u8>::empty());
        }
        while d < 256
            invariant
                d <= 256,
                possible_positions@ == cells,
                within_board(cells),
                held == |d: u8| held_by(grid@, cells, d),
                pencilmarks@ == all_bytes().take(d as int).filter(held),
            decreases 256 - d,
        {
            let digit = d as u8;
            proof {
                assert(all_bytes().take(d + 1) =~= all_bytes().take(d as int).push(digit));
                all_bytes().take(d as int).lemma_filter_push(digit, held);
            }
            if any_holds(grid, &possible_positions, digit) {
                pencilmarks.push(digit);
            }
            d += 1;
        }
        proof {
            assert(all_bytes().take(d as int) =~= all_bytes());
        }
        if pencilmarks.len() != dimension {
            return None;
        }
        let figure = house.clone() - Figure::from(possible_positions);
        proof {
            let rest = |p: usize| !cells.contains(p);
            use_type_invariant(house);
            lemma_filter_ascending(house@, rest);
            assert forall|p: usize| figure@.to_set().contains(p) <==> house@.filter(
                rest,
            ).to_set().contains(p) by {
                assert(cells.to_set().contains(p) <==> cells.contains(p));
                assert(house@.to_set().contains(p) <==> house@.contains(p));
            }
            assert(figure@.to_set() =~= house@.filter(rest).to_set());
            lemma_ascending_unique(figure@, house@.filter(rest));
        }
        Some(Action::RemovePencilmarks { figure, pencilmarks })
    }

    /// For each house, a removal for each selection of `dimension` unsolved
    /// cells that have exactly `dimension` candidates together.
    fn multiple_applications(&self, grid: &Grid, dimension: usize) -> (res: ActionSet)
        requires
            1 <= dimension <= 4,
        ensures
            res@ == union_below(27, naked_house_parts(grid@, dimension as int)),
            forall|a: ActionView| res@.contains(a) ==> a.in_bounds(),
    {
        let mut res = ActionSet::new();
        let figures = Figure::all_figures();
        let combinations = index_combinations(9, dimension);
        let ghost g = grid@;
        let ghost dim = dimension as int;
        let mut k: usize = 0;
        proof {
            lemma_union_below_none(naked_house_parts(g, dim));
        }
        while k < 27
            invariant
                k <= 27,
                g == grid@,
                dim == dimension as int,
                figures@.len() == 27,
                forall|i: int| 0 <= i < 27 ==> (#[trigger] figures@[i])@ == house_positions(i),
                forall|i: int|
                    0 <= i < combinations@.len() ==> is_selection(
                        #[trigger] combinations@[i]@,
                        9,
                        dim,
                    ),
                forall|c: Seq<usize>|
                    is_selection(c, 9, dim) ==> exists|i: int|
                        0 <= i < combinations@.len() && #[trigger] combinations@[i]@ == c,
                res@ == union_below(k as int, naked_house_parts(g, dim)),
                forall|a: ActionView| res@.contains(a) ==> a.in_bounds(),
            decreases 27 - k,
        {
            let f = &figures[k];
            let ghost house = house_positions(k as int);
            let ghost each = naked_selection_parts(g, house, dim, combinations@);
            let ghost done = res@;
            proof {
                lemma_union_below_next(k as int, naked_house_parts(g, dim));
                lemma_house_positions(k as int);
                lemma_union_below_none(each);
            }
            let mut t: usize = 0;
            while t < combinations.len()
                invariant
                    t <= combinations@.len(),
                    g == grid@,
                    dim == dimension as int,
                    f@ == house,
                    house.len() == 9,
                    within_board(house),
                    forall|i: int|
                        0 <= i < combinations@.len() ==> is_selection(
                            #[trigger] combinations@[i]@,
                            9,
                            dim,
                        ),
                    each == naked_selection_parts(g, house, dim, combinations@),
                    res@ == done.union(union_below(t as int, each)),
                    forall|a: ActionView| res@.contains(a) ==> a.in_bounds(),
                decreases combinations@.len() - t,
            {
                proof {
                    lemma_union_below_next(t as int, each);
                }
                if let Some(action) = Naked::from_selection(
                    grid,
                    f,
                    dimension,
                    &combinations[t],
                ) {
                    res.insert(action);
                }
                assert(res@ =~= done.union(union_below(t + 1, each)));
                t += 1;
            }
            proof {
                let whole = union_below(combinations@.len() as int, each);
                let part = naked_house_part(g, house, dim);
                assert forall|a: ActionView| whole.contains(a) <==> part.contains(a) by {
                    if whole.contains(a) {
                        let i = choose|i: int|
                            0 <= i < combinations@.len() && #[trigger] each(i).contains(a);
                        assert(is_selection(combinations@[i]@, 9, dim));
                        assert(naked_from(g, house, dim, combinations@[i]@) == Some(a));
                    }
                    if part.contains(a) {
                        let selection = choose|selection: Seq<usize>|
                            is_selection(selection, 9, dim) && #[trigger] naked_from(
                                g,
                                house,
                                dim,
                                selection,
                            ) == Some(a);
                        let i = choose|i: int|
                            0 <= i < combinations@.len() && #[trigger] combinations@[i]@
                                == selection;
                        assert(each(i).contains(a));
                    }
                }
                assert(whole =~= part);
                assert(naked_house_parts(g, dim)(k as int) == part);
            }
            k += 1;
        }
        res
    }

    /// The actions that the method proposes for the grid.
    pub fn get_all_applications(&self, grid: &Grid) -> (res: ActionSet)
        ensures
            res@ == self.applications(grid@),
            forall|a: ActionView| res@.contains(a) ==> a.in_bounds(),
    {
        let dimension: usize = match self {
            Naked::Single => 1,
            Naked::Pair => 2,
            Naked::Triple => 3,
            Naked::Quad => 4,
        };
        if dimension == 1 {
            self.single_applications(grid)
        } else {
            self.multiple_applications(grid, dimension)
        }
    }
}

} // verus!
