use vstd::prelude::*;

use crate::action::{narrowed, touched_positions, Action, ActionView};
use crate::combinations::{index_combinations, is_selection};
use crate::action_set::ActionSet;
use crate::cell::CellView;
use crate::figure::{house_positions, lemma_house_positions, within_board, Figure};
use crate::grid::{
    digit_positions, lemma_digit_positions, lemma_digit_positions_solved, listed, lookup,
    spec_is_solved, Grid,
};
use crate::unions::{
    lemma_union_below_empty, lemma_union_below_next, lemma_union_below_none, optional, union_below,
};

verus! {

/// The placement that a digit calls for in a house: its only place there, if
/// it has just one.
pub open spec fn hidden_single_from(g: Seq<CellView>, house: Seq<usize>, digit: u8) -> Option<
    ActionView,
> {
    let places = digit_positions(g, house, digit);
    if places.len() == 1 {
        Some(ActionView::PlaceNumber { position: places[0], number: digit })
    } else {
        None
    }
}

/// For each digit, the set of the placement that it calls for in a house.
pub open spec fn hidden_single_digit_parts(g: Seq<CellView>, house: Seq<usize>) -> spec_fn(
    int,
) -> Set<ActionView> {
    |d: int| optional(hidden_single_from(g, house, d as u8))
}

/// For each of the 27 houses, the placements that the digits call for in it.
pub open spec fn hidden_single_house_parts(g: Seq<CellView>) -> spec_fn(int) -> Set<ActionView> {
    |k: int| union_below(256, hidden_single_digit_parts(g, house_positions(k)))
}

/// The digits that `selection` lists: the digit `t + 1` for the entry `t`.
pub open spec fn chosen_digits(selection: Seq<usize>) -> Seq<u8> {
    selection.map_values(|t: usize| (t + 1) as u8)
}

/// Whether each of `digits` is a candidate somewhere in the house.
pub open spec fn each_has_place(g: Seq<CellView>, house: Seq<usize>, digits: Seq<u8>) -> bool {
    forall|i: int| 0 <= i < digits.len() ==> digit_positions(g, house, #[trigger] digits[i]).len() > 0
}

/// The preservation that a selection of `dim` of the digits 1 to 9 leads to
/// in a house. If each of the digits has a place in the house, and the
/// cells that hold one of them are exactly `dim`, then these cells can hold
/// no other digit.
pub open spec fn hidden_from(
    g: Seq<CellView>,
    house: Seq<usize>,
    dim: int,
    selection: Seq<usize>,
) -> Option<ActionView> {
    let digits = chosen_digits(selection);
    let places = touched_positions(g, house, digits, false);
    if each_has_place(g, house, digits) && places.len() == dim {
        Some(ActionView::PreservePencilmarks { figure: places, pencilmarks: digits })
    } else {
        None
    }
}

/// The preservations that a house leads to: one for each way to choose
/// `dim` of the digits 1 to 9 so that they have places in the house, in
/// exactly `dim` cells together.
pub open spec fn hidden_house_part(g: Seq<CellView>, house: Seq<usize>, dim: int) -> Set<
    ActionView,
> {
    Set::new(
        |a: ActionView|
            exists|selection: Seq<usize>|
                is_selection(selection, 9, dim) && #[trigger] hidden_from(
                    g,
                    house,
                    dim,
                    selection,
                ) == Some(a),
    )
}

/// For each of the 27 houses, the preservations that it leads to.
pub open spec fn hidden_house_parts(g: Seq<CellView>, dim: int) -> spec_fn(int) -> Set<ActionView> {
    |k: int| hidden_house_part(g, house_positions(k), dim)
}

/// For each of the listed selections, the set of the preservation that it leads to.
pub open spec fn hidden_selection_parts(
    g: Seq<CellView>,
    house: Seq<usize>,
    dim: int,
    selections: Seq<Vec<usize>>,
) -> spec_fn(int) -> Set<ActionView> {
    |t: int| optional(hidden_from(g, house, dim, selections[t]@))
}

/// In a solved grid the method finds nothing.
pub proof fn lemma_hidden_solved(g: Seq<CellView>, method: Hidden)
    requires
        g.len() == 81,
        spec_is_solved(g),
    ensures
        method.applications(g) == Set::<ActionView>::empty(),
{
    let dim = method.dimension();
    if dim == 1 {
        assert forall|k: int| 0 <= k < 27 implies #[trigger] hidden_single_house_parts(g)(k)
            == Set::<ActionView>::empty() by {
            lemma_house_positions(k);
            let house = house_positions(k);
            assert forall|d: int| 0 <= d < 256 implies #[trigger] hidden_single_digit_parts(
                g,
                house,
            )(d) == Set::<ActionView>::empty() by {
                lemma_digit_positions_solved(g, house, d as u8);
            }
            lemma_union_below_empty(256, hidden_single_digit_parts(g, house));
        }
        lemma_union_below_empty(27, hidden_single_house_parts(g));
    } else {
        assert forall|k: int| 0 <= k < 27 implies #[trigger] hidden_house_parts(g, dim)(k)
            == Set::<ActionView>::empty() by {
            lemma_house_positions(k);
            let house = house_positions(k);
            let part = hidden_house_part(g, house, dim);
            assert forall|a: ActionView| !part.contains(a) by {
                if part.contains(a) {
                    let selection = choose|selection: Seq<usize>|
                        is_selection(selection, 9, dim) && #[trigger] hidden_from(
                            g,
                            house,
                            dim,
                            selection,
                        ) == Some(a);
                    let digits = chosen_digits(selection);
                    lemma_digit_positions_solved(g, house, digits[0]);
                }
            }
            assert(part =~= Set::<ActionView>::empty());
        }
        lemma_union_below_empty(27, hidden_house_parts(g, dim));
    }
}

/// Hidden singles, pairs, triples and quads: digits that have as many
/// places together in a house as they are.
#[derive(Debug, Clone, Copy, PartialEq, Eq)]
pub enum Hidden {
    Single,
    Pair,
    Triple,
    Quad,
}

impl Hidden {
    /// How many digits and places the method looks for.
    pub open spec fn dimension(self) -> int {
        match self {
            Hidden::Single => 1,
            Hidden::Pair => 2,
            Hidden::Triple => 3,
            Hidden::Quad => 4,
        }
    }

    /// The actions that the method proposes for a grid.
    pub open spec fn applications(self, g: Seq<CellView>) -> Set<ActionView> {
        if self.dimension() == 1 {
            union_below(27, hidden_single_house_parts(g))
        } else {
            union_below(27, hidden_house_parts(g, self.dimension()))
        }
    }

    /// For each house, a placement for each digit with a single place in it.
    fn single_applications(&self, grid: &Grid) -> (res: ActionSet)
        ensures
            res@ == union_below(27, hidden_single_house_parts(grid@)),
            forall|a: ActionView| res@.contains(a) ==> a.in_bounds(),
    {
        let mut res = ActionSet::new();
        let figures = Figure::all_figures();
        let mut k: usize = 0;
        proof {
            use_type_invariant(grid);
            lemma_union_below_none(hidden_single_house_parts(grid@));
        }
        while k < 27
            invariant
                k <= 27,
                grid.wf(),
                figures@.len() == 27,
                forall|i: int| 0 <= i < 27 ==> (#[trigger] figures@[i])@ == house_positions(i),
                res@ == union_below(k as int, hidden_single_house_parts(grid@)),
                forall|a: ActionView| res@.contains(a) ==> a.in_bounds(),
            decreases 27 - k,
        {
            let ghost house = house_positions(k as int);
            let ghost parts = hidden_single_digit_parts(grid@, house);
            let ghost done = res@;
            proof {
                lemma_union_below_next(k as int, hidden_single_house_parts(grid@));
                lemma_house_positions(k as int);
                lemma_union_below_none(parts);
            }
            let info = grid.pencilmarks_info(figures[k].clone());
            let mut d: usize = 0;
            while d < 256
                invariant
                    d <= 256,
                    grid.wf(),
                    within_board(house),
                    parts == hidden_single_digit_parts(grid@, house),
                    forall|c: u8| #[trigger] listed(info@, c) == digit_positions(grid@, house, c),
                    res@ == done.union(union_below(d as int, parts)),
                    forall|a: ActionView| res@.contains(a) ==> a.in_bounds(),
                decreases 256 - d,
            {
                let digit = d as u8;
                proof {
                    lemma_union_below_next(d as int, parts);
                    assert(listed(info@, digit) == digit_positions(grid@, house, digit));
                    lemma_digit_positions(grid@, house, digit);
                }
                if let Some(positions) = lookup(&info, digit) {
                    if positions.len() == 1 {
                        proof {
                            let p = positions@[0];
                            assert(positions@.contains(p));
                            assert(house.contains(p));
                            assert(grid@[p as int].has_candidate(digit));
                            assert(grid@[p as int].valid());
                            let marks = grid@[p as int]->Pencilmarks_0;
                            let i = choose|i: int| 0 <= i < marks.len() && marks[i] == digit;
                            assert(crate::cell::is_digit(marks[i]));
                        }
                        res.insert(Action::PlaceNumber { position: positions[0], number: digit });
                    }
                }
                assert(res@ =~= done.union(union_below(d + 1, parts)));
                d += 1;
            }
            k += 1;
        }
        res
    }

    /// The preservation that the selected digits lead to in `house`, if
    /// any. `info` is the map that `Grid::pencilmarks_info` gives for `house`.
    fn from_selection(
        grid: &Grid,
        house: &Figure,
        info: &std::collections::HashMap<u8, Vec<usize>>,
        dimension: usize,
        selection: &Vec<usize>,
    ) -> (res: Option<Action>)
        requires
            within_board(house@),
            is_selection(selection@, 9, dimension as int),
            forall|c: u8| #[trigger] listed(info@, c) == digit_positions(grid@, house@, c),
            forall|c: u8| #[trigger]
                info@.contains_key(c) <==> digit_positions(grid@, house@, c).len() > 0,
        ensures
            res is Some <==> hidden_from(grid@, house@, dimension as int, selection@) is Some,
            res matches Some(a) ==> Some(a@) == hidden_from(
                grid@,
                house@,
                dimension as int,
                selection@,
            ) && a@.in_bounds(),
    {
        let ghost digits = chosen_digits(selection@);
        let mut pencilmarks: Vec<u8> = Vec::new();
        let mut t: usize = 0;
        while t < selection.len()
            invariant
                t <= selection@.len(),
                is_selection(selection@, 9, dimension as int),
                digits == chosen_digits(selection@),
                forall|c: u8| #[trigger] listed(info@, c) == digit_positions(grid@, house@, c),
            forall|c: u8| #[trigger]
                info@.contains_key(c) <==> digit_positions(grid@, house@, c).len() > 0,
                pencilmarks@ == digits.take(t as int),
                forall|i: int|
                    0 <= i < t ==> digit_positions(grid@, house@, #[trigger] digits[i]).len() > 0,
            decreases selection@.len() - t,
        {
            let digit = (selection[t] + 1) as u8;
            proof {
                assert(digits[t as int] == digit);
                assert(listed(info@, digit) == digit_positions(grid@, house@, digit));
            }
            if lookup(info, digit).is_none() {
                return None;
            }
            pencilmarks.push(digit);
            t += 1;
            proof {
                assert(pencilmarks@ =~= digits.take(t as int));
            }
        }
        proof {
            assert(digits.take(t as int) =~= digits);
        }
        let figure = narrowed(grid, house, &pencilmarks, false);
        if figure.len() != dimension {
            return None;
        }
        Some(Action::PreservePencilmarks { figure, pencilmarks })
    }

    /// For each house, a preservation for each selection of `dimension`
    /// digits that have their places in exactly `dimension` cells of the house.
    fn multiple_applications(&self, grid: &Grid, dimension: usize) -> (res: ActionSet)
        requires
            1 <= dimension <= 4,
        ensures
            res@ == union_below(27, hidden_house_parts(grid@, dimension as int)),
            forall|a: ActionView| res@.contains(a) ==> a.in_bounds(),
    {
        let mut res = ActionSet::new();
        let figures = Figure::all_figures();
        let combinations = index_combinations(9, dimension);
        let ghost g = grid@;
        let ghost dim = dimension as int;
        let mut k: usize = 0;
        proof {
            lemma_union_below_none(hidden_house_parts(g, dim));
        }
        while k < 27
            invariant
                k <= 27,
                g == grid@,
                dim == dimension as int,
                figures@.len() == 27,
                forall|i: int| 0 <= i < 27 ==> (#[trigger] figures@[i])@ == house_positions(i),
                forall|i: int|
                    0 <= i < combinations@.len() ==> is_selection(
                        #[trigger] combinations@[i]@,
                        9,
                        dim,
                    ),
                forall|c: Seq<usize>|
                    is_selection(c, 9, dim) ==> exists|i: int|
                        0 <= i < combinations@.len() && #[trigger] combinations@[i]@ == c,
                res@ == union_below(k as int, hidden_house_parts(g, dim)),
                forall|a: ActionView| res@.contains(a) ==> a.in_bounds(),
            decreases 27 - k,
        {
            let f = &figures[k];
            let ghost house = house_positions(k as int);
            let ghost each = hidden_selection_parts(g, house, dim, combinations@);
            let ghost done = res@;
            proof {
                lemma_union_below_next(k as int, hidden_house_parts(g, dim));
                lemma_house_positions(k as int);
                lemma_union_below_none(each);
            }
            let info = grid.pencilmarks_info(f.clone());
            let mut t: usize = 0;
            while t < combinations.len()
                invariant
                    t <= combinations@.len(),
                    g == grid@,
                    dim == dimension as int,
                    f@ == house,
                    within_board(house),
                    forall|c: u8| #[trigger] listed(info@, c) == digit_positions(g, house, c),
                    forall|c: u8| #[trigger]
                        info@.contains_key(c) <==> digit_positions(g, house, c).len() > 0,
                    forall|i: int|
                        0 <= i < combinations@.len() ==> is_selection(
                            #[trigger] combinations@[i]@,
                            9,
                            dim,
                        ),
                    each == hidden_selection_parts(g, house, dim, combinations@),
                    res@ == done.union(union_below(t as int, each)),
                    forall|a: ActionView| res@.contains(a) ==> a.in_bounds(),
                decreases combinations@.len() - t,
            {
                proof {
                    lemma_union_below_next(t as int, each);
                }
                if let Some(action) = Hidden::from_selection(
                    grid,
                    f,
                    &info,
                    dimension,
                    &combinations[t],
                ) {
                    res.insert(action);
                }
                assert(res@ =~= done.union(union_below(t + 1, each)));
                t += 1;
            }
            proof {
                let whole = union_below(combinations@.len() as int, each);
                let part = hidden_house_part(g, house, dim);
                assert forall|a: ActionView| whole.contains(a) <==> part.contains(a) by {
                    if whole.contains(a) {
                        let i = choose|i: int|
                            0 <= i < combinations@.len() && #[trigger] each(i).contains(a);
                        assert(is_selection(combinations@[i]@, 9, dim));
                        assert(hidden_from(g, house, dim, combinations@[i]@) == Some(a));
                    }
                    if part.contains(a) {
                        let selection = choose|selection: Seq<usize>|
                            is_selection(selection, 9, dim) && #[trigger] hidden_from(
                                g,
                                house,
                                dim,
                                selection,
                            ) == Some(a);
                        let i = choose|i: int|
                            0 <= i < combinations@.len() && #[trigger] combinations@[i]@
                                == selection;
                        assert(each(i).contains(a));
                    }
                }
                assert(whole =~= part);
                assert(hidden_house_parts(g, dim)(k as int) == part);
            }
            k += 1;
        }
        res
    }

    /// The actions that the method proposes for the grid.
    pub fn get_all_applications(&self, grid: &Grid) -> (res: ActionSet)
        ensures
            res@ == self.applications(grid@),
            forall|a: ActionView| res@.contains(a) ==> a.in_bounds(),
    {
        let dimension: usize = match self {
            Hidden::Single => 1,
            Hidden::Pair => 2,
            Hidden::Triple => 3,
            Hidden::Quad => 4,
        };
        if dimension == 1 {
            self.single_applications(grid)
        } else {
            self.multiple_applications(grid, dimension)
        }
    }
}

} // verus!
