//! Digits whose places in one house all lie in a second one: what the
//! pointing method and the box-line reduction have in common.
use std::collections::HashMap;
use vstd::prelude::*;

use crate::action::{Action, ActionView};
use crate::cell::CellView;
use crate::figure::{
    col_positions, lemma_ascending_unique, lemma_col_positions, lemma_filter_ascending,
    lemma_row_positions, lemma_sqr_positions, row_positions, spec_col_of, spec_row_of, spec_sqr_of,
    sqr_positions, within_board, Figure,
};
use crate::grid::{digit_positions, lemma_digit_positions, listed, lookup, Grid};

verus! {

/// The three kinds of houses.
#[derive(Debug, Clone, Copy, PartialEq, Eq)]
pub enum Line {
    Row,
    Col,
    Sqr,
}

/// The number of the house of kind `kind` that holds position `p`.
pub open spec fn line_of(kind: Line, p: int) -> int {
    match kind {
        Line::Row => spec_row_of(p),
        Line::Col => spec_col_of(p),
        Line::Sqr => spec_sqr_of(p),
    }
}

/// The positions of house `n` of kind `kind`.
pub open spec fn line_positions(kind: Line, n: int) -> Seq<usize> {
    match kind {
        Line::Row => row_positions(n),
        Line::Col => col_positions(n),
        Line::Sqr => sqr_positions(n),
    }
}

/// Whether all of `places` lie in one house of kind `kind`.
pub open spec fn in_one_line(places: Seq<usize>, kind: Line) -> bool {
    forall|i: int|
        0 <= i < places.len() ==> line_of(kind, #[trigger] places[i] as int) == line_of(
            kind,
            places[0] as int,
        )
}

/// The removal that a digit leads to in `house`. If the digit has exactly
/// `dim` places in `house`, and they all lie in one house of kind `kind`,
/// then no other cell of that house can hold the digit.
pub open spec fn confined_from(
    g: Seq<CellView>,
    house: Seq<usize>,
    dim: int,
    digit: u8,
    kind: Line,
) -> Option<ActionView> {
    let places = digit_positions(g, house, digit);
    if places.len() == dim && in_one_line(places, kind) {
        Some(
            ActionView::RemovePencilmarks {
                figure: line_positions(kind, line_of(kind, places[0] as int)).filter(
                    |p: usize| !places.contains(p),
                ),
                pencilmarks: seq![digit],
            },
        )
    } else {
        None
    }
}

/// The removal that `digit` leads to in `house`, if any. `info` is the map
/// that `Grid::pencilmarks_info` gives for `house`.
pub(crate) fn confined(
    grid: &Grid,
    house: &Figure,
    info: &HashMap<u8, Vec<usize>>,
    dimension: usize,
    digit: u8,
    kind: Line,
) -> (res: Option<Action>)
    requires
        within_board(house@),
        dimension >= 1,
        forall|c: u8| #[trigger] listed(info@, c) == digit_positions(grid@, house@, c),
    ensures
        res is Some <==> confined_from(grid@, house@, dimension as int, digit, kind) is Some,
        res matches Some(a) ==> Some(a@) == confined_from(
            grid@,
            house@,
            dimension as int,
            digit,
            kind,
        ) && a@.in_bounds(),
{
    proof {
        assert(listed(info@, digit) == digit_positions(grid@, house@, digit));
        lemma_digit_positions(grid@, house@, digit);
    }
    let positions = match lookup(info, digit) {
        None => {
            return None;
        },
        Some(positions) => positions,
    };
    if positions.len() != dimension {
        return None;
    }
    let ghost places = positions@;
    let pencilmarks_figure = Figure::from(positions.clone());
    proof {
        assert forall|i: int| 0 <= i < pencilmarks_figure@.len() implies pencilmarks_figure@[i]
            < 81 by {
            let p = pencilmarks_figure@[i];
            assert(pencilmarks_figure@.contains(p));
            assert(pencilmarks_figure@.to_set().contains(p));
            assert(places.to_set().contains(p));
            assert(places.contains(p));
            assert(house@.contains(p));
        }
        assert forall|i: int| 0 <= i < places.len() implies pencilmarks_figure@.contains(
            #[trigger] places[i],
        ) by {
            assert(places.contains(places[i]));
            assert(places.to_set().contains(places[i]));
            assert(pencilmarks_figure@.to_set().contains(places[i]));
        }
    }
    let shared = match kind {
        Line::Row => pencilmarks_figure.is_on_the_same_row(),
        Line::Col => pencilmarks_figure.is_on_the_same_col(),
        Line::Sqr => pencilmarks_figure.is_on_the_same_sqr(),
    };
    let n = match shared {
        None => {
            proof {
                assert(pencilmarks_figure@.contains(places[0]));
                let (i, j) = choose|i: int, j: int|
                    0 <= i < pencilmarks_figure@.len() && 0 <= j < pencilmarks_figure@.len()
                        && line_of(kind, pencilmarks_figure@[i] as int) != line_of(
                        kind,
                        pencilmarks_figure@[j] as int,
                    );
                let a = pencilmarks_figure@[i];
                let b = pencilmarks_figure@[j];
                assert(pencilmarks_figure@.to_set().contains(a));
                assert(pencilmarks_figure@.to_set().contains(b));
                assert(places.to_set().contains(a));
                assert(places.to_set().contains(b));
                let ia = choose|k: int| 0 <= k < places.len() && places[k] == a;
                let ib = choose|k: int| 0 <= k < places.len() && places[k] == b;
                assert(line_of(kind, places[ia] as int) != line_of(kind, places[ib] as int));
            }
            return None;
        },
        Some(n) => n,
    };
    proof {
        assert forall|i: int| 0 <= i < places.len() implies line_of(
            kind,
            #[trigger] places[i] as int,
        ) == n by {
            assert(pencilmarks_figure@.contains(places[i]));
            let k = choose|k: int|
                0 <= k < pencilmarks_figure@.len() && pencilmarks_figure@[k] == places[i];
        }
        assert(places[0] < 81);
    }
    let line = match kind {
        Line::Row => Figure::row(n),
        Line::Col => Figure::col(n),
        Line::Sqr => Figure::sqr(n),
    };
    let figure = line - pencilmarks_figure;
    proof {
        let rest = |p: usize| !places.contains(p);
        let whole = line_positions(kind, n as int);
        lemma_row_positions(n as int);
        lemma_col_positions(n as int);
        lemma_sqr_positions(n as int);
        lemma_filter_ascending(whole, rest);
        assert forall|p: usize| figure@.to_set().contains(p) <==> whole.filter(rest).to_set().contains(
            p,
        ) by {
            assert(places.to_set().contains(p) <==> places.contains(p));
            assert(whole.to_set().contains(p) <==> whole.contains(p));
        }
        assert(figure@.to_set() =~= whole.filter(rest).to_set());
        lemma_ascending_unique(figure@, whole.filter(rest));
    }
    let mut pencilmarks: Vec<u8> = Vec::new();
    pencilmarks.push(digit);
    assert(pencilmarks@ =~= seq![digit]);
    Some(Action::RemovePencilmarks { figure, pencilmarks })
}

} // verus!
