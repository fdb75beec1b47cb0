use vstd::prelude::*;

use crate::cell::{
    has_digit, is_digit, keep_marks, lemma_kept, lemma_kept_candidate_list, Cell, CellView,
};
use crate::figure::{
    is_ascending, lemma_ascending_unique, lemma_filter_ascending, within_board, Figure,
};
use crate::grid::{placed, restricted_in, Grid};
use crate::sequences::lemma_filter_twice;
use crate::order::{
    digits_key, lemma_lex_irreflexive, lemma_lex_total, lemma_lex_transitive, lex_before,
    positions_key, rank_digits, rank_positions, Rank,
};

verus! {

/// An action as contracts see it: its figure is the ascending list of its
/// positions, its digits are listed in the order in which they are stored.
pub enum ActionView {
    PlaceNumber { position: usize, number: u8 },
    RemovePencilmarks { figure: Seq<usize>, pencilmarks: Seq<u8> },
    PreservePencilmarks { figure: Seq<usize>, pencilmarks: Seq<u8> },
}

/// A change of the grid that has been proposed and not yet made.
#[derive(Debug, PartialEq, Eq, PartialOrd, Ord)]
pub enum Action {
    /// Solve the cell at `position` with `number`.
    PlaceNumber { position: usize, number: u8 },
    /// Strike `pencilmarks` out of the candidates of the unsolved cells of `figure`.
    RemovePencilmarks { figure: Figure, pencilmarks: Vec<u8> },
    /// Leave to the unsolved cells of `figure` no candidates but `pencilmarks`.
    PreservePencilmarks { figure: Figure, pencilmarks: Vec<u8> },
}

impl View for Action {
    type V = ActionView;

    open spec fn view(&self) -> ActionView {
        match self {
            Action::PlaceNumber { position, number } => ActionView::PlaceNumber {
                position: *position,
                number: *number,
            },
            Action::RemovePencilmarks { figure, pencilmarks } => ActionView::RemovePencilmarks {
                figure: figure@,
                pencilmarks: pencilmarks@,
            },
            Action::PreservePencilmarks { figure, pencilmarks } => ActionView::PreservePencilmarks {
                figure: figure@,
                pencilmarks: pencilmarks@,
            },
        }
    }
}

impl Clone for Action {
    fn clone(&self) -> (res: Self)
        ensures
            res@ == self@,
    {
        match self {
            Action::PlaceNumber { position, number } => Action::PlaceNumber {
                position: *position,
                number: *number,
            },
            Action::RemovePencilmarks { figure, pencilmarks } => Action::RemovePencilmarks {
                figure: figure.clone(),
                pencilmarks: pencilmarks.clone(),
            },
            Action::PreservePencilmarks { figure, pencilmarks } => Action::PreservePencilmarks {
                figure: figure.clone(),
                pencilmarks: pencilmarks.clone(),
            },
        }
    }
}

/// Whether `kept` would strike the candidate at place `k` out.
pub open spec fn struck(marks: Seq<u8>, k: int, digits: Seq<u8>, preserve: bool) -> bool {
    0 <= k < marks.len() && digits.contains(marks[k]) != preserve
}

/// Whether cutting the candidates of the cell down with `kept` would strike
/// at least one of them out.
pub open spec fn touched(c: CellView, digits: Seq<u8>, preserve: bool) -> bool {
    match c {
        CellView::Number(_) => false,
        CellView::Pencilmarks(p) => exists|k: int| struck(p, k, digits, preserve),
    }
}

/// The positions of `figure` at which cutting the candidates down would
/// change the cell, in the order of the figure.
pub open spec fn touched_positions(
    g: Seq<CellView>,
    figure: Seq<usize>,
    digits: Seq<u8>,
    preserve: bool,
) -> Seq<usize> {
    figure.filter(|p: usize| touched(g[p as int], digits, preserve))
}

/// Whether cutting the candidates down in `figure` would change a cell.
pub open spec fn touches(g: Seq<CellView>, figure: Seq<usize>, digits: Seq<u8>, preserve: bool) -> bool {
    exists|i: int| 0 <= i < figure.len() && touched(g[#[trigger] figure[i] as int], digits, preserve)
}

impl ActionView {
    /// Whether every position that the action names lies on the board, and
    /// the number of a placement is a digit from 1 to 9.
    pub open spec fn in_bounds(self) -> bool {
        match self {
            ActionView::PlaceNumber { position, number } => position < 81 && is_digit(number),
            ActionView::RemovePencilmarks { figure, .. } => within_board(figure),
            ActionView::PreservePencilmarks { figure, .. } => within_board(figure),
        }
    }

    /// The grid after the action.
    pub open spec fn applied(self, g: Seq<CellView>) -> Seq<CellView> {
        match self {
            ActionView::PlaceNumber { position, number } => placed(g, position as int, number),
            ActionView::RemovePencilmarks { figure, pencilmarks } => restricted_in(
                g,
                figure,
                pencilmarks,
                false,
            ),
            ActionView::PreservePencilmarks { figure, pencilmarks } => restricted_in(
                g,
                figure,
                pencilmarks,
                true,
            ),
        }
    }

    /// Whether the action would change the grid: the cell to be solved is
    /// unsolved, or a cell of the figure would lose a candidate.
    pub open spec fn helpful(self, g: Seq<CellView>) -> bool {
        match self {
            ActionView::PlaceNumber { position, .. } => g[position as int] is Pencilmarks,
            ActionView::RemovePencilmarks { figure, pencilmarks } => touches(
                g,
                figure,
                pencilmarks,
                false,
            ),
            ActionView::PreservePencilmarks { figure, pencilmarks } => touches(
                g,
                figure,
                pencilmarks,
                true,
            ),
        }
    }

    /// The action with its figure narrowed to the positions at which it
    /// would change the cell: an unsolved cell that holds one of the digits
    /// of a removal, or one that holds a digit which a preservation does not
    /// list. A placement stays as it is.
    pub open spec fn simplified(self, g: Seq<CellView>) -> ActionView {
        match self {
            ActionView::PlaceNumber { position, number } => self,
            ActionView::RemovePencilmarks { figure, pencilmarks } => ActionView::RemovePencilmarks {
                figure: touched_positions(g, figure, pencilmarks, false),
                pencilmarks,
            },
            ActionView::PreservePencilmarks { figure, pencilmarks } => ActionView::PreservePencilmarks {
                figure: touched_positions(g, figure, pencilmarks, true),
                pencilmarks,
            },
        }
    }

    /// The place of the action's kind in the order of the kinds.
    pub open spec fn kind(self) -> int {
        match self {
            ActionView::PlaceNumber { .. } => 0,
            ActionView::RemovePencilmarks { .. } => 1,
            ActionView::PreservePencilmarks { .. } => 2,
        }
    }

    /// The first list by which actions of one kind are ordered: the position
    /// of a placement, the figure of the others.
    pub open spec fn first_key(self) -> Seq<int> {
        match self {
            ActionView::PlaceNumber { position, .. } => seq![position as int],
            ActionView::RemovePencilmarks { figure, .. } => positions_key(figure),
            ActionView::PreservePencilmarks { figure, .. } => positions_key(figure),
        }
    }

    /// The second list by which actions of one kind are ordered: the number
    /// of a placement, the digits of the others.
    pub open spec fn second_key(self) -> Seq<int> {
        match self {
            ActionView::PlaceNumber { number, .. } => seq![number as int],
            ActionView::RemovePencilmarks { pencilmarks, .. } => digits_key(pencilmarks),
            ActionView::PreservePencilmarks { pencilmarks, .. } => digits_key(pencilmarks),
        }
    }
}

/// The strict total order of the actions: by kind (placements, removals,
/// preservations), then by position or figure, then by number or digits,
/// lists being compared lexicographically.
pub open spec fn action_before(a: ActionView, b: ActionView) -> bool {
    ||| a.kind() < b.kind()
    ||| a.kind() == b.kind() && lex_before(a.first_key(), b.first_key())
    ||| a.kind() == b.kind() && a.first_key() == b.first_key() && lex_before(
        a.second_key(),
        b.second_key(),
    )
}

/// Actions of one kind with the same keys are the same action.
pub proof fn lemma_keys_fix_action(a: ActionView, b: ActionView)
    requires
        a.kind() == b.kind(),
        a.first_key() == b.first_key(),
        a.second_key() == b.second_key(),
    ensures
        a == b,
{
    match (a, b) {
        (
            ActionView::PlaceNumber { position: p1, number: n1 },
            ActionView::PlaceNumber { position: p2, number: n2 },
        ) => {
            assert(a.first_key()[0] == p1);
            assert(b.first_key()[0] == p2);
            assert(a.second_key()[0] == n1);
            assert(b.second_key()[0] == n2);
        },
        (
            ActionView::RemovePencilmarks { figure: f1, pencilmarks: d1 },
            ActionView::RemovePencilmarks { figure: f2, pencilmarks: d2 },
        ) => {
            lemma_keys_fix_lists(f1, f2, d1, d2);
        },
        (
            ActionView::PreservePencilmarks { figure: f1, pencilmarks: d1 },
            ActionView::PreservePencilmarks { figure: f2, pencilmarks: d2 },
        ) => {
            lemma_keys_fix_lists(f1, f2, d1, d2);
        },
        _ => {},
    }
}

/// Lists with the same keys are the same lists.
proof fn lemma_keys_fix_lists(f1: Seq<usize>, f2: Seq<usize>, d1: Seq<u8>, d2: Seq<u8>)
    requires
        positions_key(f1) == positions_key(f2),
        digits_key(d1) == digits_key(d2),
    ensures
        f1 == f2,
        d1 == d2,
{
    assert(f1.len() == positions_key(f1).len());
    assert(f2.len() == positions_key(f2).len());
    assert forall|i: int| 0 <= i < f1.len() implies f1[i] == f2[i] by {
        assert(positions_key(f1)[i] == f1[i] as int);
        assert(positions_key(f2)[i] == f2[i] as int);
    }
    assert(f1 =~= f2);
    assert(d1.len() == digits_key(d1).len());
    assert(d2.len() == digits_key(d2).len());
    assert forall|i: int| 0 <= i < d1.len() implies d1[i] == d2[i] by {
        assert(digits_key(d1)[i] == d1[i] as int);
        assert(digits_key(d2)[i] == d2[i] as int);
    }
    assert(d1 =~= d2);
}

/// No action comes before itself.
pub proof fn lemma_action_irreflexive(a: ActionView)
    ensures
        !action_before(a, a),
{
    lemma_lex_irreflexive(a.first_key());
    lemma_lex_irreflexive(a.second_key());
}

/// The order of the actions is transitive.
pub proof fn lemma_action_transitive(a: ActionView, b: ActionView, c: ActionView)
    requires
        action_before(a, b),
        action_before(b, c),
    ensures
        action_before(a, c),
{
    if a.kind() == b.kind() && b.kind() == c.kind() {
        if lex_before(a.first_key(), b.first_key()) && lex_before(b.first_key(), c.first_key()) {
            lemma_lex_transitive(a.first_key(), b.first_key(), c.first_key());
        }
        if a.first_key() == b.first_key() && b.first_key() == c.first_key() {
            lemma_lex_irreflexive(a.first_key());
            lemma_lex_transitive(a.second_key(), b.second_key(), c.second_key());
        }
    }
}

/// Of two different actions one comes before the other.
pub proof fn lemma_action_total(a: ActionView, b: ActionView)
    ensures
        a == b || action_before(a, b) || action_before(b, a),
{
    if a.kind() == b.kind() {
        lemma_lex_total(a.first_key(), b.first_key());
        if a.first_key() == b.first_key() {
            lemma_lex_total(a.second_key(), b.second_key());
            if a.second_key() == b.second_key() {
                lemma_keys_fix_action(a, b);
            }
        }
    }
}

/// Whether no cell of `after` has a candidate that the cell of `before` at
/// its position does not have.
pub open spec fn no_new_candidates(before: Seq<CellView>, after: Seq<CellView>) -> bool {
    &&& after.len() == before.len()
    &&& forall|q: int, d: u8|
        0 <= q < before.len() && (#[trigger] after[q].has_candidate(d)) ==> before[q].has_candidate(
            d,
        )
}

/// No action gives a cell a candidate that it did not have.
pub proof fn lemma_applied_no_new_candidates(a: ActionView, g: Seq<CellView>)
    requires
        g.len() == 81,
        a.in_bounds(),
    ensures
        no_new_candidates(g, a.applied(g)),
{
    let r = a.applied(g);
    assert forall|q: int, d: u8| 0 <= q < 81 && (#[trigger] r[q].has_candidate(d)) implies g[q].has_candidate(
        d,
    ) by {
        match a {
            ActionView::PlaceNumber { position, number } => {
                let u = g.update(position as int, CellView::Number(number));
                match u[q] {
                    CellView::Number(_) => {},
                    CellView::Pencilmarks(p) => {
                        lemma_kept(p, seq![number], false);
                    },
                }
            },
            ActionView::RemovePencilmarks { figure, pencilmarks } => {
                match g[q] {
                    CellView::Number(_) => {},
                    CellView::Pencilmarks(p) => {
                        lemma_kept(p, pencilmarks, false);
                    },
                }
            },
            ActionView::PreservePencilmarks { figure, pencilmarks } => {
                match g[q] {
                    CellView::Number(_) => {},
                    CellView::Pencilmarks(p) => {
                        lemma_kept(p, pencilmarks, true);
                    },
                }
            },
        }
    }
}

/// Whether every solved cell of `before` is the same in `after`.
pub open spec fn keeps_solved(before: Seq<CellView>, after: Seq<CellView>) -> bool {
    &&& after.len() == before.len()
    &&& forall|q: int|
        0 <= q < before.len() && (#[trigger] before[q]) is Number ==> after[q] == before[q]
}

/// Whether the action places no number on a solved cell of the grid.
pub open spec fn spares_solved(a: ActionView, g: Seq<CellView>) -> bool {
    a matches ActionView::PlaceNumber { position, .. } ==> g[position as int] is Pencilmarks
}

/// An action that places no number on a cell that was solved in `start`
/// leaves the cells that were solved in `start` as they are.
pub proof fn lemma_applied_keeps_solved(a: ActionView, start: Seq<CellView>, g: Seq<CellView>)
    requires
        start.len() == 81,
        a.in_bounds(),
        keeps_solved(start, g),
        spares_solved(a, start),
    ensures
        keeps_solved(start, a.applied(g)),
{
    let r = a.applied(g);
    assert forall|q: int| 0 <= q < 81 && (#[trigger] start[q]) is Number implies r[q]
        == start[q] by {
        assert(g[q] == start[q]);
    }
}

/// A cell whose candidates were cut down stays as it is when they are cut
/// down again in the same way, and nothing is left to strike out.
pub proof fn lemma_restricted_twice(c: CellView, digits: Seq<u8>, preserve: bool)
    ensures
        c.restricted(digits, preserve).restricted(digits, preserve) == c.restricted(
            digits,
            preserve,
        ),
        !touched(c.restricted(digits, preserve), digits, preserve),
{
    match c {
        CellView::Number(_) => {},
        CellView::Pencilmarks(p) => {
            let passes = |m: u8| digits.contains(m) == preserve;
            lemma_filter_twice(p, passes, passes, passes);
            let k = crate::cell::kept(p, digits, preserve);
            lemma_kept(p, digits, preserve);
            assert forall|i: int| !struck(k, i, digits, preserve) by {
                if 0 <= i < k.len() {
                    assert(k.contains(k[i]));
                }
            }
        },
    }
}

/// An action that was made changes nothing when it is made again: the grid
/// stays as it is, and the action is no longer helpful.
pub proof fn lemma_action_idempotent(a: ActionView, g: Seq<CellView>)
    requires
        g.len() == 81,
        a.in_bounds(),
    ensures
        a.applied(a.applied(g)) == a.applied(g),
        !a.helpful(a.applied(g)),
{
    let once = a.applied(g);
    let twice = a.applied(once);
    match a {
        ActionView::PlaceNumber { position, number } => {
            let u = g.update(position as int, CellView::Number(number));
            assert(once[position as int] == CellView::Number(number));
            assert(once.update(position as int, CellView::Number(number)) =~= once);
            assert forall|q: int| 0 <= q < 81 implies twice[q] == once[q] by {
                lemma_restricted_twice(u[q], seq![number], false);
            }
            assert(twice =~= once);
        },
        ActionView::RemovePencilmarks { figure, pencilmarks } => {
            assert forall|q: int| 0 <= q < 81 implies twice[q] == once[q] by {
                lemma_restricted_twice(g[q], pencilmarks, false);
            }
            assert(twice =~= once);
            assert forall|i: int| 0 <= i < figure.len() implies !touched(
                once[#[trigger] figure[i] as int],
                pencilmarks,
                false,
            ) by {
                assert(figure.contains(figure[i]));
                lemma_restricted_twice(g[figure[i] as int], pencilmarks, false);
            }
        },
        ActionView::PreservePencilmarks { figure, pencilmarks } => {
            assert forall|q: int| 0 <= q < 81 implies twice[q] == once[q] by {
                lemma_restricted_twice(g[q], pencilmarks, true);
            }
            assert(twice =~= once);
            assert forall|i: int| 0 <= i < figure.len() implies !touched(
                once[#[trigger] figure[i] as int],
                pencilmarks,
                true,
            ) by {
                assert(figure.contains(figure[i]));
                lemma_restricted_twice(g[figure[i] as int], pencilmarks, true);
            }
        },
    }
}

/// Whether cutting the candidates of the cell down would strike one out.
fn cell_touched(cell: &Cell, digits: &Vec<u8>, preserve: bool) -> (res: bool)
    ensures
        res == touched(cell@, digits@, preserve),
{
    match cell {
        Cell::Number(_) => false,
        Cell::Pencilmarks(p) => {
            let mut k: usize = 0;
            while k < p.len()
                invariant
                    k <= p@.len(),
                    cell@ == CellView::Pencilmarks(p@),
                    forall|j: int| 0 <= j < k ==> !struck(p@, j, digits@, preserve),
                decreases p@.len() - k,
            {
                if has_digit(digits, p[k]) != preserve {
                    assert(struck(cell@->Pencilmarks_0, k as int, digits@, preserve));
                    return true;
                }
                k += 1;
            }
            false
        },
    }
}

/// Whether cutting the candidates down in `figure` would change a cell.
fn figure_touches(grid: &Grid, figure: &Figure, digits: &Vec<u8>, preserve: bool) -> (res: bool)
    requires
        within_board(figure@),
    ensures
        res == touches(grid@, figure@, digits@, preserve),
{
    let positions = figure.positions();
    let mut i: usize = 0;
    while i < positions.len()
        invariant
            i <= positions@.len(),
            positions@ == figure@,
            within_board(figure@),
            forall|j: int|
                0 <= j < i ==> !touched(grid@[#[trigger] figure@[j] as int], digits@, preserve),
        decreases positions@.len() - i,
    {
        if cell_touched(grid.get(positions[i]), digits, preserve) {
            return true;
        }
        i += 1;
    }
    false
}

/// The positions of `figure` at which cutting the candidates down would
/// change the cell.
pub(crate) fn narrowed(grid: &Grid, figure: &Figure, digits: &Vec<u8>, preserve: bool) -> (res:
    Figure)
    requires
        within_board(figure@),
    ensures
        res.wf(),
        within_board(res@),
        res@ == touched_positions(grid@, figure@, digits@, preserve),
{
    let ghost pred = |p: usize| touched(grid@[p as int], digits@, preserve);
    let positions = figure.positions();
    let mut chosen: Vec<usize> = Vec::new();
    let mut i: usize = 0;
    proof {
        reveal(Seq::filter);
        assert(figure@.take(0) =~= Seq::<usize>::empty());
    }
    while i < positions.len()
        invariant
            i <= positions@.len(),
            positions@ == figure@,
            within_board(figure@),
            pred == |p: usize| touched(grid@[p as int], digits@, preserve),
            chosen@ == figure@.take(i as int).filter(pred),
        decreases positions@.len() - i,
    {
        let pos = positions[i];
        proof {
            assert(figure@.take(i + 1) =~= figure@.take(i as int).push(pos));
            figure@.take(i as int).lemma_filter_push(pos, pred);
        }
        if cell_touched(grid.get(pos), digits, preserve) {
            chosen.push(pos);
        }
        i += 1;
    }
    let res = Figure::from(chosen);
    proof {
        assert(figure@.take(i as int) =~= figure@);
        use_type_invariant(figure);
        lemma_filter_ascending(figure@, pred);
        lemma_ascending_unique(res@, chosen@);
    }
    res
}

impl Action {
    /// Cuts the candidates of the unsolved cells of `figure` down: keeps the
    /// digits of `pencilmarks` (`preserve`), or strikes them out (`!preserve`).
    fn remove_or_preserve_pencilmarks(
        grid: &mut Grid,
        figure: &Figure,
        pencilmarks: &Vec<u8>,
        preserve: bool,
    )
        requires
            within_board(figure@),
        ensures
            final(grid).wf(),
            final(grid)@ == restricted_in(old(grid)@, figure@, pencilmarks@, preserve),
    {
        proof {
            use_type_invariant(&*grid);
        }
        let positions = figure.positions();
        let mut k: usize = 0;
        while k < positions.len()
            invariant
                k <= positions@.len(),
                positions@ == figure@,
                is_ascending(positions@),
                within_board(positions@),
                grid.wf(),
                old(grid).wf(),
                forall|q: int|
                    0 <= q < 81 ==> #[trigger] grid@[q] == if positions@.take(k as int).contains(
                        q as usize,
                    ) {
                        old(grid)@[q].restricted(pencilmarks@, preserve)
                    } else {
                        old(grid)@[q]
                    },
            decreases positions@.len() - k,
        {
            let pos = positions[k];
            let ghost before = grid@;
            proof {
                let done = positions@.take(k as int);
                assert(positions@.take(k + 1) =~= done.push(pos));
                assert(!done.contains(pos)) by {
                    if done.contains(pos) {
                        let j = choose|j: int| 0 <= j < done.len() && done[j] == pos;
                        assert(positions@[j] < positions@[k as int]);
                    }
                }
            }
            let cut = match grid.get(pos) {
                Cell::Number(_) => None,
                Cell::Pencilmarks(old_pencilmarks) => {
                    proof {
                        assert(grid@[pos as int].valid());
                        lemma_kept_candidate_list(old_pencilmarks@, pencilmarks@, preserve);
                    }
                    Some(keep_marks(old_pencilmarks, pencilmarks, preserve))
                },
            };
            if let Some(new_pencilmarks) = cut {
                grid.set_pencilmarks(pos, new_pencilmarks);
            }
            proof {
                let done = positions@.take(k as int);
                let next = positions@.take(k + 1);
                assert(grid@ =~= before.update(
                    pos as int,
                    before[pos as int].restricted(pencilmarks@, preserve),
                ));
                assert forall|q: int| 0 <= q < 81 implies #[trigger] grid@[q] == if next.contains(
                    q as usize,
                ) {
                    old(grid)@[q].restricted(pencilmarks@, preserve)
                } else {
                    old(grid)@[q]
                } by {
                    if q == pos as int {
                        assert(next[k as int] == pos);
                    } else {
                        if next.contains(q as usize) {
                            let j = choose|j: int| 0 <= j < next.len() && next[j] == q as usize;
                            assert(done[j] == q as usize);
                        }
                        if done.contains(q as usize) {
                            let j = choose|j: int| 0 <= j < done.len() && done[j] == q as usize;
                            assert(next[j] == q as usize);
                        }
                    }
                }
            }
            k += 1;
        }
        proof {
            assert(positions@.take(k as int) =~= positions@);
            assert(grid@ =~= restricted_in(old(grid)@, figure@, pencilmarks@, preserve));
        }
    }

    /// Makes the change that the action describes.
    pub fn apply_to_grid(&self, grid: &mut Grid)
        requires
            self@.in_bounds(),
        ensures
            final(grid).wf(),
            final(grid)@ == self@.applied(old(grid)@),
    {
        match self {
            Action::PlaceNumber { position, number } => {
                grid.set_number(*position, *number);
            },
            Action::RemovePencilmarks { figure, pencilmarks } => {
                Self::remove_or_preserve_pencilmarks(grid, figure, pencilmarks, false);
            },
            Action::PreservePencilmarks { figure, pencilmarks } => {
                Self::remove_or_preserve_pencilmarks(grid, figure, pencilmarks, true);
            },
        }
    }

    /// Whether the action would change the grid.
    pub fn is_helpful(&self, grid: &Grid) -> (res: bool)
        requires
            self@.in_bounds(),
        ensures
            res == self@.helpful(grid@),
    {
        match self {
            Action::PlaceNumber { position, .. } => grid.get(*position).is_pencilmarks(),
            Action::RemovePencilmarks { figure, pencilmarks } => figure_touches(
                grid,
                figure,
                pencilmarks,
                false,
            ),
            Action::PreservePencilmarks { figure, pencilmarks } => figure_touches(
                grid,
                figure,
                pencilmarks,
                true,
            ),
        }
    }

    /// Narrows the figure of a removal or preservation to the positions at
    /// which the action would change the cell.
    pub fn simplify(&mut self, grid: &Grid)
        requires
            old(self)@.in_bounds(),
        ensures
            final(self)@ == old(self)@.simplified(grid@),
            final(self)@.in_bounds(),
    {
        match self {
            Action::PlaceNumber { .. } => {},
            Action::RemovePencilmarks { figure, pencilmarks } => {
                *figure = narrowed(grid, figure, pencilmarks, false);
            },
            Action::PreservePencilmarks { figure, pencilmarks } => {
                *figure = narrowed(grid, figure, pencilmarks, true);
            },
        }
    }

    /// Compares two actions in the order of the actions.
    pub fn rank(&self, other: &Action) -> (r: Rank)
        ensures
            match r {
                Rank::Before => action_before(self@, other@),
                Rank::Same => self@ == other@,
                Rank::After => action_before(other@, self@),
            },
    {
        match (self, other) {
            (
                Action::PlaceNumber { position: p1, number: n1 },
                Action::PlaceNumber { position: p2, number: n2 },
            ) => {
                proof {
                    let k1 = self@.first_key();
                    let k2 = other@.first_key();
                    let s1 = self@.second_key();
                    let s2 = other@.second_key();
                    assert(k1[0] == *p1 && k2[0] == *p2 && s1[0] == *n1 && s2[0] == *n2);
                    if *p1 < *p2 {
                        assert(crate::order::splits(k1, k2, 0));
                    }
                    if *p2 < *p1 {
                        assert(crate::order::splits(k2, k1, 0));
                    }
                    if *p1 == *p2 {
                        assert(k1 =~= k2);
                    }
                    if *n1 < *n2 {
                        assert(crate::order::splits(s1, s2, 0));
                    }
                    if *n2 < *n1 {
                        assert(crate::order::splits(s2, s1, 0));
                    }
                }
                if *p1 < *p2 {
                    Rank::Before
                } else if *p1 > *p2 {
                    Rank::After
                } else if *n1 < *n2 {
                    Rank::Before
                } else if *n1 > *n2 {
                    Rank::After
                } else {
                    Rank::Same
                }
            },
            (Action::PlaceNumber { .. }, _) => Rank::Before,
            (Action::RemovePencilmarks { .. }, Action::PlaceNumber { .. }) => Rank::After,
            (
                Action::RemovePencilmarks { figure: f1, pencilmarks: d1 },
                Action::RemovePencilmarks { figure: f2, pencilmarks: d2 },
            ) => {
                match rank_positions(f1.positions(), f2.positions()) {
                    Rank::Before => Rank::Before,
                    Rank::After => Rank::After,
                    Rank::Same => rank_digits(d1, d2),
                }
            },
            (Action::RemovePencilmarks { .. }, Action::PreservePencilmarks { .. }) => Rank::Before,
            (
                Action::PreservePencilmarks { figure: f1, pencilmarks: d1 },
                Action::PreservePencilmarks { figure: f2, pencilmarks: d2 },
            ) => {
                match rank_positions(f1.positions(), f2.positions()) {
                    Rank::Before => Rank::Before,
                    Rank::After => Rank::After,
                    Rank::Same => rank_digits(d1, d2),
                }
            },
            (Action::PreservePencilmarks { .. }, _) => Rank::After,
        }
    }
}

} // verus!
