use std::collections::HashMap;
use vstd::prelude::*;

use crate::action::{Action, ActionView};
use crate::action_set::ActionSet;
use crate::cell::{all_bytes, CellView};
use crate::combinations::{index_combinations, is_selection};
use crate::figure::{
    board, col_positions, lemma_ascending_unique, lemma_col_positions,
    lemma_filter_ascending, lemma_row_positions, row_positions, spec_col_of, spec_row_of,
    within_board, Figure,
};
use crate::grid::{
    digit_positions, lemma_digit_positions, lemma_digit_positions_solved, listed, lookup,
    spec_is_solved, Grid,
};
use crate::sequences::lemma_filter_none;
use crate::unions::{
    lemma_union_below_empty, lemma_union_below_next, lemma_union_below_none, optional, union_below,
};

verus! {

/// The places of a digit in one line, and the numbers of the lines that
/// cross it there.
pub struct CandidateView {
    pub rows: Seq<u8>,
    pub figure: Seq<usize>,
}

/// The positions of line `i`: a column, or a row where the search is rotated.
pub open spec fn fish_line(rotated: bool, i: int) -> Seq<usize> {
    if rotated {
        row_positions(i)
    } else {
        col_positions(i)
    }
}

/// The number of the crossing line through position `p`.
pub open spec fn cross_number(rotated: bool, p: usize) -> u8 {
    if rotated {
        spec_col_of(p as int) as u8
    } else {
        spec_row_of(p as int) as u8
    }
}

/// The candidate that a digit has in line `i`.
pub open spec fn fish_candidate(g: Seq<CellView>, rotated: bool, digit: u8, i: int) -> CandidateView {
    let figure = fish_line(rotated, i).filter(|p: usize| g[p as int].has_candidate(digit));
    CandidateView { rows: figure.map_values(|p: usize| cross_number(rotated, p)), figure }
}

/// Whether line `i` lists between two and `dim` places for the digit.
pub open spec fn fish_line_fits(g: Seq<CellView>, rotated: bool, dim: int, digit: u8, i: int) -> bool {
    2 <= digit_positions(g, fish_line(rotated, i), digit).len() <= dim
}

/// The numbers from 0 to 8.
pub open spec fn nine() -> Seq<int> {
    Seq::new(9, |i: int| i)
}

/// The candidates of a digit, line by line.
pub open spec fn fish_candidates(g: Seq<CellView>, rotated: bool, dim: int, digit: u8) -> Seq<
    CandidateView,
> {
    nine().filter(|i: int| fish_line_fits(g, rotated, dim, digit, i)).map_values(
        |i: int| fish_candidate(g, rotated, digit, i),
    )
}

/// How often `row` occurs in `rows`.
pub open spec fn count_of(rows: Seq<u8>, row: u8) -> nat {
    rows.filter(|r: u8| r == row).len()
}

/// How often `row` occurs among the rows of the candidates.
pub open spec fn row_count(chosen: Seq<CandidateView>, row: u8) -> nat
    decreases chosen.len(),
{
    if chosen.len() == 0 {
        0
    } else {
        row_count(chosen.drop_last(), row) + count_of(chosen.last().rows, row)
    }
}

/// The count that a map holds for `row`; nothing if it holds none.
pub open spec fn counted(m: Map<u8, u8>, row: u8) -> int {
    if m.contains_key(row) {
        m[row] as int
    } else {
        0
    }
}

/// The rows that occur among the rows of the candidates, in ascending order.
pub open spec fn rows_of(chosen: Seq<CandidateView>) -> Seq<u8> {
    all_bytes().filter(|r: u8| row_count(chosen, r) > 0)
}

/// Whether the candidates form a fish: their rows are `dim` in number, and
/// none of them occurs only once.
pub open spec fn rows_match(chosen: Seq<CandidateView>, dim: int) -> bool {
    rows_of(chosen).len() == dim && forall|r: u8| row_count(chosen, r) != 1
}

/// Whether one of the candidates holds position `p`.
pub open spec fn in_candidates(chosen: Seq<CandidateView>, p: usize) -> bool {
    exists|t: int| 0 <= t < chosen.len() && (#[trigger] chosen[t]).figure.contains(p)
}

/// The cells of the crossing lines of a fish that are not its own.
pub open spec fn fish_figure(chosen: Seq<CandidateView>, rotated: bool) -> Seq<usize> {
    board().filter(
        |p: usize| rows_of(chosen).contains(cross_number(rotated, p)) && !in_candidates(chosen, p),
    )
}

/// The removal that the candidates lead to, if they form a fish.
pub open spec fn fish_action(chosen: Seq<CandidateView>, rotated: bool, dim: int, digit: u8) -> Option<
    ActionView,
> {
    if rows_match(chosen, dim) {
        Some(
            ActionView::RemovePencilmarks {
                figure: fish_figure(chosen, rotated),
                pencilmarks: seq![digit],
            },
        )
    } else {
        None
    }
}

/// The candidates at the places that `selection` lists.
pub open spec fn picked(candidates: Seq<CandidateView>, selection: Seq<usize>) -> Seq<
    CandidateView,
> {
    selection.map_values(|t: usize| candidates[t as int])
}

/// The removals that one digit leads to: one for each way to choose `dim`
/// of its candidates so that they form a fish.
pub open spec fn fish_digit_part(g: Seq<CellView>, rotated: bool, dim: int, digit: u8) -> Set<
    ActionView,
> {
    let candidates = fish_candidates(g, rotated, dim, digit);
    Set::new(
        |a: ActionView|
            exists|selection: Seq<usize>|
                is_selection(selection, candidates.len() as int, dim) && fish_action(
                    #[trigger] picked(candidates, selection),
                    rotated,
                    dim,
                    digit,
                ) == Some(a),
    )
}

/// For each digit, the removals that it leads to.
pub open spec fn fish_digit_parts(g: Seq<CellView>, rotated: bool, dim: int) -> spec_fn(int) -> Set<
    ActionView,
> {
    |d: int| fish_digit_part(g, rotated, dim, d as u8)
}

/// For each of the listed selections, the set of the removal that it leads to.
pub open spec fn fish_selection_parts(
    candidates: Seq<CandidateView>,
    selections: Seq<Vec<usize>>,
    rotated: bool,
    dim: int,
    digit: u8,
) -> spec_fn(int) -> Set<ActionView> {
    |t: int| optional(fish_action(picked(candidates, selections[t]@), rotated, dim, digit))
}

/// Whether every row of every candidate is the number of a line.
pub open spec fn rows_on_board(chosen: Seq<CandidateView>) -> bool {
    forall|t: int, k: int|
        0 <= t < chosen.len() && 0 <= k < chosen[t].rows.len() ==> (#[trigger] chosen[t].rows[k])
            < 9
}

/// How `count_of` treats the last entry of a list.
pub proof fn lemma_count_push(rows: Seq<u8>, x: u8, row: u8)
    ensures
        count_of(rows.push(x), row) == count_of(rows, row) + if x == row {
            1nat
        } else {
            0nat
        },
{
    reveal(Seq::filter);
    assert(rows.push(x).drop_last() =~= rows);
}

/// A row is counted at most once for each entry, and only if it is an entry.
pub proof fn lemma_count_of(rows: Seq<u8>, row: u8)
    ensures
        count_of(rows, row) <= rows.len(),
        count_of(rows, row) > 0 ==> rows.contains(row),
    decreases rows.len(),
{
    if rows.len() == 0 {
        reveal(Seq::filter);
    } else {
        lemma_count_of(rows.drop_last(), row);
        lemma_count_push(rows.drop_last(), rows.last(), row);
        assert(rows.drop_last().push(rows.last()) =~= rows);
        if rows.drop_last().contains(row) {
            let k = choose|k: int| 0 <= k < rows.drop_last().len() && rows.drop_last()[k] == row;
            assert(rows[k] == row);
        }
        if rows.last() == row {
            assert(rows[rows.len() - 1] == row);
        }
    }
}

/// A row that is counted occurs in one of the candidates.
pub proof fn lemma_row_count(chosen: Seq<CandidateView>, row: u8)
    requires
        row_count(chosen, row) > 0,
    ensures
        exists|t: int, k: int|
            0 <= t < chosen.len() && 0 <= k < chosen[t].rows.len() && #[trigger] chosen[t].rows[k]
                == row,
    decreases chosen.len(),
{
    if chosen.len() > 0 {
        let last = chosen.last().rows;
        if count_of(last, row) > 0 {
            lemma_count_of(last, row);
            let k = choose|k: int| 0 <= k < last.len() && last[k] == row;
            assert(chosen[chosen.len() - 1].rows[k] == row);
        } else {
            lemma_row_count(chosen.drop_last(), row);
            let (t, k) = choose|t: int, k: int|
                0 <= t < chosen.drop_last().len() && 0 <= k < chosen.drop_last()[t].rows.len()
                    && #[trigger] chosen.drop_last()[t].rows[k] == row;
            assert(chosen[t].rows[k] == row);
        }
    }
}

/// The places of a digit in one line, and the numbers of the lines that
/// cross it there.
struct Candidate {
    rows: Vec<u8>,
    figure: Figure,
}

impl View for Candidate {
    type V = CandidateView;

    closed spec fn view(&self) -> CandidateView {
        CandidateView { rows: self.rows@, figure: self.figure@ }
    }
}

/// The views of a list of candidates.
spec fn candidate_views(candidates: Seq<Candidate>) -> Seq<CandidateView> {
    candidates.map_values(|c: Candidate| c@)
}

/// The views of a list of borrowed candidates.
spec fn borrowed_views(candidates: Seq<&Candidate>) -> Seq<CandidateView> {
    candidates.map_values(|c: &Candidate| c@)
}

impl Candidate {
    /// The candidate with the places `figure`.
    fn new(figure: Figure, rotated: bool) -> (res: Self)
        requires
            within_board(figure@),
        ensures
            res@.figure == figure@,
            res@.rows == figure@.map_values(|p: usize| cross_number(rotated, p)),
    {
        let positions = figure.positions();
        let mut rows: Vec<u8> = Vec::new();
        let mut i: usize = 0;
        while i < positions.len()
            invariant
                i <= positions@.len(),
                positions@ == figure@,
                within_board(figure@),
                rows@ == figure@.take(i as int).map_values(|p: usize| cross_number(rotated, p)),
            decreases positions@.len() - i,
        {
            let pos = positions[i];
            let row = if rotated {
                Figure::col_of(pos)
            } else {
                Figure::row_of(pos)
            };
            rows.push(row);
            i += 1;
            assert(rows@ =~= figure@.take(i as int).map_values(
                |p: usize| cross_number(rotated, p),
            ));
        }
        assert(figure@.take(i as int) =~= figure@);
        Self { rows, figure }
    }

    /// The rows of the candidates, if they form a fish.
    fn do_candidates_match(candidates: Vec<&Self>, dimensions: usize) -> (res: Option<Vec<u8>>)
        requires
            candidates@.len() <= 9,
            forall|t: int|
                0 <= t < candidates@.len() ==> (#[trigger] borrowed_views(candidates@)[t]).rows.len()
                    <= 9,
        ensures
            res is Some <==> rows_match(borrowed_views(candidates@), dimensions as int),
            res matches Some(rows) ==> rows@ == rows_of(borrowed_views(candidates@)),
    {
        broadcast use vstd::std_specs::hash::group_hash_axioms;

        let ghost chosen = borrowed_views(candidates@);
        // Row number to row count in the rows of the candidates
        let mut all_rows: HashMap<u8, u8> = HashMap::new();
        let mut t: usize = 0;
        proof {
            assert(chosen.take(0) =~= Seq::<CandidateView>::empty());
        }
        while t < candidates.len()
            invariant
                t <= candidates@.len(),
                candidates@.len() <= 9,
                chosen == borrowed_views(candidates@),
                forall|t: int| 0 <= t < chosen.len() ==> (#[trigger] chosen[t]).rows.len() <= 9,
                forall|x: u8| #[trigger] counted(all_rows@, x) == row_count(chosen.take(t as int), x),
                forall|x: u8| #[trigger] row_count(chosen.take(t as int), x) <= 9 * t,
            decreases candidates@.len() - t,
        {
            let candidate = candidates[t];
            let ghost rows = candidate.rows@;
            let ghost done = chosen.take(t as int);
            proof {
                assert(chosen[t as int].rows == rows);
                assert(chosen.take(t + 1) =~= done.push(chosen[t as int]));
                assert(done.push(chosen[t as int]).drop_last() =~= done);
                assert(rows.take(0) =~= Seq::<u8>::empty());
                assert forall|x: u8| #[trigger]
                    counted(all_rows@, x) == row_count(done, x) + count_of(rows.take(0), x) by {
                    reveal(Seq::filter);
                }
            }
            let mut k: usize = 0;
            while k < candidate.rows.len()
                invariant
                    k <= rows.len(),
                    rows == candidate.rows@,
                    rows.len() <= 9,
                    t < 9,
                        forall|x: u8| #[trigger] row_count(done, x) <= 9 * t,
                    forall|x: u8| #[trigger]
                        counted(all_rows@, x) == row_count(done, x) + count_of(
                            rows.take(k as int),
                            x,
                        ),
                decreases rows.len() - k,
            {
                let row = candidate.rows[k];
                let ghost before = all_rows@;
                proof {
                    assert(rows.take(k + 1) =~= rows.take(k as int).push(row));
                    lemma_count_of(rows.take(k as int), row);
                    assert(counted(all_rows@, row) == row_count(done, row) + count_of(
                        rows.take(k as int),
                        row,
                    ));
                }
                let count = match all_rows.get(&row) {
                    Some(this_row_count) => *this_row_count,
                    None => 0,
                };
                all_rows.insert(row, count + 1);
                proof {
                    let next = rows.take(k + 1);
                    assert forall|x: u8| #[trigger]
                        counted(all_rows@, x) == row_count(done, x) + count_of(next, x) by {
                        lemma_count_push(rows.take(k as int), row, x);
                        assert(counted(before, x) == row_count(done, x) + count_of(
                            rows.take(k as int),
                            x,
                        ));
                    }
                }
                k += 1;
            }
            proof {
                assert(rows.take(k as int) =~= rows);
                let next = chosen.take(t + 1);
                assert forall|x: u8| #[trigger] row_count(next, x) <= 9 * (t + 1) by {
                    lemma_count_of(rows, x);
                    assert(row_count(done, x) <= 9 * t);
                }
                assert forall|x: u8| #[trigger] counted(all_rows@, x) == row_count(next, x) by {
                    assert(counted(all_rows@, x) == row_count(done, x) + count_of(rows, x));
                }
            }
            t += 1;
        }
        proof {
            assert(chosen.take(t as int) =~= chosen);
        }
        let ghost occurs = |r: u8| row_count(chosen, r) > 0;
        let mut rows: Vec<u8> = Vec::new();
        let mut ok = true;
        let mut r: usize = 0;
        proof {
            reveal(Seq::filter);
            assert(all_bytes().take(0) =~= Seq::<u8>::empty());
        }
        while r < 256
            invariant
                r <= 256,
                occurs == |r: u8| row_count(chosen, r) > 0,
                forall|x: u8| #[trigger] counted(all_rows@, x) == row_count(chosen, x),
                rows@ == all_bytes().take(r as int).filter(occurs),
                ok <==> forall|x: u8| x < r ==> row_count(chosen, x) != 1,
            decreases 256 - r,
        {
            let row = r as u8;
            proof {
                assert(all_bytes().take(r + 1) =~= all_bytes().take(r as int).push(row));
                all_bytes().take(r as int).lemma_filter_push(row, occurs);
                assert(counted(all_rows@, row) == row_count(chosen, row));
            }
            let count = match all_rows.get(&row) {
                Some(this_row_count) => *this_row_count,
                None => 0,
            };
            if count > 0 {
                rows.push(row);
            }
            if count == 1 {
                ok = false;
            }
            r += 1;
        }
        proof {
            assert(all_bytes().take(r as int) =~= all_bytes());
        }
        if rows.len() == dimensions && ok {
            return Some(rows);
        }
        None
    }
}

/// The cells of the crossing lines with the numbers `rows`.
fn crossing(rows: &Vec<u8>, rotated: bool) -> (res: Figure)
    requires
        forall|i: int| 0 <= i < rows@.len() ==> rows@[i] < 9,
    ensures
        res.wf(),
        forall|p: usize| res@.contains(p) <==> p < 81 && rows@.contains(cross_number(rotated, p)),
{
    let mut figure = Figure::from(Vec::new());
    let mut i: usize = 0;
    proof {
        assert(Seq::<usize>::empty().to_set() =~= Set::<usize>::empty());
        assert forall|p: usize| !figure@.contains(p) by {
            assert(figure@.to_set().contains(p) <==> figure@.contains(p));
        }
    }
    while i < rows.len()
        invariant
            i <= rows@.len(),
            forall|i: int| 0 <= i < rows@.len() ==> rows@[i] < 9,
            figure.wf(),
            forall|p: usize| #[trigger]
                figure@.contains(p) <==> p < 81 && rows@.take(i as int).contains(
                    cross_number(rotated, p),
                ),
        decreases rows@.len() - i,
    {
        let row = rows[i];
        let f = if rotated {
            Figure::col(row)
        } else {
            Figure::row(row)
        };
        let ghost before = figure@;
        let ghost line = f@;
        proof {
            lemma_row_positions(row as int);
            lemma_col_positions(row as int);
            assert(rows@.take(i + 1) =~= rows@.take(i as int).push(row));
        }
        figure = figure + f;
        proof {
            let done = rows@.take(i as int);
            let next = rows@.take(i + 1);
            assert forall|p: usize| #[trigger]
                figure@.contains(p) <==> p < 81 && next.contains(cross_number(rotated, p)) by {
                assert(figure@.to_set().contains(p) <==> figure@.contains(p));
                assert(before.to_set().contains(p) <==> before.contains(p));
                assert(line.to_set().contains(p) <==> line.contains(p));
                let c = cross_number(rotated, p);
                if next.contains(c) {
                    let j = choose|j: int| 0 <= j < next.len() && next[j] == c;
                    if j < done.len() {
                        assert(done[j] == c);
                    }
                }
                if done.contains(c) {
                    let j = choose|j: int| 0 <= j < done.len() && done[j] == c;
                    assert(next[j] == c);
                }
                if p < 81 && c == row {
                    assert(next[i as int] == c);
                }
            }
        }
        i += 1;
    }
    proof {
        assert(rows@.take(i as int) =~= rows@);
    }
    figure
}

/// In a solved grid the method finds nothing.
pub proof fn lemma_fishes_solved(g: Seq<CellView>, method: Fishes)
    requires
        g.len() == 81,
        spec_is_solved(g),
    ensures
        method.applications(g) == Set::<ActionView>::empty(),
{
    let dim = method.dimension();
    assert forall|rotated: bool| #[trigger]
        method.in_row_or_col(g, rotated) == Set::<ActionView>::empty() by {
        assert forall|d: int| 0 <= d < 256 implies #[trigger] fish_digit_parts(g, rotated, dim)(d)
            == Set::<ActionView>::empty() by {
            let digit = d as u8;
            let fits = |i: int| fish_line_fits(g, rotated, dim, digit, i);
            assert forall|i: int| 0 <= i < nine().len() implies !fits(#[trigger] nine()[i]) by {
                lemma_row_positions(i);
                lemma_col_positions(i);
                lemma_digit_positions_solved(g, fish_line(rotated, i), digit);
            }
            lemma_filter_none(nine(), fits);
            let candidates = fish_candidates(g, rotated, dim, digit);
            assert(candidates.len() == 0);
            let part = fish_digit_part(g, rotated, dim, digit);
            assert forall|a: ActionView| !part.contains(a) by {
                if part.contains(a) {
                    let selection = choose|selection: Seq<usize>|
                        is_selection(selection, candidates.len() as int, dim) && fish_action(
                            #[trigger] picked(candidates, selection),
                            rotated,
                            dim,
                            digit,
                        ) == Some(a);
                    assert(selection[0] < 0);
                }
            }
            assert(part =~= Set::<ActionView>::empty());
        }
        lemma_union_below_empty(256, fish_digit_parts(g, rotated, dim));
    }
    assert(method.in_row_or_col(g, false) == Set::<ActionView>::empty());
    assert(method.in_row_or_col(g, true) == Set::<ActionView>::empty());
    assert(method.applications(g) =~= Set::<ActionView>::empty());
}

/// Fishes: `n` lines in which a digit has its places on the same `n`
/// crossing lines. The digit leaves the other cells of the crossing lines.
#[derive(Debug, Clone, Copy, PartialEq, Eq)]
pub enum Fishes {
    XWing,
    Swordfish,
    Jellyfish,
}

impl Fishes {
    /// How many lines the method looks for.
    pub open spec fn dimension(self) -> int {
        match self {
            Fishes::XWing => 2,
            Fishes::Swordfish => 3,
            Fishes::Jellyfish => 4,
        }
    }

    /// The actions that the method proposes for a grid along its columns,
    /// or along its rows where the search is rotated.
    pub open spec fn in_row_or_col(self, g: Seq<CellView>, rotated: bool) -> Set<ActionView> {
        union_below(256, fish_digit_parts(g, rotated, self.dimension()))
    }

    /// The actions that the method proposes for a grid.
    pub open spec fn applications(self, g: Seq<CellView>) -> Set<ActionView> {
        self.in_row_or_col(g, false).union(self.in_row_or_col(g, true))
    }

    /// The removal that the selected candidates lead to, if they form a fish.
    fn from_combination(
        candidates: &Vec<Candidate>,
        combination: &Vec<usize>,
        rotated: bool,
        dimensions: usize,
        number: u8,
    ) -> (res: Option<Action>)
        requires
            is_selection(combination@, candidates@.len() as int, dimensions as int),
            dimensions <= 4,
            rows_on_board(candidate_views(candidates@)),
            forall|t: int|
                0 <= t < candidates@.len() ==> (#[trigger] candidate_views(candidates@)[t]).rows.len()
                    <= 9,
        ensures
            res is Some <==> fish_action(
                picked(candidate_views(candidates@), combination@),
                rotated,
                dimensions as int,
                number,
            ) is Some,
            res matches Some(a) ==> Some(a@) == fish_action(
                picked(candidate_views(candidates@), combination@),
                rotated,
                dimensions as int,
                number,
            ) && a@.in_bounds(),
    {
        let ghost all = candidate_views(candidates@);
        let ghost chosen = picked(all, combination@);
        let mut selected: Vec<&Candidate> = Vec::new();
        let mut t: usize = 0;
        while t < combination.len()
            invariant
                t <= combination@.len(),
                is_selection(combination@, candidates@.len() as int, dimensions as int),
                all == candidate_views(candidates@),
                chosen == picked(all, combination@),
                selected@.len() == t,
                forall|k: int| 0 <= k < t ==> (#[trigger] selected@[k])@ == chosen[k],
            decreases combination@.len() - t,
        {
            selected.push(&candidates[combination[t]]);
            t += 1;
        }
        proof {
            assert(borrowed_views(selected@) =~= chosen);
            assert forall|t: int| 0 <= t < chosen.len() implies (#[trigger] chosen[t]).rows.len()
                <= 9 by {
                assert(chosen[t] == all[combination@[t] as int]);
            }
        }
        let rows = match Candidate::do_candidates_match(selected, dimensions) {
            None => {
                return None;
            },
            Some(rows) => rows,
        };
        proof {
            let occurs = |r: u8| row_count(chosen, r) > 0;
            assert forall|i: int| 0 <= i < rows@.len() implies rows@[i] < 9 by {
                all_bytes().lemma_filter_pred(occurs, i);
                lemma_row_count(chosen, rows@[i]);
                let (t, k) = choose|t: int, k: int|
                    0 <= t < chosen.len() && 0 <= k < chosen[t].rows.len()
                        && #[trigger] chosen[t].rows[k] == rows@[i];
                assert(chosen[t] == all[combination@[t] as int]);
                assert(all[combination@[t] as int].rows[k] < 9);
            }
        }
        let mut figure = crossing(&rows, rotated);
        let ghost lines = figure@;
        let mut t: usize = 0;
        while t < combination.len()
            invariant
                t <= combination@.len(),
                is_selection(combination@, candidates@.len() as int, dimensions as int),
                all == candidate_views(candidates@),
                chosen == picked(all, combination@),
                figure.wf(),
                forall|p: usize| #[trigger]
                    figure@.contains(p) <==> lines.contains(p) && !in_candidates(
                        chosen.take(t as int),
                        p,
                    ),
            decreases combination@.len() - t,
        {
            let candidate = &candidates[combination[t]];
            let ghost before = figure@;
            figure = figure - candidate.figure.clone();
            proof {
                let done = chosen.take(t as int);
                let next = chosen.take(t + 1);
                assert(chosen[t as int] == candidate@);
                assert forall|p: usize| #[trigger]
                    figure@.contains(p) <==> lines.contains(p) && !in_candidates(next, p) by {
                    assert(figure@.to_set().contains(p) <==> figure@.contains(p));
                    assert(before.to_set().contains(p) <==> before.contains(p));
                    assert(candidate.figure@.to_set().contains(p) <==> candidate.figure@.contains(
                        p,
                    ));
                    if in_candidates(next, p) {
                        let j = choose|j: int|
                            0 <= j < next.len() && (#[trigger] next[j]).figure.contains(p);
                        if j < t {
                            assert(done[j].figure.contains(p));
                        }
                    }
                    if in_candidates(done, p) {
                        let j = choose|j: int|
                            0 <= j < done.len() && (#[trigger] done[j]).figure.contains(p);
                        assert(next[j].figure.contains(p));
                    }
                    if candidate.figure@.contains(p) {
                        assert(next[t as int].figure.contains(p));
                    }
                }
            }
            t += 1;
        }
        proof {
            assert(chosen.take(t as int) =~= chosen);
            let pred = |p: usize|
                rows_of(chosen).contains(cross_number(rotated, p)) && !in_candidates(chosen, p);
            lemma_filter_ascending(board(), pred);
            assert forall|p: usize| figure@.to_set().contains(p) <==> board().filter(
                pred,
            ).to_set().contains(p) by {
                assert(figure@.to_set().contains(p) <==> figure@.contains(p));
                if p < 81 {
                    assert(board()[p as int] == p);
                }
            }
            assert(figure@.to_set() =~= board().filter(pred).to_set());
            lemma_ascending_unique(figure@, board().filter(pred));
        }
        let mut pencilmarks: Vec<u8> = Vec::new();
        pencilmarks.push(number);
        assert(pencilmarks@ =~= seq![number]);
        Some(Action::RemovePencilmarks { figure, pencilmarks })
    }

    /// The candidates of `number`, line by line.
    fn candidates_of(
        grid: &Grid,
        infos: &Vec<HashMap<u8, Vec<usize>>>,
        rotated: bool,
        dimensions: usize,
        number: u8,
    ) -> (res: Vec<Candidate>)
        requires
            infos@.len() == 9,
            forall|i: int, c: u8|
                0 <= i < 9 ==> #[trigger] listed(infos@[i]@, c) == digit_positions(
                    grid@,
                    fish_line(rotated, i),
                    c,
                ),
        ensures
            candidate_views(res@) == fish_candidates(grid@, rotated, dimensions as int, number),
            rows_on_board(candidate_views(res@)),
            res@.len() <= 9,
            forall|t: int|
                0 <= t < res@.len() ==> (#[trigger] candidate_views(res@)[t]).rows.len() <= 9,
    {
        let ghost fits = |i: int| fish_line_fits(grid@, rotated, dimensions as int, number, i);
        let ghost make = |i: int| fish_candidate(grid@, rotated, number, i);
        let mut res: Vec<Candidate> = Vec::new();
        let mut i: usize = 0;
        proof {
            reveal(Seq::filter);
            assert(nine().take(0) =~= Seq::<int>::empty());
            assert(candidate_views(res@) =~= nine().take(0).filter(fits).map_values(make));
        }
        while i < 9
            invariant
                i <= 9,
                infos@.len() == 9,
                forall|i: int, c: u8|
                    0 <= i < 9 ==> #[trigger] listed(infos@[i]@, c) == digit_positions(
                        grid@,
                        fish_line(rotated, i),
                        c,
                    ),
                fits == |i: int| fish_line_fits(grid@, rotated, dimensions as int, number, i),
                make == |i: int| fish_candidate(grid@, rotated, number, i),
                candidate_views(res@) == nine().take(i as int).filter(fits).map_values(make),
                rows_on_board(candidate_views(res@)),
                res@.len() <= i,
                forall|t: int|
                    0 <= t < res@.len() ==> (#[trigger] candidate_views(res@)[t]).rows.len() <= 9,
            decreases 9 - i,
        {
            let ghost line = fish_line(rotated, i as int);
            let ghost before = candidate_views(res@);
            proof {
                assert(nine().take(i + 1) =~= nine().take(i as int).push(i as int));
                nine().take(i as int).lemma_filter_push(i as int, fits);
                assert(listed(infos@[i as int]@, number) == digit_positions(grid@, line, number));
                lemma_digit_positions(grid@, line, number);
                lemma_row_positions(i as int);
                lemma_col_positions(i as int);
            }
            if let Some(positions) = lookup(&infos[i], number) {
                if 2 <= positions.len() && positions.len() <= dimensions {
                    let ghost places = positions@;
                    let figure = Figure::from(positions.clone());
                    proof {
                        let has = |p: usize| grid@[p as int].has_candidate(number);
                        lemma_filter_ascending(line, has);
                        assert forall|p: usize| figure@.to_set().contains(p) <==> line.filter(
                            has,
                        ).to_set().contains(p) by {
                            assert(places.to_set().contains(p) <==> places.contains(p));
                        }
                        assert(figure@.to_set() =~= line.filter(has).to_set());
                        lemma_ascending_unique(figure@, line.filter(has));
                        assert(figure@.len() <= 9) by {
                            line.lemma_filter_len(has);
                        }
                    }
                    let candidate = Candidate::new(figure, rotated);
                    proof {
                        assert(candidate@ == make(i as int));
                        assert forall|k: int| 0 <= k < candidate@.rows.len() implies (
                        #[trigger] candidate@.rows[k]) < 9 by {
                            assert(candidate@.figure[k] < 81);
                        }
                    }
                    res.push(candidate);
                    proof {
                        assert(candidate_views(res@) =~= before.push(make(i as int)));
                        assert(nine().take(i + 1).filter(fits).map_values(make) =~= nine().take(
                            i as int,
                        ).filter(fits).map_values(make).push(make(i as int)));
                        assert forall|t: int, k: int|
                            0 <= t < candidate_views(res@).len() && 0 <= k < candidate_views(
                                res@,
                            )[t].rows.len() implies (#[trigger] candidate_views(res@)[t].rows[k])
                            < 9 by {
                            if t < before.len() {
                                assert(candidate_views(res@)[t] == before[t]);
                                assert(before[t].rows[k] < 9);
                            }
                        }
                        assert forall|t: int| 0 <= t < res@.len() implies (
                        #[trigger] candidate_views(res@)[t]).rows.len() <= 9 by {
                            if t < before.len() {
                                assert(candidate_views(res@)[t] == before[t]);
                            }
                        }
                    }
                }
            }
            i += 1;
        }
        proof {
            assert(nine().take(i as int) =~= nine());
        }
        res
    }

    /// The removals that the method proposes along the columns of the
    /// grid, or along its rows where the search is rotated.
    fn get_all_in_row_or_col(&self, grid: &Grid, rotated: bool) -> (res: ActionSet)
        ensures
            res@ == self.in_row_or_col(grid@, rotated),
            forall|a: ActionView| res@.contains(a) ==> a.in_bounds(),
    {
        let mut res = ActionSet::new();
        let dimensions: usize = match self {
            Fishes::XWing => 2,
            Fishes::Swordfish => 3,
            Fishes::Jellyfish => 4,
        };
        let mut infos: Vec<HashMap<u8, Vec<usize>>> = Vec::new();
        let mut i: u8 = 0;
        while i < 9
            invariant
                i <= 9,
                infos@.len() == i,
                forall|k: int, c: u8|
                    0 <= k < i ==> #[trigger] listed(infos@[k]@, c) == digit_positions(
                        grid@,
                        fish_line(rotated, k),
                        c,
                    ),
            decreases 9 - i,
        {
            let column = if rotated {
                Figure::row(i)
            } else {
                Figure::col(i)
            };
            proof {
                lemma_row_positions(i as int);
                lemma_col_positions(i as int);
            }
            let info = grid.pencilmarks_info(column);
            infos.push(info);
            i += 1;
        }
        let ghost parts = fish_digit_parts(grid@, rotated, dimensions as int);
        let mut d: usize = 0;
        proof {
            lemma_union_below_none(parts);
        }
        while d < 256
            invariant
                d <= 256,
                dimensions == self.dimension(),
                infos@.len() == 9,
                forall|k: int, c: u8|
                    0 <= k < 9 ==> #[trigger] listed(infos@[k]@, c) == digit_positions(
                        grid@,
                        fish_line(rotated, k),
                        c,
                    ),
                parts == fish_digit_parts(grid@, rotated, dimensions as int),
                res@ == union_below(d as int, parts),
                forall|a: ActionView| res@.contains(a) ==> a.in_bounds(),
            decreases 256 - d,
        {
            let number = d as u8;
            let candidates = Fishes::candidates_of(grid, &infos, rotated, dimensions, number);
            let combinations = index_combinations(candidates.len(), dimensions);
            let ghost all = candidate_views(candidates@);
            let ghost each = fish_selection_parts(
                all,
                combinations@,
                rotated,
                dimensions as int,
                number,
            );
            let ghost done = res@;
            proof {
                lemma_union_below_next(d as int, parts);
                lemma_union_below_none(each);
            }
            let mut t: usize = 0;
            while t < combinations.len()
                invariant
                    t <= combinations@.len(),
                    dimensions <= 4,
                    all == candidate_views(candidates@),
                    rows_on_board(all),
                    forall|t: int| 0 <= t < all.len() ==> (#[trigger] all[t]).rows.len() <= 9,
                    forall|i: int|
                        0 <= i < combinations@.len() ==> is_selection(
                            #[trigger] combinations@[i]@,
                            candidates@.len() as int,
                            dimensions as int,
                        ),
                    each == fish_selection_parts(
                        all,
                        combinations@,
                        rotated,
                        dimensions as int,
                        number,
                    ),
                    res@ == done.union(union_below(t as int, each)),
                    forall|a: ActionView| res@.contains(a) ==> a.in_bounds(),
                decreases combinations@.len() - t,
            {
                proof {
                    lemma_union_below_next(t as int, each);
                }
                if let Some(action) = Fishes::from_combination(
                    &candidates,
                    &combinations[t],
                    rotated,
                    dimensions,
                    number,
                ) {
                    res.insert(action);
                }
                assert(res@ =~= done.union(union_below(t + 1, each)));
                t += 1;
            }
            proof {
                let whole = union_below(combinations@.len() as int, each);
                let part = fish_digit_part(grid@, rotated, dimensions as int, number);
                assert forall|a: ActionView| whole.contains(a) <==> part.contains(a) by {
                    if whole.contains(a) {
                        let i = choose|i: int|
                            0 <= i < combinations@.len() && #[trigger] each(i).contains(a);
                        assert(is_selection(
                            combinations@[i]@,
                            candidates@.len() as int,
                            dimensions as int,
                        ));
                        assert(fish_action(
                            picked(all, combinations@[i]@),
                            rotated,
                            dimensions as int,
                            number,
                        ) == Some(a));
                    }
                    if part.contains(a) {
                        let selection = choose|selection: Seq<usize>|
                            is_selection(selection, all.len() as int, dimensions as int)
                                && fish_action(
                                #[trigger] picked(all, selection),
                                rotated,
                                dimensions as int,
                                number,
                            ) == Some(a);
                        let i = choose|i: int|
                            0 <= i < combinations@.len() && #[trigger] combinations@[i]@
                                == selection;
                        assert(each(i).contains(a));
                    }
                }
                assert(whole =~= part);
                assert(parts(d as int) == part);
            }
            d += 1;
        }
        res
    }

    /// The actions that the method proposes for the grid.
    pub fn get_all_applications(&self, grid: &Grid) -> (res: ActionSet)
        ensures
            res@ == self.applications(grid@),
            forall|a: ActionView| res@.contains(a) ==> a.in_bounds(),
    {
        let mut res = self.get_all_in_row_or_col(grid, false);
        res.extend(self.get_all_in_row_or_col(grid, true));
        res
    }
}

} // verus!
