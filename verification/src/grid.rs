use std::collections::HashMap;
use vstd::prelude::*;
use vstd::string::StringSliceAdditionalSpecFns;

use crate::cell::{
    all_digits, is_candidate_list, is_candidates, is_digit, keep_marks, kept,
    lemma_all_digits_distinct, lemma_kept_candidate_list, Cell, CellView,
};
use crate::sequences::{lemma_filter_all, lemma_filter_same, lemma_filter_twice};
use crate::figure::{is_ascending, sees, within_board, Figure};

verus! {

/// Whether no cell of the grid is left unsolved.
pub open spec fn spec_is_solved(g: Seq<CellView>) -> bool {
    forall|i: int| 0 <= i < g.len() ==> g[i] is Number
}

/// The grid after the candidates of the cells of `figure` were cut down with `kept`.
pub open spec fn restricted_in(
    g: Seq<CellView>,
    figure: Seq<usize>,
    digits: Seq<u8>,
    preserve: bool,
) -> Seq<CellView> {
    Seq::new(
        g.len(),
        |q: int|
            if figure.contains(q as usize) {
                g[q].restricted(digits, preserve)
            } else {
                g[q]
            },
    )
}

/// The grid after the digit of a solved cell at `position` was struck out of
/// the candidates of every cell that the position sees; unchanged if the cell
/// is unsolved.
pub open spec fn swept(g: Seq<CellView>, position: int) -> Seq<CellView> {
    match g[position] {
        CellView::Number(n) => Seq::new(
            g.len(),
            |q: int|
                if sees(position, q) {
                    g[q].restricted(seq![n], false)
                } else {
                    g[q]
                },
        ),
        CellView::Pencilmarks(_) => g,
    }
}

/// The grid after `number` was placed at `position`.
pub open spec fn placed(g: Seq<CellView>, position: int, number: u8) -> Seq<CellView> {
    swept(g.update(position, CellView::Number(number)), position)
}

/// The positions of `figure`, in its order, whose cells are unsolved and
/// have `digit` as a candidate.
pub open spec fn digit_positions(g: Seq<CellView>, figure: Seq<usize>, digit: u8) -> Seq<usize> {
    figure.filter(|p: usize| g[p as int].has_candidate(digit))
}

/// How the positions of a digit grow with the figure.
pub proof fn lemma_digit_positions_push(g: Seq<CellView>, figure: Seq<usize>, p: usize, digit: u8)
    ensures
        digit_positions(g, figure.push(p), digit) == if g[p as int].has_candidate(digit) {
            digit_positions(g, figure, digit).push(p)
        } else {
            digit_positions(g, figure, digit)
        },
{
    reveal(Seq::filter);
    assert(figure.push(p).drop_last() =~= figure);
}

/// The list of a digit while the candidates of the cell at `pos` are read:
/// the position joins it once the digit was seen.
pub open spec fn grown(list: Seq<usize>, pos: usize, seen: Seq<u8>, digit: u8) -> Seq<usize> {
    if seen.contains(digit) {
        list.push(pos)
    } else {
        list
    }
}

/// The list that a map holds for `digit`; empty if it holds none.
pub open spec fn listed(m: Map<u8, Vec<usize>>, digit: u8) -> Seq<usize> {
    if m.contains_key(digit) {
        m[digit]@
    } else {
        Seq::empty()
    }
}

/// A position is listed for a digit exactly if it belongs to the figure and
/// its cell is unsolved with the digit among its candidates.
pub proof fn lemma_digit_positions(g: Seq<CellView>, figure: Seq<usize>, digit: u8)
    ensures
        forall|p: usize| #[trigger]
            digit_positions(g, figure, digit).contains(p) <==> figure.contains(p) && g[p as int].has_candidate(
                digit,
            ),
    decreases figure.len(),
{
    let dp = digit_positions(g, figure, digit);
    if figure.len() == 0 {
        reveal(Seq::filter);
    } else {
        let front = figure.drop_last();
        let last = figure.last();
        lemma_digit_positions(g, front, digit);
        let df = digit_positions(g, front, digit);
        assert(figure =~= front.push(last));
        lemma_digit_positions_push(g, front, last, digit);
        assert forall|p: usize| #[trigger]
            dp.contains(p) <==> figure.contains(p) && g[p as int].has_candidate(digit) by {
            if dp.contains(p) {
                let i = choose|i: int| 0 <= i < dp.len() && dp[i] == p;
                if i < df.len() {
                    assert(df[i] == p);
                    assert(df.contains(p));
                    let j = choose|j: int| 0 <= j < front.len() && front[j] == p;
                    assert(figure[j] == p);
                } else {
                    assert(figure[figure.len() - 1] == p);
                }
            }
            if figure.contains(p) && g[p as int].has_candidate(digit) {
                let j = choose|j: int| 0 <= j < figure.len() && figure[j] == p;
                if j < front.len() {
                    assert(front[j] == p);
                    assert(df.contains(p));
                    let i = choose|i: int| 0 <= i < df.len() && df[i] == p;
                    assert(dp[i] == p);
                } else {
                    assert(dp[dp.len() - 1] == p);
                }
            }
        }
    }
}

/// In a solved grid no position is listed for any digit.
pub proof fn lemma_digit_positions_solved(g: Seq<CellView>, figure: Seq<usize>, digit: u8)
    requires
        spec_is_solved(g),
        forall|i: int| 0 <= i < figure.len() ==> figure[i] < g.len(),
    ensures
        digit_positions(g, figure, digit).len() == 0,
{
    let has = |p: usize| g[p as int].has_candidate(digit);
    assert forall|i: int| 0 <= i < figure.len() implies !(has(#[trigger] figure[i])) by {
        assert(g[figure[i] as int] is Number);
    }
    crate::sequences::lemma_filter_none(figure, has);
}

/// Looks up the list that a map built by `Grid::pencilmarks_info` holds for `digit`.
pub fn lookup<'a>(info: &'a HashMap<u8, Vec<usize>>, digit: u8) -> (res: Option<&'a Vec<usize>>)
    ensures
        res is Some <==> info@.contains_key(digit),
        res matches Some(v) ==> v@ == listed(info@, digit),
        res is None ==> listed(info@, digit) == Seq::<usize>::empty(),
{
    broadcast use vstd::std_specs::hash::group_hash_axioms;

    info.get(&digit)
}

/// Whether a byte is one of the characters `0` to `9`.
pub open spec fn is_digit_byte(b: u8) -> bool {
    48 <= b <= 57
}

/// Whether `i` is the place of the first byte of `bytes` that is no digit.
pub open spec fn first_invalid(bytes: Seq<u8>, i: int) -> bool {
    &&& 0 <= i < bytes.len()
    &&& !is_digit_byte(bytes[i])
    &&& forall|k: int| 0 <= k < i ==> is_digit_byte(#[trigger] bytes[k])
}

/// Whether the line gives the digit `d` to one of the first `k` cells, and
/// that cell sees position `q`.
pub open spec fn given_before(bytes: Seq<u8>, q: int, d: u8, k: int) -> bool {
    exists|p: int| 0 <= p < k && sees(p, q) && #[trigger] bytes[p] == 48 + d && d != 0
}

/// What a line of 81 digits makes of the cell at `q`, once the givens among
/// the first `k` cells have struck their digits out: a given digit is
/// placed, and an empty cell keeps, in ascending order, the digits that no
/// such given in sight holds.
pub open spec fn parsed_cell(bytes: Seq<u8>, q: int, k: int) -> CellView {
    if bytes[q] == 48 {
        CellView::Pencilmarks(all_digits().filter(|d: u8| !given_before(bytes, q, d, k)))
    } else {
        CellView::Number((bytes[q] - 48) as u8)
    }
}

/// Whether `g` is the grid that a line of 81 digits describes.
pub open spec fn is_parsed(g: Seq<CellView>, bytes: Seq<u8>) -> bool {
    &&& g.len() == 81
    &&& forall|q: int| 0 <= q < 81 ==> #[trigger] g[q] == parsed_cell(bytes, q, 81)
}

/// The line that describes the solved cells of a grid: the digit of each
/// solved cell, and `0` for each unsolved one.
pub open spec fn serialized(g: Seq<CellView>) -> Seq<int> {
    Seq::new(
        g.len(),
        |i: int|
            match g[i] {
                CellView::Number(n) => 48 + n,
                CellView::Pencilmarks(_) => 48,
            },
    )
}

/// Writing out the solved cells of a parsed grid gives the line back.
pub proof fn lemma_round_trip(g: Seq<CellView>, bytes: Seq<u8>)
    requires
        bytes.len() == 81,
        forall|k: int| 0 <= k < 81 ==> is_digit_byte(#[trigger] bytes[k]),
        is_parsed(g, bytes),
    ensures
        serialized(g) == bytes.map_values(|b: u8| b as int),
{
    assert forall|i: int| 0 <= i < 81 implies serialized(g)[i] == bytes[i] as int by {
        assert(g[i] == parsed_cell(bytes, i, 81));
        assert(is_digit_byte(bytes[i]));
    }
    assert(serialized(g) =~= bytes.map_values(|b: u8| b as int));
}

/// One step of the sweep that follows the placement of the givens.
proof fn lemma_sweep_step(bytes: Seq<u8>, g: Seq<CellView>, k: int)
    requires
        bytes.len() == 81,
        g.len() == 81,
        0 <= k < 81,
        forall|q: int| 0 <= q < 81 ==> is_digit_byte(#[trigger] bytes[q]),
        forall|q: int| 0 <= q < 81 ==> #[trigger] g[q] == parsed_cell(bytes, q, k),
    ensures
        swept(g, k).len() == 81,
        forall|q: int| 0 <= q < 81 ==> #[trigger] swept(g, k)[q] == parsed_cell(bytes, q, k + 1),
{
    let r = swept(g, k);
    assert(g[k] == parsed_cell(bytes, k, k));
    assert(is_digit_byte(bytes[k]));
    assert forall|q: int| 0 <= q < 81 implies #[trigger] r[q] == parsed_cell(bytes, q, k + 1) by {
        assert(g[q] == parsed_cell(bytes, q, k));
        assert(is_digit_byte(bytes[q]));
        if bytes[q] == 48 {
            let f = |d: u8| !given_before(bytes, q, d, k);
            let h = |d: u8| !given_before(bytes, q, d, k + 1);
            let n = (bytes[k] - 48) as u8;
            if bytes[k] != 48 && sees(k, q) {
                let single = seq![n];
                let e = |m: u8| single.contains(m) == false;
                assert(r[q] == CellView::Pencilmarks(all_digits().filter(f).filter(e)));
                assert forall|i: int| 0 <= i < all_digits().len() implies h(
                    #[trigger] all_digits()[i],
                ) == (f(all_digits()[i]) && e(all_digits()[i])) by {
                    let d = all_digits()[i];
                    assert(single[0] == n);
                    assert(single.contains(d) <==> d == n);
                    if given_before(bytes, q, d, k + 1) {
                        let p = choose|p: int|
                            0 <= p < k + 1 && sees(p, q) && #[trigger] bytes[p] == 48 + d && d
                                != 0;
                        if p < k {
                            assert(given_before(bytes, q, d, k));
                        }
                    }
                    if given_before(bytes, q, d, k) {
                        let p = choose|p: int|
                            0 <= p < k && sees(p, q) && #[trigger] bytes[p] == 48 + d && d != 0;
                        assert(given_before(bytes, q, d, k + 1));
                    }
                    if d == n {
                        assert(bytes[k] == 48 + d);
                        assert(given_before(bytes, q, d, k + 1));
                    }
                }
                lemma_filter_twice(all_digits(), f, e, h);
            } else {
                assert(r[q] == g[q]);
                assert forall|i: int| 0 <= i < all_digits().len() implies f(
                    #[trigger] all_digits()[i],
                ) == h(all_digits()[i]) by {
                    let d = all_digits()[i];
                    if given_before(bytes, q, d, k + 1) {
                        let p = choose|p: int|
                            0 <= p < k + 1 && sees(p, q) && #[trigger] bytes[p] == 48 + d && d
                                != 0;
                        assert(p < k);
                        assert(given_before(bytes, q, d, k));
                    }
                    if given_before(bytes, q, d, k) {
                        let p = choose|p: int|
                            0 <= p < k && sees(p, q) && #[trigger] bytes[p] == 48 + d && d != 0;
                        assert(given_before(bytes, q, d, k + 1));
                    }
                }
                lemma_filter_same(all_digits(), f, h);
            }
        }
    }
}

/// What went wrong when a line of text was read as a grid.
#[derive(Debug, PartialEq, Eq)]
pub enum ParseGridError {
    /// The line does not have 81 bytes; the length it has.
    InvalidSize(usize),
    /// The place of the first byte that is no digit.
    InvalidCharacter(usize),
}

/// What reading `bytes` as a grid has to give.
pub open spec fn parse_outcome(bytes: Seq<u8>, res: Result<Grid, ParseGridError>) -> bool {
    match res {
        Err(ParseGridError::InvalidSize(n)) => bytes.len() != 81 && n == bytes.len(),
        Err(ParseGridError::InvalidCharacter(i)) => bytes.len() == 81 && first_invalid(
            bytes,
            i as int,
        ),
        Ok(g) => {
            &&& bytes.len() == 81
            &&& forall|k: int| 0 <= k < 81 ==> is_digit_byte(#[trigger] bytes[k])
            &&& is_parsed(g@, bytes)
            &&& serialized(g@) == bytes.map_values(|b: u8| b as int)
        },
    }
}

/// The 81 cells of a board, row by row.
#[derive(Debug, PartialEq)]
pub struct Grid {
    matrix: Vec<Cell>,
}

impl View for Grid {
    type V = Seq<CellView>;

    closed spec fn view(&self) -> Seq<CellView> {
        self.matrix@.map_values(|c: Cell| c@)
    }
}

impl Clone for Grid {
    fn clone(&self) -> (res: Self)
        ensures
            res@ == self@,
    {
        proof {
            use_type_invariant(self);
        }
        let mut matrix: Vec<Cell> = Vec::new();
        let mut i: usize = 0;
        while i < 81
            invariant
                i <= 81,
                self.wf(),
                self.matrix@.len() == 81,
                matrix@.len() == i,
                forall|k: int| 0 <= k < i ==> matrix@[k]@ == self.matrix@[k]@,
            decreases 81 - i,
        {
            matrix.push(self.matrix[i].clone());
            i += 1;
        }
        proof {
            assert(matrix@.map_values(|c: Cell| c@) =~= self@);
        }
        let res = Grid { matrix };
        res
    }
}

impl Grid {
    /// The invariant of every grid: it has 81 cells, each with a digit from
    /// 1 to 9 or with candidates that are such digits, none of them twice.
    #[verifier::type_invariant]
    pub open spec fn wf(&self) -> bool {
        &&& self@.len() == 81
        &&& forall|i: int| 0 <= i < 81 ==> (#[trigger] self@[i]).valid()
    }

    /// The grid that holds the given cells as they are, if they are 81 cells
    /// of a grid: each with a digit from 1 to 9, or with candidates that are
    /// such digits, none of them twice.
    pub fn from_cells(cells: Vec<Cell>) -> (res: Option<Grid>)
        ensures
            res is Some <==> cells@.len() == 81 && forall|i: int|
                0 <= i < 81 ==> (#[trigger] cells@[i])@.valid(),
            res matches Some(g) ==> g.wf() && g@ == cells@.map_values(|c: Cell| c@),
    {
        if cells.len() != 81 {
            return None;
        }
        let mut i: usize = 0;
        while i < 81
            invariant
                i <= 81,
                cells@.len() == 81,
                forall|k: int| 0 <= k < i ==> (#[trigger] cells@[k])@.valid(),
            decreases 81 - i,
        {
            let fine = match &cells[i] {
                Cell::Number(n) => 1 <= *n && *n <= 9,
                Cell::Pencilmarks(marks) => is_candidates(marks),
            };
            if !fine {
                assert(!cells@[i as int]@.valid());
                return None;
            }
            i += 1;
        }
        Some(Grid { matrix: cells })
    }

    /// Reads a grid from a line of 81 digits, row by row, where `0` stands
    /// for an empty cell. Each given digit is placed and struck out of the
    /// candidates of the cells that it sees.
    pub fn parse_bytes(bytes: &[u8]) -> (res: Result<Grid, ParseGridError>)
        ensures
            parse_outcome(bytes@, res),
            res matches Ok(g) ==> g.wf(),
    {
        if bytes.len() != 9 * 9 {
            return Err(ParseGridError::InvalidSize(bytes.len()));
        }
        let mut matrix: Vec<Cell> = Vec::new();
        let mut i: usize = 0;
        while i < 81
            invariant
                i <= 81,
                bytes@.len() == 81,
                matrix@.len() == i,
                forall|k: int| 0 <= k < i ==> is_digit_byte(#[trigger] bytes@[k]),
                forall|k: int| 0 <= k < i ==> (#[trigger] matrix@[k])@ == parsed_cell(bytes@, k, 0),
                forall|k: int| 0 <= k < i ==> (#[trigger] matrix@[k])@.valid(),
            decreases 81 - i,
        {
            let b = bytes[i];
            if b < 48 || b > 57 {
                return Err(ParseGridError::InvalidCharacter(i));
            }
            if b == 48 {
                matrix.push(Cell::all_pencilmarks());
                proof {
                    let f = |d: u8| !given_before(bytes@, i as int, d, 0);
                    lemma_filter_all(all_digits(), f);
                    lemma_all_digits_distinct();
                }
            } else {
                matrix.push(Cell::Number(b - 48));
            }
            i += 1;
        }
        let mut grid = Grid { matrix };
        let mut k: usize = 0;
        while k < 81
            invariant
                k <= 81,
                bytes@.len() == 81,
                grid.wf(),
                forall|q: int| 0 <= q < 81 ==> is_digit_byte(#[trigger] bytes@[q]),
                forall|q: int| 0 <= q < 81 ==> #[trigger] grid@[q] == parsed_cell(bytes@, q, k as int),
            decreases 81 - k,
        {
            proof {
                lemma_sweep_step(bytes@, grid@, k as int);
            }
            grid.update_cell_neighbours(k);
            k += 1;
        }
        proof {
            lemma_round_trip(grid@, bytes@);
        }
        Ok(grid)
    }

    /// Reads a grid from a line of text: see `parse_bytes`.
    pub fn parse(s: &str) -> (res: Result<Grid, ParseGridError>)
        ensures
            parse_outcome(s.spec_bytes(), res),
            res matches Ok(g) ==> g.wf(),
    {
        Grid::parse_bytes(s.as_bytes())
    }

    /// The cell at `position`.
    pub fn get(&self, position: usize) -> (res: &Cell)
        requires
            position < 81,
        ensures
            res@ == self@[position as int],
    {
        proof {
            use_type_invariant(self);
        }
        &self.matrix[position]
    }

    /// A grid of 81 solved cells, to stand in for a grid that is being changed.
    fn blank() -> (res: Grid)
        ensures
            res.wf(),
    {
        let mut matrix: Vec<Cell> = Vec::new();
        let mut i: usize = 0;
        while i < 81
            invariant
                i <= 81,
                matrix@.len() == i,
                forall|k: int| 0 <= k < i ==> (#[trigger] matrix@[k])@ == CellView::Number(1),
            decreases 81 - i,
        {
            matrix.push(Cell::Number(1));
            i += 1;
        }
        Grid { matrix }
    }

    /// Puts `cell` at `position`. No other cell changes.
    fn replace_cell(&mut self, position: usize, cell: Cell)
        requires
            position < 81,
            cell@.valid(),
        ensures
            final(self).wf(),
            final(self)@ == old(self)@.update(position as int, cell@),
    {
        proof {
            use_type_invariant(&*self);
        }
        let mut taken = Grid::blank();
        core::mem::swap(self, &mut taken);
        let mut matrix = taken.matrix;
        let ghost new_cell = cell@;
        matrix.set(position, cell);
        proof {
            assert(matrix@.map_values(|c: Cell| c@) =~= old(self)@.update(
                position as int,
                new_cell,
            ));
        }
        *self = Grid { matrix };
    }

    /// Strikes the digit of the solved cell at `i` out of the candidates of
    /// every cell that `i` sees. Does nothing if the cell at `i` is unsolved.
    pub fn update_cell_neighbours(&mut self, i: usize)
        requires
            i < 81,
        ensures
            final(self).wf(),
            final(self)@ == swept(old(self)@, i as int),
    {
        proof {
            use_type_invariant(&*self);
        }
        let n = match &self.matrix[i] {
            Cell::Number(n) => *n,
            Cell::Pencilmarks(_) => {
                return ;
            },
        };
        let mut digits: Vec<u8> = Vec::new();
        digits.push(n);
        assert(digits@ =~= seq![n]);
        let neighbours = Figure::neighbours(i);
        let positions = neighbours.positions();
        let mut taken = Grid::blank();
        core::mem::swap(self, &mut taken);
        let mut matrix = taken.matrix;
        let ghost start = old(self)@;
        let mut k: usize = 0;
        while k < positions.len()
            invariant
                k <= positions@.len(),
                i < 81,
                is_ascending(positions@),
                within_board(positions@),
                digits@ == seq![n],
                start.len() == 81,
                forall|q: int| 0 <= q < 81 ==> (#[trigger] start[q]).valid(),
                matrix@.len() == 81,
                start[i as int] == CellView::Number(n),
                forall|q: int|
                    0 <= q < 81 ==> (#[trigger] matrix@[q])@ == if positions@.take(
                        k as int,
                    ).contains(q as usize) {
                        start[q].restricted(seq![n], false)
                    } else {
                        start[q]
                    },
            decreases positions@.len() - k,
        {
            let pos = positions[k];
            let ghost before = matrix@;
            proof {
                assert(positions@.take(k + 1) =~= positions@.take(k as int).push(pos));
                let done = positions@.take(k as int);
                assert(!done.contains(pos)) by {
                    if done.contains(pos) {
                        let j = choose|j: int| 0 <= j < done.len() && done[j] == pos;
                        assert(positions@[j] < positions@[k as int]);
                    }
                }
                assert(before[pos as int]@ == start[pos as int]);
            }
            let stripped = match &matrix[pos] {
                Cell::Number(_) => None,
                Cell::Pencilmarks(p) => Some(keep_marks(p, &digits, false)),
            };
            if let Some(marks) = stripped {
                matrix.set(pos, Cell::Pencilmarks(marks));
            }
            proof {
                let done = positions@.take(k as int);
                let next = positions@.take(k + 1);
                assert(matrix@[pos as int]@ == start[pos as int].restricted(seq![n], false));
                assert forall|q: int| 0 <= q < 81 implies (#[trigger] matrix@[q])@ == if next.contains(
                    q as usize,
                ) {
                    start[q].restricted(seq![n], false)
                } else {
                    start[q]
                } by {
                    if q == pos as int {
                        assert(next[k as int] == pos);
                    } else {
                        assert(matrix@[q] == before[q]);
                        if next.contains(q as usize) {
                            let j = choose|j: int| 0 <= j < next.len() && next[j] == q as usize;
                            assert(done[j] == q as usize);
                        }
                        if done.contains(q as usize) {
                            let j = choose|j: int| 0 <= j < done.len() && done[j] == q as usize;
                            assert(next[j] == q as usize);
                        }
                    }
                }
            }
            k += 1;
        }
        proof {
            assert(positions@.take(k as int) =~= positions@);
            let after = matrix@.map_values(|c: Cell| c@);
            assert(after =~= swept(start, i as int));
            assert forall|q: int| 0 <= q < 81 implies (#[trigger] after[q]).valid() by {
                match start[q] {
                    CellView::Number(_) => {},
                    CellView::Pencilmarks(p) => {
                        lemma_kept_candidate_list(p, seq![n], false);
                    },
                }
            }
        }
        *self = Grid { matrix };
    }

    /// Places `number`, a digit from 1 to 9, at `position` and strikes it out
    /// of the candidates of every unsolved cell that the position sees.
    pub fn set_number(&mut self, position: usize, number: u8)
        requires
            position < 81,
            is_digit(number),
        ensures
            final(self).wf(),
            final(self)@ == placed(old(self)@, position as int, number),
            final(self)@[position as int] == CellView::Number(number),
            forall|q: int|
                0 <= q < 81 && sees(position as int, q) ==> !(#[trigger] final(self)@[q]).has_candidate(
                    number,
                ),
    {
        proof {
            use_type_invariant(&*self);
        }
        self.replace_cell(position, Cell::Number(number));
        self.update_cell_neighbours(position);
        proof {
            lemma_placed(old(self)@, position as int, number);
        }
    }

    /// Replaces the cell at `position` by an unsolved cell with the candidates
    /// `pencilmarks`: digits from 1 to 9, none of them twice. No other cell changes.
    pub fn set_pencilmarks(&mut self, position: usize, pencilmarks: Vec<u8>)
        requires
            position < 81,
            is_candidate_list(pencilmarks@),
        ensures
            final(self).wf(),
            final(self)@ == old(self)@.update(
                position as int,
                CellView::Pencilmarks(pencilmarks@),
            ),
    {
        self.replace_cell(position, Cell::Pencilmarks(pencilmarks));
    }

    /// For each digit that is a candidate somewhere in `figure`, the
    /// positions of the cells that have it, in the order of the figure.
    /// A digit that is nowhere a candidate has no entry.
    pub fn pencilmarks_info(&self, figure: Figure) -> (res: HashMap<u8, Vec<usize>>)
        requires
            within_board(figure@),
        ensures
            forall|d: u8| #[trigger]
                res@.contains_key(d) <==> digit_positions(self@, figure@, d).len() > 0,
            forall|d: u8| #[trigger] listed(res@, d) == digit_positions(self@, figure@, d),
    {
        broadcast use vstd::std_specs::hash::group_hash_axioms;

        proof {
            use_type_invariant(self);
        }
        let mut res: HashMap<u8, Vec<usize>> = HashMap::new();
        let positions = figure.positions();
        let mut i: usize = 0;
        proof {
            reveal(Seq::filter);
            assert(positions@.take(0) =~= Seq::<usize>::empty());
        }
        while i < positions.len()
            invariant
                i <= positions@.len(),
                within_board(positions@),
                self.wf(),
                forall|d: u8| #[trigger] res@.contains_key(d) ==> res@[d]@.len() > 0,
                forall|d: u8| #[trigger]
                    listed(res@, d) == digit_positions(self@, positions@.take(i as int), d),
            decreases positions@.len() - i,
        {
            let pos = positions[i];
            let ghost done = positions@.take(i as int);
            proof {
                assert(positions@.take(i + 1) =~= done.push(pos));
                assert(self@[pos as int].valid());
                assert forall|d: u8| #[trigger]
                    digit_positions(self@, positions@.take(i + 1), d) == if self@[pos as int].has_candidate(
                        d,
                    ) {
                        digit_positions(self@, done, d).push(pos)
                    } else {
                        digit_positions(self@, done, d)
                    } by {
                    lemma_digit_positions_push(self@, done, pos, d);
                }
            }
            match &self.matrix[pos] {
                Cell::Number(_) => {},
                Cell::Pencilmarks(marks) => {
                    let mut j: usize = 0;
                    while j < marks.len()
                        invariant
                            j <= marks@.len(),
                            marks@.no_duplicates(),
                            forall|d: u8| #[trigger] res@.contains_key(d) ==> res@[d]@.len() > 0,
                            forall|d: u8| #[trigger]
                                listed(res@, d) == grown(
                                    digit_positions(self@, done, d),
                                    pos,
                                    marks@.take(j as int),
                                    d,
                                ),
                        decreases marks@.len() - j,
                    {
                        let m = marks[j];
                        let ghost before = res@;
                        let ghost seen = marks@.take(j as int);
                        proof {
                            assert(marks@.take(j + 1) =~= seen.push(m));
                            if seen.contains(m) {
                                let k = choose|k: int| 0 <= k < seen.len() && seen[k] == m;
                                assert(marks@[k] == marks@[j as int]);
                            }
                            assert(listed(before, m) == grown(
                                digit_positions(self@, done, m),
                                pos,
                                seen,
                                m,
                            ));
                        }
                        let mut list = match res.remove(&m) {
                            Some(l) => l,
                            None => Vec::new(),
                        };
                        list.push(pos);
                        res.insert(m, list);
                        proof {
                            let next = marks@.take(j + 1);
                            assert forall|d: u8| #[trigger]
                                listed(res@, d) == grown(
                                    digit_positions(self@, done, d),
                                    pos,
                                    next,
                                    d,
                                ) by {
                                assert(listed(before, d) == grown(
                                    digit_positions(self@, done, d),
                                    pos,
                                    seen,
                                    d,
                                ));
                                if d == m {
                                    assert(next[j as int] == m);
                                } else {
                                    if next.contains(d) {
                                        let k = choose|k: int| 0 <= k < next.len() && next[k] == d;
                                        assert(seen[k] == d);
                                    }
                                    if seen.contains(d) {
                                        let k = choose|k: int| 0 <= k < seen.len() && seen[k] == d;
                                        assert(next[k] == d);
                                    }
                                }
                            }
                        }
                        j += 1;
                    }
                    proof {
                        assert(marks@.take(j as int) =~= marks@);
                    }
                },
            }
            proof {
                assert forall|d: u8| #[trigger]
                    listed(res@, d) == digit_positions(self@, positions@.take(i + 1), d) by {
                    assert(listed(res@, d) == listed(res@, d));
                }
            }
            i += 1;
        }
        proof {
            assert(positions@.take(i as int) =~= positions@);
            assert forall|d: u8| #[trigger]
                res@.contains_key(d) <==> digit_positions(self@, figure@, d).len() > 0 by {
                assert(listed(res@, d) == digit_positions(self@, figure@, d));
            }
        }
        res
    }

    /// Whether every cell of the grid is solved.
    pub fn is_solved(&self) -> (res: bool)
        ensures
            res == spec_is_solved(self@),
    {
        proof {
            use_type_invariant(self);
        }
        let mut i: usize = 0;
        while i < 81
            invariant
                i <= 81,
                self@.len() == 81,
                forall|k: int| 0 <= k < i ==> self@[k] is Number,
            decreases 81 - i,
        {
            if self.matrix[i].is_pencilmarks() {
                assert(!(self@[i as int] is Number));
                return false;
            }
            i += 1;
        }
        true
    }
}

/// After a placement the cell holds the number, and no cell that the
/// position sees has the number among its candidates.
pub proof fn lemma_placed(g: Seq<CellView>, position: int, number: u8)
    requires
        0 <= position < g.len(),
    ensures
        placed(g, position, number).len() == g.len(),
        placed(g, position, number)[position] == CellView::Number(number),
        forall|q: int|
            0 <= q < g.len() && sees(position, q) ==> !(#[trigger] placed(
                g,
                position,
                number,
            )[q]).has_candidate(number),
        forall|q: int|
            0 <= q < g.len() && !sees(position, q) ==> #[trigger] placed(g, position, number)[q]
                == g[q],
{
    let r = placed(g, position, number);
    assert forall|q: int| 0 <= q < g.len() && sees(position, q) implies !(#[trigger] r[q]).has_candidate(
        number,
    ) by {
        match g.update(position, CellView::Number(number))[q] {
            CellView::Number(_) => {},
            CellView::Pencilmarks(p) => {
                crate::cell::lemma_kept(p, seq![number], false);
                assert(seq![number][0] == number);
            },
        }
    }
}

impl core::str::FromStr for Grid {
    type Err = ParseGridError;

    /// Reads a grid from a line of text: see `Grid::parse`.
    fn from_str(s: &str) -> (res: Result<Grid, ParseGridError>)
        ensures
            parse_outcome(s.spec_bytes(), res),
    {
        Grid::parse(s)
    }
}

impl vstd::std_specs::core::IndexSpecImpl<usize> for Grid {
    open spec fn index_req(&self, index: &usize) -> bool {
        *index < 81
    }
}

impl core::ops::Index<usize> for Grid {
    type Output = Cell;

    /// The cell at position `index`.
    fn index(&self, index: usize) -> (output: &Cell)
        ensures
            output@ == self@[index as int],
    {
        self.get(index)
    }
}

} // verus!
