use vstd::pervasive::unreached;
use vstd::prelude::*;
use vstd::std_specs::convert::FromSpecImpl;
use vstd::std_specs::ops::AddSpecImpl;
use vstd::std_specs::ops::SubSpecImpl;

verus! {

/// The row of a board position.
pub open spec fn spec_row_of(p: int) -> int {
    p / 9
}

/// The column of a board position.
pub open spec fn spec_col_of(p: int) -> int {
    p % 9
}

/// The box of a board position.
pub open spec fn spec_sqr_of(p: int) -> int {
    (spec_row_of(p) / 3) * 3 + spec_col_of(p) / 3
}

/// Whether two positions share a row, a column or a box. Every position sees itself.
pub open spec fn sees(p: int, q: int) -> bool {
    spec_row_of(p) == spec_row_of(q) || spec_col_of(p) == spec_col_of(q) || spec_sqr_of(p)
        == spec_sqr_of(q)
}

/// A list of positions in strictly ascending order: what a figure holds.
pub open spec fn is_ascending(s: Seq<usize>) -> bool {
    forall|i: int, j: int| 0 <= i < j < s.len() ==> s[i] < s[j]
}

/// Every position of the list lies on the board.
pub open spec fn within_board(s: Seq<usize>) -> bool {
    forall|i: int| 0 <= i < s.len() ==> s[i] < 81
}

/// All 81 positions in ascending order.
pub open spec fn board() -> Seq<usize> {
    Seq::new(81, |i: int| i as usize)
}

/// The positions of row `n` in ascending order.
pub open spec fn row_positions(n: int) -> Seq<usize> {
    Seq::new(9, |i: int| (9 * n + i) as usize)
}

/// The positions of column `n` in ascending order.
pub open spec fn col_positions(n: int) -> Seq<usize> {
    Seq::new(9, |i: int| (9 * i + n) as usize)
}

/// The positions of box `n` in ascending order.
pub open spec fn sqr_positions(n: int) -> Seq<usize> {
    Seq::new(9, |i: int| (27 * (n / 3) + 3 * (n % 3) + 9 * (i / 3) + i % 3) as usize)
}

/// The 27 houses in the order in which `Figure::all_figures` lists them:
/// column, row and box 0, then column, row and box 1, and so on.
pub open spec fn house_positions(k: int) -> Seq<usize> {
    if k % 3 == 0 {
        col_positions(k / 3)
    } else if k % 3 == 1 {
        row_positions(k / 3)
    } else {
        sqr_positions(k / 3)
    }
}

/// A position belongs to row `n` exactly if it lies on the board and its row is `n`.
pub proof fn lemma_row_positions(n: int)
    requires
        0 <= n < 9,
    ensures
        is_ascending(row_positions(n)),
        within_board(row_positions(n)),
        forall|p: usize| #[trigger]
            row_positions(n).contains(p) <==> p < 81 && spec_row_of(p as int) == n,
{
    let s = row_positions(n);
    assert forall|p: usize| #[trigger] s.contains(p) <==> p < 81 && spec_row_of(p as int) == n by {
        if p < 81 && spec_row_of(p as int) == n {
            assert(s[p as int % 9] == p);
        }
    }
}

/// A position belongs to column `n` exactly if it lies on the board and its column is `n`.
pub proof fn lemma_col_positions(n: int)
    requires
        0 <= n < 9,
    ensures
        is_ascending(col_positions(n)),
        within_board(col_positions(n)),
        forall|p: usize| #[trigger]
            col_positions(n).contains(p) <==> p < 81 && spec_col_of(p as int) == n,
{
    let s = col_positions(n);
    assert forall|p: usize| #[trigger] s.contains(p) <==> p < 81 && spec_col_of(p as int) == n by {
        if p < 81 && spec_col_of(p as int) == n {
            assert(s[p as int / 9] == p);
        }
    }
}

/// A position belongs to box `n` exactly if it lies on the board and its box is `n`.
pub proof fn lemma_sqr_positions(n: int)
    requires
        0 <= n < 9,
    ensures
        is_ascending(sqr_positions(n)),
        within_board(sqr_positions(n)),
        forall|p: usize| #[trigger]
            sqr_positions(n).contains(p) <==> p < 81 && spec_sqr_of(p as int) == n,
{
    let s = sqr_positions(n);
    assert forall|i: int| 0 <= i < 9 implies (#[trigger] s[i]) < 81 by {
        lemma_sqr_member(n, i);
    }
    assert forall|p: usize| #[trigger] s.contains(p) <==> p < 81 && spec_sqr_of(p as int) == n by {
        if s.contains(p) {
            let i = choose|i: int| 0 <= i < s.len() && s[i] == p;
            lemma_sqr_member(n, i);
        }
        if p < 81 && spec_sqr_of(p as int) == n {
            lemma_sqr_index(p as int);
            let i = 3 * ((p as int / 9) % 3) + (p as int % 9) % 3;
            assert(s[i] == p);
        }
    }
    assert forall|i: int, j: int| 0 <= i < j < 9 implies s[i] < s[j] by {
        lemma_sqr_member(n, i);
        lemma_sqr_member(n, j);
        assert(i / 3 <= j / 3);
        if i / 3 == j / 3 {
            assert(i % 3 < j % 3);
        }
    }
}

/// The index at which a board position stands in its box.
proof fn lemma_sqr_index(p: int)
    requires
        0 <= p < 81,
    ensures
        0 <= spec_sqr_of(p) < 9,
        0 <= 3 * ((p / 9) % 3) + (p % 9) % 3 < 9,
        sqr_positions(spec_sqr_of(p))[3 * ((p / 9) % 3) + (p % 9) % 3] == p,
{
    let r = p / 9;
    let c = p % 9;
    let a = r / 3;
    let b = c / 3;
    let n = 3 * a + b;
    let i = 3 * (r % 3) + c % 3;
    assert(n == spec_sqr_of(p));
    assert(n / 3 == a);
    assert(n % 3 == b);
    assert(i / 3 == r % 3);
    assert(i % 3 == c % 3);
    assert(27 * a + 3 * b + 9 * (r % 3) + c % 3 == 9 * r + c);
}

/// Where the `i`-th position of box `n` lies.
proof fn lemma_sqr_member(n: int, i: int)
    requires
        0 <= n < 9,
        0 <= i < 9,
    ensures
        sqr_positions(n)[i] == 9 * (3 * (n / 3) + i / 3) + (3 * (n % 3) + i % 3),
        sqr_positions(n)[i] < 81,
        spec_row_of(sqr_positions(n)[i] as int) == 3 * (n / 3) + i / 3,
        spec_col_of(sqr_positions(n)[i] as int) == 3 * (n % 3) + i % 3,
        spec_sqr_of(sqr_positions(n)[i] as int) == n,
{
    let a = n / 3;
    let b = n % 3;
    let c = i / 3;
    let d = i % 3;
    let p = 27 * a + 3 * b + 9 * c + d;
    assert(p == 9 * (3 * a + c) + (3 * b + d));
    assert(0 <= 3 * b + d < 9);
    assert(p / 9 == 3 * a + c);
    assert(p % 9 == 3 * b + d);
    assert((3 * a + c) / 3 == a);
    assert((3 * b + d) / 3 == b);
}

/// Each of the 27 houses is an ascending list of nine board positions.
pub proof fn lemma_house_positions(k: int)
    requires
        0 <= k < 27,
    ensures
        is_ascending(house_positions(k)),
        within_board(house_positions(k)),
        house_positions(k).len() == 9,
{
    lemma_row_positions(k / 3);
    lemma_col_positions(k / 3);
    lemma_sqr_positions(k / 3);
}

/// Two ascending lists with the same members are the same list.
pub proof fn lemma_ascending_unique(a: Seq<usize>, b: Seq<usize>)
    requires
        is_ascending(a),
        is_ascending(b),
        a.to_set() == b.to_set(),
    ensures
        a == b,
    decreases a.len(),
{
    if a.len() == 0 {
        if b.len() > 0 {
            assert(b.to_set().contains(b[0]));
            assert(a.contains(b[0]));
        }
        assert(a =~= b);
    } else {
        assert(a.to_set().contains(a[0]));
        assert(b.contains(a[0]));
        assert(b.to_set().contains(b[0]));
        assert(a.contains(b[0]));
        assert(a[0] == b[0]);
        let a1 = a.skip(1);
        let b1 = b.skip(1);
        assert forall|p: usize| a1.to_set().contains(p) == b1.to_set().contains(p) by {
            if a1.contains(p) {
                let i = choose|i: int| 0 <= i < a1.len() && a1[i] == p;
                assert(a[i + 1] == p);
                assert(b.to_set().contains(p));
                let j = choose|j: int| 0 <= j < b.len() && b[j] == p;
                assert(b1[j - 1] == p);
            }
            if b1.contains(p) {
                let i = choose|i: int| 0 <= i < b1.len() && b1[i] == p;
                assert(b[i + 1] == p);
                assert(a.to_set().contains(p));
                let j = choose|j: int| 0 <= j < a.len() && a[j] == p;
                assert(a1[j - 1] == p);
            }
        }
        assert(a1.to_set() =~= b1.to_set());
        lemma_ascending_unique(a1, b1);
        assert(a =~= seq![a[0]] + a1);
        assert(b =~= seq![b[0]] + b1);
    }
}

/// An ascending list of board positions has at most 81 entries.
pub proof fn lemma_ascending_len(s: Seq<usize>)
    requires
        is_ascending(s),
        within_board(s),
    ensures
        s.len() <= 81,
        forall|i: int| 0 <= i < s.len() ==> i <= #[trigger] s[i],
    decreases s.len(),
{
    if s.len() > 0 {
        let front = s.drop_last();
        assert forall|i: int, j: int| 0 <= i < j < front.len() implies front[i] < front[j] by {
            assert(front[i] == s[i] && front[j] == s[j]);
        }
        assert forall|i: int| 0 <= i < front.len() implies front[i] < 81 by {
            assert(front[i] == s[i]);
        }
        lemma_ascending_len(front);
        assert forall|i: int| 0 <= i < s.len() implies i <= #[trigger] s[i] by {
            if i < front.len() {
                assert(front[i] == s[i]);
            } else if i > 0 {
                assert(i - 1 <= front[i - 1]);
                assert(s[i - 1] < s[i]);
            }
        }
        assert(s.len() - 1 <= s[s.len() - 1]);
    }
}

/// What is selected from an ascending list is an ascending list, and holds
/// the members of the list that pass.
pub proof fn lemma_filter_ascending(s: Seq<usize>, pred: spec_fn(usize) -> bool)
    requires
        is_ascending(s),
    ensures
        is_ascending(s.filter(pred)),
        forall|p: usize| #[trigger] s.filter(pred).contains(p) <==> s.contains(p) && pred(p),
        within_board(s) ==> within_board(s.filter(pred)),
    decreases s.len(),
{
    reveal(Seq::filter);
    if s.len() > 0 {
        let front = s.drop_last();
        let last = s.last();
        lemma_filter_ascending(front, pred);
        let ff = front.filter(pred);
        let fs = s.filter(pred);
        assert forall|p: usize| #[trigger] fs.contains(p) <==> s.contains(p) && pred(p) by {
            if fs.contains(p) {
                let i = choose|i: int| 0 <= i < fs.len() && fs[i] == p;
                if i < ff.len() {
                    assert(ff[i] == p);
                    assert(ff.contains(p));
                    let j = choose|j: int| 0 <= j < front.len() && front[j] == p;
                    assert(s[j] == p);
                } else {
                    assert(s[s.len() - 1] == p);
                }
            }
            if s.contains(p) && pred(p) {
                let j = choose|j: int| 0 <= j < s.len() && s[j] == p;
                if j < front.len() {
                    assert(front[j] == p);
                    assert(ff.contains(p));
                    let i = choose|i: int| 0 <= i < ff.len() && ff[i] == p;
                    assert(fs[i] == p);
                } else {
                    assert(fs[fs.len() - 1] == p);
                }
            }
        }
        assert forall|i: int, j: int| 0 <= i < j < fs.len() implies fs[i] < fs[j] by {
            if j < ff.len() {
                assert(ff[i] < ff[j]);
            } else {
                assert(ff.contains(ff[i]));
                let k = choose|k: int| 0 <= k < front.len() && front[k] == ff[i];
                assert(s[k] < s[s.len() - 1]);
            }
        }
        if within_board(s) {
            assert forall|i: int| 0 <= i < fs.len() implies fs[i] < 81 by {
                assert(fs.contains(fs[i]));
                let k = choose|k: int| 0 <= k < s.len() && s[k] == fs[i];
            }
        }
    }
}

/// A row, column or box number above 8.
#[derive(Debug, PartialEq, Eq)]
pub struct FigureNumberOutOfBoundError;

/// A board position above 80.
#[derive(Debug, PartialEq, Eq)]
pub struct CellIndexOutOfBoundError;

/// A set of positions, kept in ascending order without repetition: a row,
/// a column, a box, or any other selection of cells.
#[derive(Debug, PartialEq, Eq, PartialOrd, Ord, Hash)]
pub struct Figure {
    positions: Vec<usize>,
}

impl View for Figure {
    type V = Seq<usize>;

    closed spec fn view(&self) -> Seq<usize> {
        self.positions@
    }
}

impl Clone for Figure {
    fn clone(&self) -> (res: Self)
        ensures
            res@ == self@,
    {
        proof {
            use_type_invariant(self);
        }
        Figure { positions: self.positions.clone() }
    }
}

/// Merges two ascending lists into the ascending list of their union.
fn merge(a: &Vec<usize>, b: &Vec<usize>) -> (res: Vec<usize>)
    requires
        is_ascending(a@),
        is_ascending(b@),
    ensures
        is_ascending(res@),
        res@.to_set() == a@.to_set().union(b@.to_set()),
{
    let mut res: Vec<usize> = Vec::new();
    let mut i: usize = 0;
    let mut j: usize = 0;
    while i < a.len() || j < b.len()
        invariant
            i <= a.len(),
            j <= b.len(),
            is_ascending(a@),
            is_ascending(b@),
            is_ascending(res@),
            forall|k: int| 0 <= k < res@.len() && i < a.len() ==> res@[k] < a@[i as int],
            forall|k: int| 0 <= k < res@.len() && j < b.len() ==> res@[k] < b@[j as int],
            res@.to_set() == a@.take(i as int).to_set().union(b@.take(j as int).to_set()),
        decreases a.len() - i + b.len() - j,
    {
        let ghost before = res@;
        if j >= b.len() || (i < a.len() && a[i] < b[j]) {
            res.push(a[i]);
            proof {
                assert(a@.take(i + 1) =~= a@.take(i as int).push(a@[i as int]));
                a@.take(i as int).lemma_push_to_set_commute(a@[i as int]);
                before.lemma_push_to_set_commute(a@[i as int]);
            }
            i += 1;
        } else if i >= a.len() || b[j] < a[i] {
            res.push(b[j]);
            proof {
                assert(b@.take(j + 1) =~= b@.take(j as int).push(b@[j as int]));
                b@.take(j as int).lemma_push_to_set_commute(b@[j as int]);
                before.lemma_push_to_set_commute(b@[j as int]);
            }
            j += 1;
        } else {
            res.push(a[i]);
            proof {
                assert(a@.take(i + 1) =~= a@.take(i as int).push(a@[i as int]));
                assert(b@.take(j + 1) =~= b@.take(j as int).push(b@[j as int]));
                a@.take(i as int).lemma_push_to_set_commute(a@[i as int]);
                b@.take(j as int).lemma_push_to_set_commute(b@[j as int]);
                before.lemma_push_to_set_commute(a@[i as int]);
            }
            i += 1;
            j += 1;
        }
    }
    proof {
        assert(a@.take(i as int) =~= a@);
        assert(b@.take(j as int) =~= b@);
    }
    res
}

/// Keeps the members of `a` that are (`keep`) or are not (`!keep`) members of `b`.
fn select(a: &Vec<usize>, b: &Vec<usize>, keep: bool) -> (res: Vec<usize>)
    requires
        is_ascending(a@),
    ensures
        is_ascending(res@),
        keep ==> res@.to_set() == a@.to_set().intersect(b@.to_set()),
        !keep ==> res@.to_set() == a@.to_set().difference(b@.to_set()),
{
    let mut res: Vec<usize> = Vec::new();
    let mut i: usize = 0;
    while i < a.len()
        invariant
            i <= a.len(),
            is_ascending(a@),
            is_ascending(res@),
            forall|k: int| 0 <= k < res@.len() && i < a.len() ==> res@[k] < a@[i as int],
            keep ==> res@.to_set() == a@.take(i as int).to_set().intersect(b@.to_set()),
            !keep ==> res@.to_set() == a@.take(i as int).to_set().difference(b@.to_set()),
        decreases a.len() - i,
    {
        let ghost before = res@;
        let found = holds(b, a[i]);
        proof {
            assert(a@.take(i + 1) =~= a@.take(i as int).push(a@[i as int]));
            a@.take(i as int).lemma_push_to_set_commute(a@[i as int]);
            assert(b@.to_set().contains(a@[i as int]) == found);
        }
        if found == keep {
            res.push(a[i]);
            proof {
                before.lemma_push_to_set_commute(a@[i as int]);
            }
        }
        i += 1;
        proof {
            if keep {
                assert(res@.to_set() =~= a@.take(i as int).to_set().intersect(b@.to_set()));
            } else {
                assert(res@.to_set() =~= a@.take(i as int).to_set().difference(b@.to_set()));
            }
        }
    }
    proof {
        assert(a@.take(i as int) =~= a@);
    }
    res
}

/// Whether `p` occurs in `v`.
fn holds(v: &Vec<usize>, p: usize) -> (res: bool)
    ensures
        res == v@.contains(p),
{
    let mut i: usize = 0;
    while i < v.len()
        invariant
            i <= v.len(),
            forall|k: int| 0 <= k < i ==> v@[k] != p,
        decreases v.len() - i,
    {
        if v[i] == p {
            return true;
        }
        i += 1;
    }
    false
}

impl Figure {
    /// The invariant of every figure: its positions ascend strictly.
    #[verifier::type_invariant]
    pub open spec fn wf(&self) -> bool {
        is_ascending(self@)
    }

    /// Row `n` of the board, or an error if there is no such row.
    pub fn row_checked(n: u8) -> (res: Result<Figure, FigureNumberOutOfBoundError>)
        ensures
            res is Err <==> n > 8,
            res matches Ok(f) ==> f@ == row_positions(n as int) && f.wf(),
    {
        if n > 8 {
            return Err(FigureNumberOutOfBoundError);
        }
        let mut positions: Vec<usize> = Vec::new();
        let mut i: usize = 0;
        while i < 9
            invariant
                i <= 9,
                n <= 8,
                positions@ == row_positions(n as int).take(i as int),
            decreases 9 - i,
        {
            positions.push(i + (n as usize) * 9);
            i += 1;
            assert(positions@ =~= row_positions(n as int).take(i as int));
        }
        proof {
            assert(positions@ =~= row_positions(n as int));
            lemma_row_positions(n as int);
        }
        Ok(Figure { positions })
    }

    /// Column `n` of the board, or an error if there is no such column.
    pub fn col_checked(n: u8) -> (res: Result<Figure, FigureNumberOutOfBoundError>)
        ensures
            res is Err <==> n > 8,
            res matches Ok(f) ==> f@ == col_positions(n as int) && f.wf(),
    {
        if n > 8 {
            return Err(FigureNumberOutOfBoundError);
        }
        let mut positions: Vec<usize> = Vec::new();
        let mut i: usize = 0;
        while i < 9
            invariant
                i <= 9,
                n <= 8,
                positions@ == col_positions(n as int).take(i as int),
            decreases 9 - i,
        {
            positions.push(i * 9 + (n as usize));
            i += 1;
            assert(positions@ =~= col_positions(n as int).take(i as int));
        }
        proof {
            assert(positions@ =~= col_positions(n as int));
            lemma_col_positions(n as int);
        }
        Ok(Figure { positions })
    }

    /// Box `n` of the board, or an error if there is no such box.
    pub fn sqr_checked(n: u8) -> (res: Result<Figure, FigureNumberOutOfBoundError>)
        ensures
            res is Err <==> n > 8,
            res matches Ok(f) ==> f@ == sqr_positions(n as int) && f.wf(),
    {
        if n > 8 {
            return Err(FigureNumberOutOfBoundError);
        }
        let a: usize = 3 * ((n % 3) as usize);
        let b: usize = 27 * ((n / 3) as usize);
        let mut positions: Vec<usize> = Vec::new();
        let mut i: usize = 0;
        while i < 9
            invariant
                i <= 9,
                n <= 8,
                a == 3 * (n as int % 3),
                b == 27 * (n as int / 3),
                positions@ == sqr_positions(n as int).take(i as int),
            decreases 9 - i,
        {
            positions.push(9 * (i / 3) + i % 3 + a + b);
            i += 1;
            assert(positions@ =~= sqr_positions(n as int).take(i as int));
        }
        proof {
            assert(positions@ =~= sqr_positions(n as int));
            lemma_sqr_positions(n as int);
        }
        Ok(Figure { positions })
    }

    /// The row, the column and the box of position `i` together, or an error
    /// if `i` is not on the board.
    pub fn neighbours_checked(i: usize) -> (res: Result<Figure, CellIndexOutOfBoundError>)
        ensures
            res is Err <==> i >= 81,
            res matches Ok(f) ==> {
                &&& f.wf()
                &&& within_board(f@)
                &&& forall|q: usize| #[trigger] f@.contains(q) <==> q < 81 && sees(i as int, q as int)
            },
    {
        if i >= 9 * 9 {
            return Err(CellIndexOutOfBoundError);
        }
        let row = Self::row_of(i);
        let col = Self::col_of(i);
        let sqr = Self::sqr_of(i);
        let res = Figure::row(row) + Figure::col(col) + Figure::sqr(sqr);
        proof {
            lemma_row_positions(row as int);
            lemma_col_positions(col as int);
            lemma_sqr_positions(sqr as int);
            assert forall|q: usize| #[trigger]
                res@.contains(q) <==> q < 81 && sees(i as int, q as int) by {
                assert(res@.contains(q) <==> res@.to_set().contains(q));
                assert(row_positions(row as int).to_set().contains(q) <==> row_positions(
                    row as int,
                ).contains(q));
                assert(col_positions(col as int).to_set().contains(q) <==> col_positions(
                    col as int,
                ).contains(q));
                assert(sqr_positions(sqr as int).to_set().contains(q) <==> sqr_positions(
                    sqr as int,
                ).contains(q));
            }
            assert forall|k: int| 0 <= k < res@.len() implies res@[k] < 81 by {
                assert(res@.contains(res@[k]));
            }
        }
        Ok(res)
    }

    /// Row `n` of the board.
    pub fn row(n: u8) -> (res: Figure)
        requires
            n <= 8,
        ensures
            res@ == row_positions(n as int),
            res.wf(),
    {
        match Figure::row_checked(n) {
            Ok(f) => f,
            Err(_) => unreached(),
        }
    }

    /// Column `n` of the board.
    pub fn col(n: u8) -> (res: Figure)
        requires
            n <= 8,
        ensures
            res@ == col_positions(n as int),
            res.wf(),
    {
        match Figure::col_checked(n) {
            Ok(f) => f,
            Err(_) => unreached(),
        }
    }

    /// Box `n` of the board.
    pub fn sqr(n: u8) -> (res: Figure)
        requires
            n <= 8,
        ensures
            res@ == sqr_positions(n as int),
            res.wf(),
    {
        match Figure::sqr_checked(n) {
            Ok(f) => f,
            Err(_) => unreached(),
        }
    }

    /// The row, the column and the box of position `i` together; `i` itself is among them.
    pub fn neighbours(i: usize) -> (res: Figure)
        requires
            i < 81,
        ensures
            res.wf(),
            within_board(res@),
            forall|q: usize| #[trigger] res@.contains(q) <==> q < 81 && sees(i as int, q as int),
    {
        match Figure::neighbours_checked(i) {
            Ok(f) => f,
            Err(_) => unreached(),
        }
    }

    /// Every position of the board.
    pub fn all_cells() -> (res: Figure)
        ensures
            res@ == board(),
            res.wf(),
    {
        let mut positions: Vec<usize> = Vec::new();
        let mut i: usize = 0;
        while i < 81
            invariant
                i <= 81,
                positions@ == board().take(i as int),
            decreases 81 - i,
        {
            positions.push(i);
            i += 1;
            assert(positions@ =~= board().take(i as int));
        }
        assert(positions@ =~= board());
        Figure { positions }
    }

    /// The 27 houses: for each number from 0 to 8 its column, its row and its box.
    pub fn all_figures() -> (res: Vec<Figure>)
        ensures
            res@.len() == 27,
            forall|k: int| 0 <= k < 27 ==> (#[trigger] res@[k])@ == house_positions(k),
    {
        let mut res: Vec<Figure> = Vec::new();
        let mut i: u8 = 0;
        while i < 9
            invariant
                i <= 9,
                res@.len() == 3 * i,
                forall|k: int| 0 <= k < 3 * i ==> (#[trigger] res@[k])@ == house_positions(k),
            decreases 9 - i,
        {
            res.push(Figure::col(i));
            res.push(Figure::row(i));
            res.push(Figure::sqr(i));
            i += 1;
        }
        res
    }

    /// The row of position `i`, or an error if `i` is not on the board.
    pub fn row_of_checked(i: usize) -> (res: Result<u8, CellIndexOutOfBoundError>)
        ensures
            res is Err <==> i >= 81,
            res matches Ok(r) ==> r == spec_row_of(i as int),
    {
        if i >= 9 * 9 {
            return Err(CellIndexOutOfBoundError);
        }
        Ok((i / 9) as u8)
    }

    /// The column of position `i`, or an error if `i` is not on the board.
    pub fn col_of_checked(i: usize) -> (res: Result<u8, CellIndexOutOfBoundError>)
        ensures
            res is Err <==> i >= 81,
            res matches Ok(c) ==> c == spec_col_of(i as int),
    {
        if i >= 9 * 9 {
            return Err(CellIndexOutOfBoundError);
        }
        Ok((i % 9) as u8)
    }

    /// The box of position `i`, or an error if `i` is not on the board.
    pub fn sqr_of_checked(i: usize) -> (res: Result<u8, CellIndexOutOfBoundError>)
        ensures
            res is Err <==> i >= 81,
            res matches Ok(s) ==> s == spec_sqr_of(i as int),
    {
        if i >= 9 * 9 {
            return Err(CellIndexOutOfBoundError);
        }
        Ok((Self::row_of(i) / 3) * 3 + Self::col_of(i) / 3)
    }

    /// The row of position `i`.
    pub fn row_of(i: usize) -> (res: u8)
        requires
            i < 81,
        ensures
            res == spec_row_of(i as int),
            res < 9,
    {
        match Figure::row_of_checked(i) {
            Ok(r) => r,
            Err(_) => unreached(),
        }
    }

    /// The column of position `i`.
    pub fn col_of(i: usize) -> (res: u8)
        requires
            i < 81,
        ensures
            res == spec_col_of(i as int),
            res < 9,
    {
        match Figure::col_of_checked(i) {
            Ok(c) => c,
            Err(_) => unreached(),
        }
    }

    /// The box of position `i`.
    pub fn sqr_of(i: usize) -> (res: u8)
        requires
            i < 81,
        ensures
            res == spec_sqr_of(i as int),
            res < 9,
    {
        match Figure::sqr_of_checked(i) {
            Ok(s) => s,
            Err(_) => unreached(),
        }
    }

    /// The row that all positions share, if the figure is not empty and they share one.
    pub fn is_on_the_same_row(&self) -> (res: Option<u8>)
        requires
            within_board(self@),
        ensures
            match res {
                Some(r) => self@.len() > 0 && forall|i: int|
                    0 <= i < self@.len() ==> spec_row_of(self@[i] as int) == r,
                None => self@.len() == 0 || exists|i: int, j: int|
                    0 <= i < self@.len() && 0 <= j < self@.len() && spec_row_of(self@[i] as int)
                        != spec_row_of(self@[j] as int),
            },
    {
        let mut res: Option<u8> = None;
        let mut i: usize = 0;
        while i < self.positions.len()
            invariant
                i <= self@.len(),
                within_board(self@),
                res is None <==> i == 0,
                res matches Some(r) ==> forall|k: int|
                    0 <= k < i ==> spec_row_of(self@[k] as int) == r,
            decreases self@.len() - i,
        {
            let row = Figure::row_of(self.positions[i]);
            match res {
                None => {
                    res = Some(row);
                },
                Some(r) => {
                    if row != r {
                        assert(spec_row_of(self@[0] as int) != spec_row_of(self@[i as int] as int));
                        return None;
                    }
                },
            }
            i += 1;
        }
        res
    }

    /// The column that all positions share, if the figure is not empty and they share one.
    pub fn is_on_the_same_col(&self) -> (res: Option<u8>)
        requires
            within_board(self@),
        ensures
            match res {
                Some(c) => self@.len() > 0 && forall|i: int|
                    0 <= i < self@.len() ==> spec_col_of(self@[i] as int) == c,
                None => self@.len() == 0 || exists|i: int, j: int|
                    0 <= i < self@.len() && 0 <= j < self@.len() && spec_col_of(self@[i] as int)
                        != spec_col_of(self@[j] as int),
            },
    {
        let mut res: Option<u8> = None;
        let mut i: usize = 0;
        while i < self.positions.len()
            invariant
                i <= self@.len(),
                within_board(self@),
                res is None <==> i == 0,
                res matches Some(c) ==> forall|k: int|
                    0 <= k < i ==> spec_col_of(self@[k] as int) == c,
            decreases self@.len() - i,
        {
            let col = Figure::col_of(self.positions[i]);
            match res {
                None => {
                    res = Some(col);
                },
                Some(c) => {
                    if col != c {
                        assert(spec_col_of(self@[0] as int) != spec_col_of(self@[i as int] as int));
                        return None;
                    }
                },
            }
            i += 1;
        }
        res
    }

    /// The box that all positions share, if the figure is not empty and they share one.
    pub fn is_on_the_same_sqr(&self) -> (res: Option<u8>)
        requires
            within_board(self@),
        ensures
            match res {
                Some(s) => self@.len() > 0 && forall|i: int|
                    0 <= i < self@.len() ==> spec_sqr_of(self@[i] as int) == s,
                None => self@.len() == 0 || exists|i: int, j: int|
                    0 <= i < self@.len() && 0 <= j < self@.len() && spec_sqr_of(self@[i] as int)
                        != spec_sqr_of(self@[j] as int),
            },
    {
        let mut res: Option<u8> = None;
        let mut i: usize = 0;
        while i < self.positions.len()
            invariant
                i <= self@.len(),
                within_board(self@),
                res is None <==> i == 0,
                res matches Some(s) ==> forall|k: int|
                    0 <= k < i ==> spec_sqr_of(self@[k] as int) == s,
            decreases self@.len() - i,
        {
            let sqr = Figure::sqr_of(self.positions[i]);
            match res {
                None => {
                    res = Some(sqr);
                },
                Some(s) => {
                    if sqr != s {
                        assert(spec_sqr_of(self@[0] as int) != spec_sqr_of(self@[i as int] as int));
                        return None;
                    }
                },
            }
            i += 1;
        }
        res
    }

    /// The positions that belong to both figures.
    pub fn intersection(&self, other: Figure) -> (res: Figure)
        ensures
            res.wf(),
            res@.to_set() == self@.to_set().intersect(other@.to_set()),
    {
        proof {
            use_type_invariant(self);
        }
        Figure { positions: select(&self.positions, &other.positions, true) }
    }

    /// The number of positions.
    pub fn len(&self) -> (res: usize)
        ensures
            res == self@.len(),
    {
        self.positions.len()
    }

    /// Whether the figure has no position.
    pub fn is_empty(&self) -> (res: bool)
        ensures
            res == (self@.len() == 0),
    {
        self.len() == 0
    }

    /// Whether `position` belongs to the figure.
    pub fn contains(&self, position: usize) -> (res: bool)
        ensures
            res == self@.contains(position),
    {
        holds(&self.positions, position)
    }

    /// The positions in ascending order.
    pub fn positions(&self) -> (res: &Vec<usize>)
        ensures
            res@ == self@,
            is_ascending(res@),
    {
        proof {
            use_type_invariant(self);
        }
        &self.positions
    }
}

/// The union of two figures is stated by the contract of `add`; no
/// figure-valued function stands for it.
impl AddSpecImpl for Figure {
    open spec fn obeys_add_spec() -> bool {
        false
    }

    open spec fn add_req(self, rhs: Figure) -> bool {
        true
    }

    open spec fn add_spec(self, rhs: Figure) -> Figure {
        self
    }
}

impl core::ops::Add for Figure {
    type Output = Figure;

    /// The union of two figures.
    fn add(self, rhs: Figure) -> (res: Figure)
        ensures
            res.wf(),
            res@.to_set() == self@.to_set().union(rhs@.to_set()),
    {
        proof {
            use_type_invariant(&self);
            use_type_invariant(&rhs);
        }
        Figure { positions: merge(&self.positions, &rhs.positions) }
    }
}

impl core::ops::AddAssign for Figure {
    /// Adds the positions of `rhs` to the figure.
    fn add_assign(&mut self, rhs: Figure)
        ensures
            final(self).wf(),
            final(self)@.to_set() == old(self)@.to_set().union(rhs@.to_set()),
    {
        proof {
            use_type_invariant(&*self);
            use_type_invariant(&rhs);
        }
        let positions = merge(&self.positions, &rhs.positions);
        *self = Figure { positions };
    }
}

/// The difference of two figures is stated by the contract of `sub`; no
/// figure-valued function stands for it.
impl SubSpecImpl for Figure {
    open spec fn obeys_sub_spec() -> bool {
        false
    }

    open spec fn sub_req(self, rhs: Figure) -> bool {
        true
    }

    open spec fn sub_spec(self, rhs: Figure) -> Figure {
        self
    }
}

impl core::ops::Sub for Figure {
    type Output = Figure;

    /// The positions of the figure that `rhs` does not hold.
    fn sub(self, rhs: Figure) -> (res: Figure)
        ensures
            res.wf(),
            res@.to_set() == self@.to_set().difference(rhs@.to_set()),
    {
        proof {
            use_type_invariant(&self);
        }
        Figure { positions: select(&self.positions, &rhs.positions, false) }
    }
}

impl core::ops::SubAssign for Figure {
    /// Removes the positions of `rhs` from the figure.
    fn sub_assign(&mut self, rhs: Figure)
        ensures
            final(self).wf(),
            final(self)@.to_set() == old(self)@.to_set().difference(rhs@.to_set()),
    {
        proof {
            use_type_invariant(&*self);
        }
        let positions = select(&self.positions, &rhs.positions, false);
        *self = Figure { positions };
    }
}

/// The figure of a list is stated by the contract of `from`; no
/// figure-valued function stands for it.
impl FromSpecImpl<Vec<usize>> for Figure {
    open spec fn obeys_from_spec() -> bool {
        false
    }

    open spec fn from_spec(v: Vec<usize>) -> Figure {
        arbitrary()
    }
}

impl From<Vec<usize>> for Figure {
    /// The figure of the positions that `value` lists, in any order and with repetitions.
    fn from(value: Vec<usize>) -> (res: Figure)
        ensures
            res.wf(),
            res@.to_set() == value@.to_set(),
    {
            let mut positions: Vec<usize> = Vec::new();
        let mut i: usize = 0;
        while i < value.len()
            invariant
                i <= value.len(),
                is_ascending(positions@),
                positions@.to_set() == value@.take(i as int).to_set(),
            decreases value.len() - i,
        {
            let mut single: Vec<usize> = Vec::new();
            single.push(value[i]);
            proof {
                assert(value@.take(i + 1) =~= value@.take(i as int).push(value@[i as int]));
                value@.take(i as int).lemma_push_to_set_commute(value@[i as int]);
                assert(single@ =~= Seq::<usize>::empty().push(value@[i as int]));
                Seq::<usize>::empty().lemma_push_to_set_commute(value@[i as int]);
                assert(Seq::<usize>::empty().to_set() =~= Set::<usize>::empty());
                assert(is_ascending(single@));
            }
            positions = merge(&positions, &single);
            i += 1;
            assert(positions@.to_set() =~= value@.take(i as int).to_set());
        }
        proof {
            assert(value@.take(i as int) =~= value@);
        }
        Figure { positions }
    }
}

} // verus!
