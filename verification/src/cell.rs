use vstd::pervasive::unreached;
use vstd::prelude::*;

verus! {

/// The value of a cell as contracts see it: a placed digit, or the list of
/// digits that are still candidates, in the order in which they are stored.
pub enum CellView {
    Number(u8),
    Pencilmarks(Seq<u8>),
}

/// One square of the board: either solved, or holding its remaining candidates.
#[derive(Debug, PartialEq)]
pub enum Cell {
    Number(u8),
    Pencilmarks(Vec<u8>),
}

impl View for Cell {
    type V = CellView;

    open spec fn view(&self) -> CellView {
        match self {
            Cell::Number(n) => CellView::Number(*n),
            Cell::Pencilmarks(p) => CellView::Pencilmarks(p@),
        }
    }
}

impl Clone for Cell {
    fn clone(&self) -> (res: Self)
        ensures
            res@ == self@,
    {
        match self {
            Cell::Number(n) => Cell::Number(*n),
            Cell::Pencilmarks(p) => Cell::Pencilmarks(p.clone()),
        }
    }
}

/// The digits one to nine in ascending order.
pub open spec fn all_digits() -> Seq<u8> {
    seq![1u8, 2u8, 3u8, 4u8, 5u8, 6u8, 7u8, 8u8, 9u8]
}

/// Every value of a byte in ascending order.
pub open spec fn all_bytes() -> Seq<u8> {
    Seq::new(256, |i: int| i as u8)
}

/// Whether `d` is one of the digits from 1 to 9.
pub open spec fn is_digit(d: u8) -> bool {
    1 <= d <= 9
}

/// Whether a list can be the candidates of a cell: digits from 1 to 9, none
/// of them twice.
pub open spec fn is_candidate_list(p: Seq<u8>) -> bool {
    &&& p.no_duplicates()
    &&& forall|i: int| 0 <= i < p.len() ==> is_digit(#[trigger] p[i])
}

/// The digits one to nine are nine different digits.
pub proof fn lemma_all_digits_distinct()
    ensures
        is_candidate_list(all_digits()),
{
    let s = all_digits();
    assert forall|i: int, j: int| 0 <= i < s.len() && 0 <= j < s.len() && i != j implies s[i]
        != s[j] by {
        assert(s[i] == i + 1);
        assert(s[j] == j + 1);
    }
}

/// The candidates that are left of `marks` when only the digits in `digits`
/// are kept (`preserve`) or when they are struck out (`!preserve`).
pub open spec fn kept(marks: Seq<u8>, digits: Seq<u8>, preserve: bool) -> Seq<u8> {
    marks.filter(|m: u8| digits.contains(m) == preserve)
}

/// How `kept` treats the last candidate of a list.
pub proof fn lemma_kept_push(marks: Seq<u8>, m: u8, digits: Seq<u8>, preserve: bool)
    ensures
        kept(marks.push(m), digits, preserve) == if digits.contains(m) == preserve {
            kept(marks, digits, preserve).push(m)
        } else {
            kept(marks, digits, preserve)
        },
{
    reveal(Seq::filter);
    assert(marks.push(m).drop_last() =~= marks);
}

/// `kept` holds exactly the candidates that pass, and never more than there were.
pub proof fn lemma_kept(marks: Seq<u8>, digits: Seq<u8>, preserve: bool)
    ensures
        kept(marks, digits, preserve).len() <= marks.len(),
        forall|m: u8| #[trigger]
            kept(marks, digits, preserve).contains(m) <==> marks.contains(m) && digits.contains(m)
                == preserve,
        kept(marks, digits, preserve).len() == marks.len() <==> forall|i: int|
            0 <= i < marks.len() ==> digits.contains(#[trigger] marks[i]) == preserve,
        kept(marks, digits, preserve).len() == marks.len() ==> kept(marks, digits, preserve)
            == marks,
    decreases marks.len(),
{
    if marks.len() == 0 {
        reveal(Seq::filter);
        assert(kept(marks, digits, preserve) =~= marks);
    } else {
        let front = marks.drop_last();
        let last = marks.last();
        lemma_kept(front, digits, preserve);
        assert(marks =~= front.push(last));
        lemma_kept_push(front, last, digits, preserve);
        let kf = kept(front, digits, preserve);
        let k = kept(marks, digits, preserve);
        assert forall|m: u8| #[trigger]
            k.contains(m) <==> marks.contains(m) && digits.contains(m) == preserve by {
            if k.contains(m) {
                let i = choose|i: int| 0 <= i < k.len() && k[i] == m;
                if i < kf.len() {
                    assert(kf.contains(m));
                    let j = choose|j: int| 0 <= j < front.len() && front[j] == m;
                    assert(marks[j] == m);
                } else {
                    assert(marks[marks.len() - 1] == m);
                }
            }
            if marks.contains(m) && digits.contains(m) == preserve {
                let j = choose|j: int| 0 <= j < marks.len() && marks[j] == m;
                if j < front.len() {
                    assert(front[j] == m);
                    assert(kf.contains(m));
                    let i = choose|i: int| 0 <= i < kf.len() && kf[i] == m;
                    assert(k[i] == m);
                } else {
                    assert(k[k.len() - 1] == m);
                }
            }
        }
        if k.len() == marks.len() {
            assert(kf.len() == front.len());
            assert forall|i: int| 0 <= i < marks.len() implies digits.contains(
                #[trigger] marks[i],
            ) == preserve by {
                if i < front.len() {
                    assert(front[i] == marks[i]);
                }
            }
            assert(k =~= marks);
        }
        if forall|i: int| 0 <= i < marks.len() ==> digits.contains(#[trigger] marks[i])
            == preserve {
            assert forall|i: int| 0 <= i < front.len() implies digits.contains(
                #[trigger] front[i],
            ) == preserve by {
                assert(front[i] == marks[i]);
            }
            assert(digits.contains(marks[marks.len() - 1]) == preserve);
        }
    }
}

/// What is kept of a list without repeats is a list without repeats.
pub proof fn lemma_kept_no_duplicates(marks: Seq<u8>, digits: Seq<u8>, preserve: bool)
    requires
        marks.no_duplicates(),
    ensures
        kept(marks, digits, preserve).no_duplicates(),
    decreases marks.len(),
{
    if marks.len() == 0 {
        reveal(Seq::filter);
    } else {
        let front = marks.drop_last();
        let last = marks.last();
        assert(marks =~= front.push(last));
        assert forall|i: int, j: int| 0 <= i < front.len() && 0 <= j < front.len() && i
            != j implies front[i] != front[j] by {
            assert(front[i] == marks[i] && front[j] == marks[j]);
        }
        lemma_kept_no_duplicates(front, digits, preserve);
        lemma_kept_push(front, last, digits, preserve);
        lemma_kept(front, digits, preserve);
        let kf = kept(front, digits, preserve);
        if kf.contains(last) {
            let j = choose|j: int| 0 <= j < front.len() && front[j] == last;
            assert(marks[j] == marks[marks.len() - 1]);
        }
    }
}

/// What is kept of the candidates of a cell can be the candidates of a cell.
pub proof fn lemma_kept_candidate_list(marks: Seq<u8>, digits: Seq<u8>, preserve: bool)
    requires
        is_candidate_list(marks),
    ensures
        is_candidate_list(kept(marks, digits, preserve)),
{
    lemma_kept_no_duplicates(marks, digits, preserve);
    lemma_kept(marks, digits, preserve);
    let k = kept(marks, digits, preserve);
    assert forall|i: int| 0 <= i < k.len() implies is_digit(#[trigger] k[i]) by {
        assert(k.contains(k[i]));
        let j = choose|j: int| 0 <= j < marks.len() && marks[j] == k[i];
        assert(is_digit(marks[j]));
    }
}

impl CellView {
    /// Whether the cell is one of a grid: its digit is one of the digits
    /// from 1 to 9, or its candidates are such digits, none of them twice.
    pub open spec fn valid(self) -> bool {
        match self {
            CellView::Number(n) => is_digit(n),
            CellView::Pencilmarks(p) => is_candidate_list(p),
        }
    }

    /// Whether the cell is unsolved and `digit` is one of its candidates.
    pub open spec fn has_candidate(self, digit: u8) -> bool {
        match self {
            CellView::Number(_) => false,
            CellView::Pencilmarks(p) => p.contains(digit),
        }
    }

    /// The cell after its candidates were cut down with `kept`; a solved cell stays as it is.
    pub open spec fn restricted(self, digits: Seq<u8>, preserve: bool) -> CellView {
        match self {
            CellView::Number(n) => CellView::Number(n),
            CellView::Pencilmarks(p) => CellView::Pencilmarks(kept(p, digits, preserve)),
        }
    }
}

/// Whether `digit` occurs in `digits`.
pub fn has_digit(digits: &Vec<u8>, digit: u8) -> (res: bool)
    ensures
        res == digits@.contains(digit),
{
    let mut i: usize = 0;
    while i < digits.len()
        invariant
            i <= digits.len(),
            forall|k: int| 0 <= k < i ==> digits@[k] != digit,
        decreases digits.len() - i,
    {
        if digits[i] == digit {
            return true;
        }
        i += 1;
    }
    false
}

/// Whether a list holds an entry twice.
pub fn has_repeats(marks: &Vec<u8>) -> (res: bool)
    ensures
        res == !marks@.no_duplicates(),
{
    let mut i: usize = 0;
    while i < marks.len()
        invariant
            i <= marks@.len(),
            forall|a: int, b: int| 0 <= a < b < marks@.len() && a < i ==> marks@[a] != marks@[b],
        decreases marks@.len() - i,
    {
        let mut j: usize = i + 1;
        while j < marks.len()
            invariant
                i < j <= marks@.len(),
                forall|b: int| i < b < j ==> marks@[i as int] != marks@[b],
            decreases marks@.len() - j,
        {
            if marks[i] == marks[j] {
                return true;
            }
            j += 1;
        }
        i += 1;
    }
    assert forall|a: int, b: int| 0 <= a < marks@.len() && 0 <= b < marks@.len() && a
        != b implies marks@[a] != marks@[b] by {
        if a < b {
            assert(marks@[a] != marks@[b]);
        } else {
            assert(marks@[b] != marks@[a]);
        }
    }
    false
}

/// Whether a list can be the candidates of a cell.
pub fn is_candidates(marks: &Vec<u8>) -> (res: bool)
    ensures
        res == is_candidate_list(marks@),
{
    if has_repeats(marks) {
        return false;
    }
    let mut i: usize = 0;
    while i < marks.len()
        invariant
            i <= marks@.len(),
            forall|k: int| 0 <= k < i ==> is_digit(#[trigger] marks@[k]),
        decreases marks@.len() - i,
    {
        if marks[i] < 1 || marks[i] > 9 {
            assert(!is_digit(marks@[i as int]));
            return false;
        }
        i += 1;
    }
    true
}

/// Cuts a list of candidates down: keeps those that occur in `digits`
/// (`preserve`), or those that do not (`!preserve`), in their order.
pub fn keep_marks(marks: &Vec<u8>, digits: &Vec<u8>, preserve: bool) -> (res: Vec<u8>)
    ensures
        res@ == kept(marks@, digits@, preserve),
{
    let mut res: Vec<u8> = Vec::new();
    let mut i: usize = 0;
    proof {
        reveal(Seq::filter);
        assert(marks@.take(0) =~= Seq::<u8>::empty());
    }
    while i < marks.len()
        invariant
            i <= marks.len(),
            res@ == kept(marks@.take(i as int), digits@, preserve),
        decreases marks.len() - i,
    {
        let m = marks[i];
        proof {
            assert(marks@.take(i + 1) =~= marks@.take(i as int).push(m));
            lemma_kept_push(marks@.take(i as int), m, digits@, preserve);
        }
        if has_digit(digits, m) == preserve {
            res.push(m);
        }
        i += 1;
    }
    proof {
        assert(marks@.take(i as int) =~= marks@);
    }
    res
}

impl Cell {
    /// An unsolved cell in which every digit is still a candidate.
    pub fn all_pencilmarks() -> (res: Cell)
        ensures
            res@ == CellView::Pencilmarks(all_digits()),
    {
        let mut p: Vec<u8> = Vec::new();
        p.push(1);
        p.push(2);
        p.push(3);
        p.push(4);
        p.push(5);
        p.push(6);
        p.push(7);
        p.push(8);
        p.push(9);
        assert(p@ =~= all_digits());
        Cell::Pencilmarks(p)
    }

    /// Whether the cell is solved.
    pub fn is_number(&self) -> (res: bool)
        ensures
            res == (self@ is Number),
    {
        match self {
            Cell::Number(_) => true,
            Cell::Pencilmarks(_) => false,
        }
    }

    /// Whether the cell is unsolved.
    pub fn is_pencilmarks(&self) -> (res: bool)
        ensures
            res == (self@ is Pencilmarks),
    {
        match self {
            Cell::Number(_) => false,
            Cell::Pencilmarks(_) => true,
        }
    }

    /// The digit of a solved cell.
    pub fn number(&self) -> (res: u8)
        requires
            self@ is Number,
        ensures
            self@ == CellView::Number(res),
    {
        match self {
            Cell::Number(n) => *n,
            Cell::Pencilmarks(_) => unreached(),
        }
    }

    /// The candidates of an unsolved cell.
    pub fn pencilmarks(&self) -> (res: Vec<u8>)
        requires
            self@ is Pencilmarks,
        ensures
            self@ == CellView::Pencilmarks(res@),
    {
        match self {
            Cell::Number(_) => unreached(),
            Cell::Pencilmarks(p) => p.clone(),
        }
    }
}

} // verus!
