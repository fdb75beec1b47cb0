//! The lexicographic order on lists of numbers, by which figures, lists of
//! digits and, through them, actions are ordered.
use vstd::prelude::*;

verus! {

/// The result of comparing two values in a strict total order.
#[derive(Debug, PartialEq, Eq, Clone, Copy)]
pub enum Rank {
    Before,
    Same,
    After,
}

/// Whether `a` and `b` agree on their first `k` entries and `a` is the lesser
/// from there: it ends at `k` while `b` goes on, or its entry at `k` is smaller.
pub open spec fn splits(a: Seq<int>, b: Seq<int>, k: int) -> bool {
    &&& 0 <= k <= a.len()
    &&& k < b.len()
    &&& forall|j: int| 0 <= j < k ==> a[j] == b[j]
    &&& (k < a.len() ==> a[k] < b[k])
}

/// Whether `a` comes strictly before `b` in lexicographic order.
pub open spec fn lex_before(a: Seq<int>, b: Seq<int>) -> bool {
    exists|k: int| splits(a, b, k)
}

/// The positions of a figure as numbers.
pub open spec fn positions_key(s: Seq<usize>) -> Seq<int> {
    s.map_values(|p: usize| p as int)
}

/// A list of digits as numbers.
pub open spec fn digits_key(s: Seq<u8>) -> Seq<int> {
    s.map_values(|d: u8| d as int)
}

/// No list comes before itself.
pub proof fn lemma_lex_irreflexive(a: Seq<int>)
    ensures
        !lex_before(a, a),
{
}

/// The lexicographic order is transitive.
pub proof fn lemma_lex_transitive(a: Seq<int>, b: Seq<int>, c: Seq<int>)
    requires
        lex_before(a, b),
        lex_before(b, c),
    ensures
        lex_before(a, c),
{
    let k1 = choose|k: int| splits(a, b, k);
    let k2 = choose|k: int| splits(b, c, k);
    let k = if k1 <= k2 {
        k1
    } else {
        k2
    };
    assert(splits(a, c, k));
}

/// Of two different lists one comes before the other.
pub proof fn lemma_lex_total(a: Seq<int>, b: Seq<int>)
    ensures
        a == b || lex_before(a, b) || lex_before(b, a),
    decreases a.len(),
{
    if a.len() == 0 {
        if b.len() == 0 {
            assert(a =~= b);
        } else {
            assert(splits(a, b, 0));
        }
    } else if b.len() == 0 {
        assert(splits(b, a, 0));
    } else if a[0] < b[0] {
        assert(splits(a, b, 0));
    } else if b[0] < a[0] {
        assert(splits(b, a, 0));
    } else {
        let a1 = a.skip(1);
        let b1 = b.skip(1);
        lemma_lex_total(a1, b1);
        if a1 == b1 {
            assert(a =~= seq![a[0]] + a1);
            assert(b =~= seq![b[0]] + b1);
        } else if lex_before(a1, b1) {
            let k = choose|k: int| splits(a1, b1, k);
            assert forall|j: int| 0 <= j < k + 1 implies a[j] == b[j] by {
                if j > 0 {
                    assert(a1[j - 1] == b1[j - 1]);
                }
            }
            if k < a1.len() {
                assert(a1[k] < b1[k]);
            }
            assert(splits(a, b, k + 1));
        } else {
            let k = choose|k: int| splits(b1, a1, k);
            assert forall|j: int| 0 <= j < k + 1 implies b[j] == a[j] by {
                if j > 0 {
                    assert(b1[j - 1] == a1[j - 1]);
                }
            }
            if k < b1.len() {
                assert(b1[k] < a1[k]);
            }
            assert(splits(b, a, k + 1));
        }
    }
}

/// Compares two lists of positions lexicographically.
pub fn rank_positions(a: &Vec<usize>, b: &Vec<usize>) -> (r: Rank)
    ensures
        match r {
            Rank::Before => lex_before(positions_key(a@), positions_key(b@)),
            Rank::Same => a@ == b@,
            Rank::After => lex_before(positions_key(b@), positions_key(a@)),
        },
{
    let mut i: usize = 0;
    while i < a.len() && i < b.len()
        invariant
            i <= a.len(),
            i <= b.len(),
            forall|j: int| 0 <= j < i ==> a@[j] == b@[j],
        decreases a.len() - i,
    {
        if a[i] < b[i] {
            assert(splits(positions_key(a@), positions_key(b@), i as int));
            return Rank::Before;
        }
        if a[i] > b[i] {
            assert(splits(positions_key(b@), positions_key(a@), i as int));
            return Rank::After;
        }
        i += 1;
    }
    if a.len() < b.len() {
        assert(splits(positions_key(a@), positions_key(b@), i as int));
        Rank::Before
    } else if a.len() > b.len() {
        assert(splits(positions_key(b@), positions_key(a@), i as int));
        Rank::After
    } else {
        assert(a@ =~= b@);
        Rank::Same
    }
}

/// Compares two lists of digits lexicographically.
pub fn rank_digits(a: &Vec<u8>, b: &Vec<u8>) -> (r: Rank)
    ensures
        match r {
            Rank::Before => lex_before(digits_key(a@), digits_key(b@)),
            Rank::Same => a@ == b@,
            Rank::After => lex_before(digits_key(b@), digits_key(a@)),
        },
{
    let mut i: usize = 0;
    while i < a.len() && i < b.len()
        invariant
            i <= a.len(),
            i <= b.len(),
            forall|j: int| 0 <= j < i ==> a@[j] == b@[j],
        decreases a.len() - i,
    {
        if a[i] < b[i] {
            assert(splits(digits_key(a@), digits_key(b@), i as int));
            return Rank::Before;
        }
        if a[i] > b[i] {
            assert(splits(digits_key(b@), digits_key(a@), i as int));
            return Rank::After;
        }
        i += 1;
    }
    if a.len() < b.len() {
        assert(splits(digits_key(a@), digits_key(b@), i as int));
        Rank::Before
    } else if a.len() > b.len() {
        assert(splits(digits_key(b@), digits_key(a@), i as int));
        Rank::After
    } else {
        assert(a@ =~= b@);
        Rank::Same
    }
}

} // verus!
