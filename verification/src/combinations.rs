//! The ways to choose some of the first numbers, taken from the crate `itertools`.
use vstd::prelude::*;

use crate::order::{lex_before, positions_key};

verus! {

/// Whether `c` lists `k` different numbers below `n` in ascending order.
pub open spec fn is_selection(c: Seq<usize>, n: int, k: int) -> bool {
    &&& c.len() == k
    &&& forall|i: int| 0 <= i < c.len() ==> c[i] < n
    &&& forall|i: int, j: int| 0 <= i < j < c.len() ==> c[i] < c[j]
}

/// Calls `Itertools::combinations` of the crate `itertools` on the numbers
/// from 0 up to `n`, not including `n`, and collects what it yields. The
/// contract is not proved: it says that each entry lists `k` different
/// numbers below `n` in ascending order, that every such list is among the
/// entries, and that the entries come in lexicographic order. The bounds
/// keep the list that is collected small enough to be held.
#[verifier::external_body]
pub(crate) fn index_combinations(n: usize, k: usize) -> (res: Vec<Vec<usize>>)
    requires
        n <= 81,
        k <= 4,
    ensures
        forall|i: int| 0 <= i < res@.len() ==> is_selection(#[trigger] res@[i]@, n as int, k as int),
        forall|c: Seq<usize>|
            is_selection(c, n as int, k as int) ==> exists|i: int|
                0 <= i < res@.len() && #[trigger] res@[i]@ == c,
        forall|i: int, j: int|
            0 <= i < j < res@.len() ==> lex_before(
                positions_key(#[trigger] res@[i]@),
                positions_key(#[trigger] res@[j]@),
            ),
{
    itertools::Itertools::combinations(0..n, k).collect()
}

} // verus!
