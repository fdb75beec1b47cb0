//! Unions of sets that are numbered from zero, by which the methods state
//! what they find.
use vstd::prelude::*;

verus! {

/// The union of `part(0)`, ..., `part(n - 1)`.
pub open spec fn union_below<A>(n: int, part: spec_fn(int) -> Set<A>) -> Set<A> {
    Set::new(|a: A| exists|i: int| 0 <= i < n && #[trigger] part(i).contains(a))
}

/// The set that holds the value of an option, if it has one.
pub open spec fn optional<A>(o: Option<A>) -> Set<A> {
    match o {
        Some(a) => Set::empty().insert(a),
        None => Set::empty(),
    }
}

/// The union of no sets is empty.
pub proof fn lemma_union_below_none<A>(part: spec_fn(int) -> Set<A>)
    ensures
        union_below(0, part) == Set::<A>::empty(),
{
    assert(union_below(0, part) =~= Set::<A>::empty());
}

/// The union of the first `n + 1` sets is that of the first `n` and the next.
pub proof fn lemma_union_below_next<A>(n: int, part: spec_fn(int) -> Set<A>)
    requires
        0 <= n,
    ensures
        union_below(n + 1, part) == union_below(n, part).union(part(n)),
{
    let l = union_below(n + 1, part);
    let r = union_below(n, part).union(part(n));
    assert forall|a: A| l.contains(a) <==> r.contains(a) by {
        if l.contains(a) {
            let i = choose|i: int| 0 <= i < n + 1 && #[trigger] part(i).contains(a);
            if i < n {
                assert(union_below(n, part).contains(a));
            }
        }
        if union_below(n, part).contains(a) {
            let i = choose|i: int| 0 <= i < n && #[trigger] part(i).contains(a);
            assert(part(i).contains(a));
        }
        if part(n).contains(a) {
            assert(l.contains(a));
        }
    }
    assert(l =~= r);
}

/// A union of empty sets is empty.
pub proof fn lemma_union_below_empty<A>(n: int, part: spec_fn(int) -> Set<A>)
    requires
        forall|i: int| 0 <= i < n ==> #[trigger] part(i) == Set::<A>::empty(),
    ensures
        union_below(n, part) == Set::<A>::empty(),
{
    assert forall|a: A| !union_below(n, part).contains(a) by {
        if union_below(n, part).contains(a) {
            let i = choose|i: int| 0 <= i < n && #[trigger] part(i).contains(a);
            assert(part(i) == Set::<A>::empty());
        }
    }
    assert(union_below(n, part) =~= Set::<A>::empty());
}

} // verus!
