//! Facts about sequences that the proofs of the library rest on.
use vstd::prelude::*;

verus! {

/// Two predicates that agree on every element select the same elements.
pub proof fn lemma_filter_same<A>(s: Seq<A>, f: spec_fn(A) -> bool, g: spec_fn(A) -> bool)
    requires
        forall|i: int| 0 <= i < s.len() ==> f(#[trigger] s[i]) == g(s[i]),
    ensures
        s.filter(f) == s.filter(g),
    decreases s.len(),
{
    reveal(Seq::filter);
    if s.len() > 0 {
        assert forall|i: int| 0 <= i < s.drop_last().len() implies f(#[trigger] s.drop_last()[i])
            == g(s.drop_last()[i]) by {
            assert(s.drop_last()[i] == s[i]);
        }
        lemma_filter_same(s.drop_last(), f, g);
        assert(f(s[s.len() - 1]) == g(s[s.len() - 1]));
    }
}

/// A predicate that holds of every element selects the whole sequence.
pub proof fn lemma_filter_all<A>(s: Seq<A>, f: spec_fn(A) -> bool)
    requires
        forall|i: int| 0 <= i < s.len() ==> f(#[trigger] s[i]),
    ensures
        s.filter(f) == s,
    decreases s.len(),
{
    reveal(Seq::filter);
    if s.len() > 0 {
        assert forall|i: int| 0 <= i < s.drop_last().len() implies f(
            #[trigger] s.drop_last()[i],
        ) by {
            assert(s.drop_last()[i] == s[i]);
        }
        lemma_filter_all(s.drop_last(), f);
        assert(f(s[s.len() - 1]));
        assert(s.drop_last().push(s.last()) =~= s);
    }
}

/// A predicate that holds of no element selects nothing.
pub proof fn lemma_filter_none<A>(s: Seq<A>, f: spec_fn(A) -> bool)
    requires
        forall|i: int| 0 <= i < s.len() ==> !f(#[trigger] s[i]),
    ensures
        s.filter(f).len() == 0,
    decreases s.len(),
{
    reveal(Seq::filter);
    if s.len() > 0 {
        assert forall|i: int| 0 <= i < s.drop_last().len() implies !f(
            #[trigger] s.drop_last()[i],
        ) by {
            assert(s.drop_last()[i] == s[i]);
        }
        lemma_filter_none(s.drop_last(), f);
        assert(!f(s[s.len() - 1]));
    }
}

/// Filtering twice selects what the conjunction of the two predicates selects.
pub proof fn lemma_filter_twice<A>(
    s: Seq<A>,
    f: spec_fn(A) -> bool,
    g: spec_fn(A) -> bool,
    h: spec_fn(A) -> bool,
)
    requires
        forall|i: int| 0 <= i < s.len() ==> h(#[trigger] s[i]) == (f(s[i]) && g(s[i])),
    ensures
        s.filter(f).filter(g) == s.filter(h),
    decreases s.len(),
{
    reveal(Seq::filter);
    if s.len() > 0 {
        let front = s.drop_last();
        let last = s.last();
        assert forall|i: int| 0 <= i < front.len() implies h(#[trigger] front[i]) == (f(front[i])
            && g(front[i])) by {
            assert(front[i] == s[i]);
        }
        lemma_filter_twice(front, f, g, h);
        assert(h(s[s.len() - 1]) == (f(last) && g(last)));
        if f(last) {
            assert(s.filter(f) == front.filter(f).push(last));
            assert(front.filter(f).push(last).drop_last() =~= front.filter(f));
        }
    }
}

/// A list with one more entry has one more member.
pub proof fn lemma_insert_to_set<A>(s: Seq<A>, i: int, a: A)
    requires
        0 <= i <= s.len(),
    ensures
        s.insert(i, a).to_set() == s.to_set().insert(a),
{
    let t = s.insert(i, a);
    assert forall|x: A| t.to_set().contains(x) <==> s.to_set().insert(a).contains(x) by {
        if t.contains(x) {
            let k = choose|k: int| 0 <= k < t.len() && t[k] == x;
            if k < i {
                assert(s[k] == x);
            } else if k > i {
                assert(s[k - 1] == x);
            }
        }
        if s.contains(x) {
            let k = choose|k: int| 0 <= k < s.len() && s[k] == x;
            if k < i {
                assert(t[k] == x);
            } else {
                assert(t[k + 1] == x);
            }
        }
        if x == a {
            assert(t[i] == x);
        }
    }
    assert(t.to_set() =~= s.to_set().insert(a));
}

/// Whether the `i`-th number is a natural number below `n`.
pub open spec fn lands(f: spec_fn(int) -> int, i: int, n: int) -> bool {
    0 <= f(i) < n
}

/// Whether the `i`-th and the `j`-th number are the same.
pub open spec fn meets(f: spec_fn(int) -> int, i: int, j: int) -> bool {
    f(i) == f(j)
}

/// Of `n + 1` natural numbers below `n` two are the same.
pub proof fn lemma_pigeonhole(n: int, f: spec_fn(int) -> int)
    requires
        0 <= n,
        forall|i: int| 0 <= i <= n ==> #[trigger] lands(f, i, n),
    ensures
        exists|i: int, j: int| 0 <= i < j <= n && #[trigger] meets(f, i, j),
    decreases n,
{
    if n == 0 {
        assert(lands(f, 0, 0));
    } else if exists|i: int| 0 <= i < n && #[trigger] meets(f, i, n) {
        let i = choose|i: int| 0 <= i < n && #[trigger] meets(f, i, n);
        assert(meets(f, i, n));
    } else {
        let h = f(n);
        let g = |i: int|
            if f(i) < h {
                f(i)
            } else {
                f(i) - 1
            };
        assert forall|i: int| 0 <= i <= n - 1 implies #[trigger] lands(g, i, n - 1) by {
            assert(lands(f, i, n));
            assert(lands(f, n, n));
            assert(!meets(f, i, n));
        }
        lemma_pigeonhole(n - 1, g);
        let (i, j) = choose|i: int, j: int| 0 <= i < j <= n - 1 && #[trigger] meets(g, i, j);
        assert(!meets(f, i, n) && !meets(f, j, n));
        assert(meets(f, i, j));
    }
}

} // verus!
