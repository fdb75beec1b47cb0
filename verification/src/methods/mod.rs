//! The solving methods. Each one reads a grid and proposes actions; none
//! changes the grid.
pub mod box_line_reduction;
pub mod confined;
pub mod fishes;
pub mod hidden_n;
pub mod naked_n;
pub mod pointing_ns;
pub mod simple_coloring;

use vstd::prelude::*;

use crate::action::ActionView;
use crate::action_set::ActionSet;
use crate::cell::CellView;
use crate::grid::{spec_is_solved, Grid};
use crate::methods::box_line_reduction::{lemma_box_line_solved, BoxLineReduction};
use crate::methods::fishes::{lemma_fishes_solved, Fishes};
use crate::methods::hidden_n::{lemma_hidden_solved, Hidden};
use crate::methods::naked_n::{lemma_naked_solved, Naked};
use crate::methods::pointing_ns::{lemma_pointing_solved, Pointing};
use crate::methods::simple_coloring::{lemma_coloring_solved, SimpleColoring};

verus! {

/// A solving method of the catalog.
#[derive(Debug, Clone, Copy, PartialEq, Eq)]
pub enum Method {
    Naked(Naked),
    Hidden(Hidden),
    Pointing(Pointing),
    BoxLineReduction(BoxLineReduction),
    Fishes(Fishes),
    SimpleColoring(SimpleColoring),
}

/// An action as a method proposed it, or with its figure narrowed.
pub open spec fn prepared(a: ActionView, g: Seq<CellView>, simplify: bool) -> ActionView {
    if simplify {
        a.simplified(g)
    } else {
        a
    }
}

/// Whether `b` is what is made of one of the first `n` of `actions`, and would change the grid.
pub open spec fn helpful_among(
    actions: Seq<ActionView>,
    n: int,
    g: Seq<CellView>,
    simplify: bool,
    b: ActionView,
) -> bool {
    b.helpful(g) && exists|k: int| 0 <= k < n && b == prepared(#[trigger] actions[k], g, simplify)
}

/// In a solved grid no method of the catalog proposes anything.
pub proof fn lemma_solved_grid_has_no_applications(g: Seq<CellView>, method: Method)
    requires
        g.len() == 81,
        spec_is_solved(g),
    ensures
        method.applications(g) == Set::<ActionView>::empty(),
        method.helpful_applications(g, true) == Set::<ActionView>::empty(),
        method.helpful_applications(g, false) == Set::<ActionView>::empty(),
{
    match method {
        Method::Naked(m) => lemma_naked_solved(g, m),
        Method::Hidden(m) => lemma_hidden_solved(g, m),
        Method::Pointing(m) => lemma_pointing_solved(g, m),
        Method::BoxLineReduction(m) => lemma_box_line_solved(g, m),
        Method::Fishes(m) => lemma_fishes_solved(g, m),
        Method::SimpleColoring(m) => lemma_coloring_solved(g, m),
    }
    assert(method.helpful_applications(g, true) =~= Set::<ActionView>::empty());
    assert(method.helpful_applications(g, false) =~= Set::<ActionView>::empty());
}

impl Method {
    /// The actions that the method proposes for a grid.
    pub open spec fn applications(self, g: Seq<CellView>) -> Set<ActionView> {
        match self {
            Method::Naked(m) => m.applications(g),
            Method::Hidden(m) => m.applications(g),
            Method::Pointing(m) => m.applications(g),
            Method::BoxLineReduction(m) => m.applications(g),
            Method::Fishes(m) => m.applications(g),
            Method::SimpleColoring(m) => m.applications(g),
        }
    }

    /// The actions that the method proposes for a grid, with their figures
    /// narrowed where `simplify` says so, as far as they would change the grid.
    pub open spec fn helpful_applications(self, g: Seq<CellView>, simplify: bool) -> Set<
        ActionView,
    > {
        Set::new(
            |b: ActionView|
                b.helpful(g) && exists|a: ActionView|
                    self.applications(g).contains(a) && b == #[trigger] prepared(a, g, simplify),
        )
    }

    /// The name of the method.
    pub open spec fn spec_name(self) -> Seq<char> {
        match self {
            Method::Naked(Naked::Single) => "Naked Single"@,
            Method::Naked(Naked::Pair) => "Naked Pair"@,
            Method::Naked(Naked::Triple) => "Naked Triple"@,
            Method::Naked(Naked::Quad) => "Naked Quad"@,
            Method::Hidden(Hidden::Single) => "Hidden Single"@,
            Method::Hidden(Hidden::Pair) => "Hidden Pair"@,
            Method::Hidden(Hidden::Triple) => "Hidden Triple"@,
            Method::Hidden(Hidden::Quad) => "Hidden Quad"@,
            Method::Pointing(Pointing::Pair) => "Pointing Pair"@,
            Method::Pointing(Pointing::Triple) => "Pointing Triple"@,
            Method::BoxLineReduction(BoxLineReduction::Pair) => "Box Line Reduction (for Pair)"@,
            Method::BoxLineReduction(BoxLineReduction::Triple) => "Box Line Reduction (for Triple)"@,
            Method::Fishes(Fishes::XWing) => "X-Wing"@,
            Method::Fishes(Fishes::Swordfish) => "Swordfish"@,
            Method::Fishes(Fishes::Jellyfish) => "Jellyfish"@,
            Method::SimpleColoring(_) => "Simple Coloring"@,
        }
    }

    /// The name of the method.
    pub fn name(&self) -> (res: &'static str)
        ensures
            res@ == self.spec_name(),
    {
        match self {
            Method::Naked(Naked::Single) => "Naked Single",
            Method::Naked(Naked::Pair) => "Naked Pair",
            Method::Naked(Naked::Triple) => "Naked Triple",
            Method::Naked(Naked::Quad) => "Naked Quad",
            Method::Hidden(Hidden::Single) => "Hidden Single",
            Method::Hidden(Hidden::Pair) => "Hidden Pair",
            Method::Hidden(Hidden::Triple) => "Hidden Triple",
            Method::Hidden(Hidden::Quad) => "Hidden Quad",
            Method::Pointing(Pointing::Pair) => "Pointing Pair",
            Method::Pointing(Pointing::Triple) => "Pointing Triple",
            Method::BoxLineReduction(BoxLineReduction::Pair) => "Box Line Reduction (for Pair)",
            Method::BoxLineReduction(BoxLineReduction::Triple) => "Box Line Reduction (for Triple)",
            Method::Fishes(Fishes::XWing) => "X-Wing",
            Method::Fishes(Fishes::Swordfish) => "Swordfish",
            Method::Fishes(Fishes::Jellyfish) => "Jellyfish",
            Method::SimpleColoring(_) => "Simple Coloring",
        }
    }

    /// The actions that the method proposes for the grid.
    pub fn get_all_applications(&self, grid: &Grid) -> (res: ActionSet)
        ensures
            res@ == self.applications(grid@),
            forall|a: ActionView| res@.contains(a) ==> a.in_bounds(),
    {
        match self {
            Method::Naked(m) => m.get_all_applications(grid),
            Method::Hidden(m) => m.get_all_applications(grid),
            Method::Pointing(m) => m.get_all_applications(grid),
            Method::BoxLineReduction(m) => m.get_all_applications(grid),
            Method::Fishes(m) => m.get_all_applications(grid),
            Method::SimpleColoring(m) => m.get_all_applications(grid),
        }
    }

    /// The actions that the method proposes for the grid, with their
    /// figures narrowed where `simplify` says so, as far as they would
    /// change the grid.
    pub fn get_all_helpful_applications(&self, grid: &Grid, simplify: bool) -> (res: ActionSet)
        ensures
            res@ == self.helpful_applications(grid@, simplify),
            forall|a: ActionView| res@.contains(a) ==> a.in_bounds() && a.helpful(grid@),
    {
        let applications = self.get_all_applications(grid);
        let ghost all = applications.seq();
        let ghost g = grid@;
        let mut res = ActionSet::new();
        let mut i: usize = 0;
        while i < applications.len()
            invariant
                i <= all.len(),
                all == applications.seq(),
                g == grid@,
                forall|a: ActionView| applications@.contains(a) ==> a.in_bounds(),
                forall|b: ActionView| res@.contains(b) <==> helpful_among(all, i as int, g, simplify, b),
                forall|a: ActionView| res@.contains(a) ==> a.in_bounds() && a.helpful(g),
            decreases all.len() - i,
        {
            let mut method = applications.get(i).clone();
            proof {
                assert(all.contains(all[i as int]));
                assert(applications@.contains(all[i as int]));
            }
            if simplify {
                method.simplify(grid);
            }
            let ghost made = method@;
            assert(made == prepared(all[i as int], g, simplify));
            let helpful = method.is_helpful(grid);
            if helpful {
                res.insert(method);
            }
            proof {
                assert forall|b: ActionView| res@.contains(b) <==> helpful_among(
                    all,
                    i + 1,
                    g,
                    simplify,
                    b,
                ) by {
                    if helpful_among(all, i + 1, g, simplify, b) {
                        let k = choose|k: int|
                            0 <= k < i + 1 && b == prepared(#[trigger] all[k], g, simplify);
                        if k < i {
                            assert(helpful_among(all, i as int, g, simplify, b));
                        }
                    }
                    if helpful_among(all, i as int, g, simplify, b) {
                        let k = choose|k: int|
                            0 <= k < i && b == prepared(#[trigger] all[k], g, simplify);
                        assert(b == prepared(all[k], g, simplify));
                    }
                    if helpful && b == made {
                        assert(b == prepared(all[i as int], g, simplify));
                    }
                }
            }
            i += 1;
        }
        proof {
            let target = self.helpful_applications(g, simplify);
            assert forall|b: ActionView| res@.contains(b) <==> target.contains(b) by {
                if res@.contains(b) {
                    let k = choose|k: int|
                        0 <= k < all.len() && b == prepared(#[trigger] all[k], g, simplify);
                    assert(all.contains(all[k]));
                    assert(applications@.contains(all[k]));
                    assert(b == prepared(all[k], g, simplify));
                }
                if target.contains(b) {
                    let a = choose|a: ActionView|
                        self.applications(g).contains(a) && b == #[trigger] prepared(
                            a,
                            g,
                            simplify,
                        );
                    assert(all.contains(a));
                    let k = choose|k: int| 0 <= k < all.len() && all[k] == a;
                    assert(b == prepared(all[k], g, simplify));
                }
            }
            assert(res@ =~= target);
        }
        res
    }
}

} // verus!
