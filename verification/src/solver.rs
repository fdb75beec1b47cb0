use vstd::prelude::*;

use crate::action::{
    keeps_solved, lemma_applied_keeps_solved, lemma_applied_no_new_candidates,
    no_new_candidates, spares_solved, touched, ActionView,
};
use crate::action_set::{actions_ascending, lemma_actions_unique, ActionSet};
use crate::cell::{lemma_kept, CellView};
use crate::grid::{spec_is_solved, Grid};
use crate::methods::box_line_reduction::BoxLineReduction;
use crate::methods::fishes::Fishes;
use crate::methods::hidden_n::Hidden;
use crate::methods::naked_n::Naked;
use crate::methods::pointing_ns::Pointing;
use crate::methods::simple_coloring::SimpleColoring;
use crate::methods::{lemma_solved_grid_has_no_applications, Method};
use crate::unions::{
    lemma_union_below_empty, lemma_union_below_next, lemma_union_below_none, union_below,
};

verus! {

/// The weight of a cell: nothing for a solved cell, and one more than the
/// number of its candidates for an unsolved one.
pub open spec fn cell_weight(c: CellView) -> nat {
    match c {
        CellView::Number(_) => 0,
        CellView::Pencilmarks(p) => p.len() + 1,
    }
}

/// The weight of a grid: the sum of the weights of its cells. Every action
/// that changes the grid makes it lighter.
pub open spec fn weight(g: Seq<CellView>) -> nat
    decreases g.len(),
{
    if g.len() == 0 {
        0
    } else {
        weight(g.drop_last()) + cell_weight(g.last())
    }
}

/// A grid none of whose cells is heavier than before is not heavier, and
/// is lighter if the cell at `k` is.
pub proof fn lemma_weight(a: Seq<CellView>, b: Seq<CellView>, k: int)
    requires
        a.len() == b.len(),
        forall|i: int| 0 <= i < a.len() ==> cell_weight(#[trigger] b[i]) <= cell_weight(a[i]),
    ensures
        weight(b) <= weight(a),
        0 <= k < a.len() && cell_weight(b[k]) < cell_weight(a[k]) ==> weight(b) < weight(a),
    decreases a.len(),
{
    if a.len() > 0 {
        assert forall|i: int| 0 <= i < a.drop_last().len() implies cell_weight(
            #[trigger] b.drop_last()[i],
        ) <= cell_weight(a.drop_last()[i]) by {
            assert(b.drop_last()[i] == b[i]);
        }
        lemma_weight(a.drop_last(), b.drop_last(), k);
        assert(cell_weight(b[b.len() - 1]) <= cell_weight(a[a.len() - 1]));
    }
}

/// A cell whose candidates were cut down is not heavier, and is lighter if one was struck out.
pub proof fn lemma_restricted_weight(c: CellView, digits: Seq<u8>, preserve: bool)
    ensures
        cell_weight(c.restricted(digits, preserve)) <= cell_weight(c),
        touched(c, digits, preserve) ==> cell_weight(c.restricted(digits, preserve)) < cell_weight(
            c,
        ),
{
    match c {
        CellView::Number(_) => {},
        CellView::Pencilmarks(p) => {
            lemma_kept(p, digits, preserve);
            if touched(c, digits, preserve) {
                let k = choose|k: int| crate::action::struck(p, k, digits, preserve);
                assert(digits.contains(p[k]) != preserve);
            }
        },
    }
}

/// An action leaves the grid its size and makes it no heavier; an action
/// that changes the grid makes it lighter.
pub proof fn lemma_applied_weight(a: ActionView, g: Seq<CellView>)
    requires
        g.len() == 81,
        a.in_bounds(),
    ensures
        a.applied(g).len() == 81,
        weight(a.applied(g)) <= weight(g),
        a.helpful(g) ==> weight(a.applied(g)) < weight(g),
{
    let r = a.applied(g);
    match a {
        ActionView::PlaceNumber { position, number } => {
            let u = g.update(position as int, CellView::Number(number));
            assert forall|i: int| 0 <= i < 81 implies cell_weight(#[trigger] r[i]) <= cell_weight(
                g[i],
            ) by {
                lemma_restricted_weight(u[i], seq![number], false);
            }
            lemma_weight(g, r, position as int);
        },
        ActionView::RemovePencilmarks { figure, pencilmarks } => {
            assert forall|i: int| 0 <= i < 81 implies cell_weight(#[trigger] r[i]) <= cell_weight(
                g[i],
            ) by {
                lemma_restricted_weight(g[i], pencilmarks, false);
            }
            lemma_weight(g, r, 0);
            if a.helpful(g) {
                let i = choose|i: int|
                    0 <= i < figure.len() && touched(g[#[trigger] figure[i] as int], pencilmarks, false);
                let k = figure[i] as int;
                assert(figure.contains(figure[i]));
                lemma_restricted_weight(g[k], pencilmarks, false);
                lemma_weight(g, r, k);
            }
        },
        ActionView::PreservePencilmarks { figure, pencilmarks } => {
            assert forall|i: int| 0 <= i < 81 implies cell_weight(#[trigger] r[i]) <= cell_weight(
                g[i],
            ) by {
                lemma_restricted_weight(g[i], pencilmarks, true);
            }
            lemma_weight(g, r, 0);
            if a.helpful(g) {
                let i = choose|i: int|
                    0 <= i < figure.len() && touched(g[#[trigger] figure[i] as int], pencilmarks, true);
                let k = figure[i] as int;
                assert(figure.contains(figure[i]));
                lemma_restricted_weight(g[k], pencilmarks, true);
                lemma_weight(g, r, k);
            }
        },
    }
}

/// The grid after the actions of a list were made one after the other.
pub open spec fn apply_all(g: Seq<CellView>, actions: Seq<ActionView>) -> Seq<CellView>
    decreases actions.len(),
{
    if actions.len() == 0 {
        g
    } else {
        actions.last().applied(apply_all(g, actions.drop_last()))
    }
}

/// A list of actions leaves the grid its size and makes it no heavier; it
/// makes the grid lighter if its first action changes the grid.
pub proof fn lemma_apply_all_weight(g: Seq<CellView>, actions: Seq<ActionView>)
    requires
        g.len() == 81,
        forall|i: int| 0 <= i < actions.len() ==> (#[trigger] actions[i]).in_bounds(),
    ensures
        apply_all(g, actions).len() == 81,
        weight(apply_all(g, actions)) <= weight(g),
        actions.len() > 0 && actions[0].helpful(g) ==> weight(apply_all(g, actions)) < weight(g),
    decreases actions.len(),
{
    if actions.len() > 0 {
        let front = actions.drop_last();
        assert forall|i: int| 0 <= i < front.len() implies (#[trigger] front[i]).in_bounds() by {
            assert(front[i] == actions[i]);
        }
        lemma_apply_all_weight(g, front);
        assert(actions[actions.len() - 1].in_bounds());
        lemma_applied_weight(actions.last(), apply_all(g, front));
        if front.len() > 0 {
            assert(front[0] == actions[0]);
        }
    }
}

/// No list of actions gives a cell a candidate that it did not have.
pub proof fn lemma_apply_all_no_new_candidates(g: Seq<CellView>, actions: Seq<ActionView>)
    requires
        g.len() == 81,
        forall|i: int| 0 <= i < actions.len() ==> (#[trigger] actions[i]).in_bounds(),
    ensures
        no_new_candidates(g, apply_all(g, actions)),
    decreases actions.len(),
{
    if actions.len() > 0 {
        let front = actions.drop_last();
        assert forall|i: int| 0 <= i < front.len() implies (#[trigger] front[i]).in_bounds() by {
            assert(front[i] == actions[i]);
        }
        lemma_apply_all_no_new_candidates(g, front);
        lemma_apply_all_weight(g, front);
        assert(actions[actions.len() - 1].in_bounds());
        lemma_applied_no_new_candidates(actions.last(), apply_all(g, front));
    }
}

/// A list of actions none of which places a number on a solved cell of the
/// grid leaves the solved cells of the grid as they are.
pub proof fn lemma_apply_all_keeps_solved(g: Seq<CellView>, actions: Seq<ActionView>)
    requires
        g.len() == 81,
        forall|i: int|
            0 <= i < actions.len() ==> (#[trigger] actions[i]).in_bounds() && spares_solved(
                actions[i],
                g,
            ),
    ensures
        keeps_solved(g, apply_all(g, actions)),
    decreases actions.len(),
{
    if actions.len() > 0 {
        let front = actions.drop_last();
        assert forall|i: int| 0 <= i < front.len() implies (#[trigger] front[i]).in_bounds()
            && spares_solved(front[i], g) by {
            assert(front[i] == actions[i]);
        }
        lemma_apply_all_keeps_solved(g, front);
        assert(actions[actions.len() - 1].in_bounds());
        lemma_applied_keeps_solved(actions.last(), g, apply_all(g, front));
    }
}

/// The actions of a set in the order of the actions.
pub open spec fn ordered(actions: Set<ActionView>) -> Seq<ActionView> {
    choose|s: Seq<ActionView>| actions_ascending(s) && s.to_set() == actions
}

/// For each method of a list, what it proposes for a grid if it is enabled:
/// its helpful actions, with their figures narrowed.
pub open spec fn step_parts(methods: Seq<(Method, bool)>, g: Seq<CellView>) -> spec_fn(int) -> Set<
    ActionView,
> {
    |k: int|
        if methods[k].1 {
            methods[k].0.helpful_applications(g, true)
        } else {
            Set::empty()
        }
}

/// Whether the method at `k` is the first of the list that is enabled and
/// proposes something for the grid.
pub open spec fn is_first_productive(methods: Seq<(Method, bool)>, g: Seq<CellView>, k: int) -> bool {
    &&& 0 <= k < methods.len()
    &&& step_parts(methods, g)(k) != Set::<ActionView>::empty()
    &&& forall|j: int| 0 <= j < k ==> #[trigger] step_parts(methods, g)(j) == Set::<ActionView>::empty()
}

/// What a step proposes: the actions of the first productive method where
/// `stop_after_first` is set, and those of all enabled methods where not.
pub open spec fn spec_take_step(
    methods: Seq<(Method, bool)>,
    g: Seq<CellView>,
    stop_after_first: bool,
) -> Set<ActionView> {
    if !stop_after_first {
        union_below(methods.len() as int, step_parts(methods, g))
    } else if exists|k: int| is_first_productive(methods, g, k) {
        step_parts(methods, g)(choose|k: int| is_first_productive(methods, g, k))
    } else {
        Set::empty()
    }
}

/// Where solving leads from a grid, and which actions are made on the way.
/// As long as the grid is unsolved and a step proposes anything, its
/// actions are made in their order. A step whose actions all change the
/// grid makes it lighter (see `lemma_step_weight`); the test for that
/// makes the definition well-founded.
pub open spec fn solved_from(methods: Seq<(Method, bool)>, g: Seq<CellView>) -> (
    Seq<CellView>,
    Set<ActionView>,
)
    decreases weight(g),
{
    let step = spec_take_step(methods, g, true);
    let next = apply_all(g, ordered(step));
    if spec_is_solved(g) || step == Set::<ActionView>::empty() {
        (g, Set::empty())
    } else if weight(next) < weight(g) {
        (solved_from(methods, next).0, step.union(solved_from(methods, next).1))
    } else {
        (g, Set::empty())
    }
}

/// A step that proposes actions, all of which change the grid, makes the grid lighter.
pub proof fn lemma_step_weight(g: Seq<CellView>, actions: Seq<ActionView>)
    requires
        g.len() == 81,
        actions.len() > 0,
        forall|i: int|
            0 <= i < actions.len() ==> (#[trigger] actions[i]).in_bounds() && actions[i].helpful(g),
    ensures
        apply_all(g, actions).len() == 81,
        weight(apply_all(g, actions)) < weight(g),
{
    lemma_apply_all_weight(g, actions);
    assert(actions[0].helpful(g));
}

/// In a solved grid no step proposes anything, whichever methods are
/// enabled, and solving leaves the grid as it is without an action.
pub proof fn lemma_solved_grid_is_final(methods: Seq<(Method, bool)>, g: Seq<CellView>)
    requires
        g.len() == 81,
        spec_is_solved(g),
    ensures
        spec_take_step(methods, g, true) == Set::<ActionView>::empty(),
        spec_take_step(methods, g, false) == Set::<ActionView>::empty(),
        solved_from(methods, g) == (g, Set::<ActionView>::empty()),
{
    let parts = step_parts(methods, g);
    assert forall|k: int| 0 <= k < methods.len() implies #[trigger] parts(k)
        == Set::<ActionView>::empty() by {
        lemma_solved_grid_has_no_applications(g, methods[k].0);
    }
    lemma_union_below_empty(methods.len() as int, parts);
    if exists|k: int| is_first_productive(methods, g, k) {
        let k = choose|k: int| is_first_productive(methods, g, k);
        assert(parts(k) == Set::<ActionView>::empty());
    }
}

/// The methods of the catalog in the order in which a solver tries them,
/// each with a mark that tells whether it is enabled.
#[derive(Debug, PartialEq, Eq)]
pub struct Solver {
    methods: Vec<(Method, bool)>,
}

impl View for Solver {
    type V = Seq<(Method, bool)>;

    closed spec fn view(&self) -> Seq<(Method, bool)> {
        self.methods@
    }
}

impl Clone for Solver {
    fn clone(&self) -> (res: Self)
        ensures
            res@ == self@,
    {
        let mut methods: Vec<(Method, bool)> = Vec::new();
        let mut i: usize = 0;
        while i < self.methods.len()
            invariant
                i <= self.methods@.len(),
                methods@ == self.methods@.take(i as int),
            decreases self.methods@.len() - i,
        {
            methods.push(self.methods[i]);
            i += 1;
            assert(methods@ =~= self.methods@.take(i as int));
        }
        assert(self.methods@.take(i as int) =~= self.methods@);
        Solver { methods }
    }
}

/// The catalog: every method, easiest first, all enabled.
pub open spec fn catalog() -> Seq<(Method, bool)> {
    seq![
        (Method::Naked(Naked::Single), true),
        (Method::Hidden(Hidden::Single), true),
        (Method::Naked(Naked::Pair), true),
        (Method::Naked(Naked::Triple), true),
        (Method::Hidden(Hidden::Pair), true),
        (Method::Hidden(Hidden::Triple), true),
        (Method::Naked(Naked::Quad), true),
        (Method::Hidden(Hidden::Quad), true),
        (Method::Pointing(Pointing::Pair), true),
        (Method::Pointing(Pointing::Triple), true),
        (Method::BoxLineReduction(BoxLineReduction::Pair), true),
        (Method::BoxLineReduction(BoxLineReduction::Triple), true),
        (Method::Fishes(Fishes::XWing), true),
        (Method::Fishes(Fishes::Swordfish), true),
        (Method::Fishes(Fishes::Jellyfish), true),
        (Method::SimpleColoring(SimpleColoring), true),
    ]
}

impl Solver {
    /// The solver with the whole catalog, every method enabled.
    pub fn all_methods() -> (res: Self)
        ensures
            res@ == catalog(),
    {
        let mut methods: Vec<(Method, bool)> = Vec::new();
        methods.push((Method::Naked(Naked::Single), true));
        methods.push((Method::Hidden(Hidden::Single), true));
        methods.push((Method::Naked(Naked::Pair), true));
        methods.push((Method::Naked(Naked::Triple), true));
        methods.push((Method::Hidden(Hidden::Pair), true));
        methods.push((Method::Hidden(Hidden::Triple), true));
        methods.push((Method::Naked(Naked::Quad), true));
        methods.push((Method::Hidden(Hidden::Quad), true));
        methods.push((Method::Pointing(Pointing::Pair), true));
        methods.push((Method::Pointing(Pointing::Triple), true));
        methods.push((Method::BoxLineReduction(BoxLineReduction::Pair), true));
        methods.push((Method::BoxLineReduction(BoxLineReduction::Triple), true));
        methods.push((Method::Fishes(Fishes::XWing), true));
        methods.push((Method::Fishes(Fishes::Swordfish), true));
        methods.push((Method::Fishes(Fishes::Jellyfish), true));
        methods.push((Method::SimpleColoring(SimpleColoring), true));
        assert(methods@ =~= catalog());
        Solver { methods }
    }

    /// Goes through the enabled methods in their order and collects the
    /// helpful actions that they propose, with their figures narrowed. With
    /// `stop_after_first` it returns what the first productive method proposes.
    pub fn take_step(&self, grid: &Grid, stop_after_first: bool) -> (res: ActionSet)
        ensures
            res@ == spec_take_step(self@, grid@, stop_after_first),
            forall|a: ActionView| res@.contains(a) ==> a.in_bounds() && a.helpful(grid@),
    {
        let mut applications = ActionSet::new();
        let ghost parts = step_parts(self@, grid@);
        let mut i: usize = 0;
        proof {
            lemma_union_below_none(parts);
        }
        while i < self.methods.len()
            invariant
                i <= self@.len(),
                parts == step_parts(self@, grid@),
                !stop_after_first ==> applications@ == union_below(i as int, parts),
                stop_after_first ==> applications@ == Set::<ActionView>::empty(),
                stop_after_first ==> forall|j: int|
                    0 <= j < i ==> #[trigger] parts(j) == Set::<ActionView>::empty(),
                forall|a: ActionView|
                    applications@.contains(a) ==> a.in_bounds() && a.helpful(grid@),
            decreases self@.len() - i,
        {
            proof {
                lemma_union_below_next(i as int, parts);
            }
            let (method, enabled) = self.methods[i];
            if enabled {
                let method_applications = method.get_all_helpful_applications(grid, true);
                assert(method_applications@ == parts(i as int));
                if !method_applications.is_empty() {
                    if stop_after_first {
                        proof {
                            assert(is_first_productive(self@, grid@, i as int));
                            let k = choose|k: int| is_first_productive(self@, grid@, k);
                            if k < i {
                                assert(parts(k) == Set::<ActionView>::empty());
                            }
                            if k > i {
                                assert(parts(i as int) == Set::<ActionView>::empty());
                            }
                        }
                        return method_applications;
                    }
                    applications.extend(method_applications);
                } else {
                    proof {
                        assert(applications@.union(parts(i as int)) =~= applications@);
                    }
                }
            } else {
                proof {
                    assert(applications@.union(parts(i as int)) =~= applications@);
                }
            }
            i += 1;
        }
        proof {
            if stop_after_first {
                if exists|k: int| is_first_productive(self@, grid@, k) {
                    let k = choose|k: int| is_first_productive(self@, grid@, k);
                    assert(parts(k) == Set::<ActionView>::empty());
                }
            }
        }
        applications
    }

    /// Takes step after step, each as far as its first productive method,
    /// and makes the actions of each step in their order, until the grid is
    /// solved or a step proposes nothing. Returns the actions made.
    pub fn try_solve(&self, grid: &mut Grid) -> (res: ActionSet)
        ensures
            final(grid).wf(),
            final(grid)@ == solved_from(self@, old(grid)@).0,
            res@ == solved_from(self@, old(grid)@).1,
            spec_is_solved(final(grid)@) || spec_take_step(self@, final(grid)@, true)
                == Set::<ActionView>::empty(),
            no_new_candidates(old(grid)@, final(grid)@),
            forall|q: int|
                0 <= q < 81 && (#[trigger] old(grid)@[q]) is Number ==> final(grid)@[q] == old(
                    grid,
                )@[q],
    {
        let mut steps_taken = ActionSet::new();
        let ghost start = grid@;
        let mut going = true;
        proof {
            use_type_invariant(&*grid);
            assert(steps_taken@.union(solved_from(self@, grid@).1) =~= solved_from(
                self@,
                start,
            ).1);
        }
        while going
            invariant
                grid.wf(),
                start.len() == 81,
                no_new_candidates(start, grid@),
                keeps_solved(start, grid@),
                solved_from(self@, grid@).0 == solved_from(self@, start).0,
                steps_taken@.union(solved_from(self@, grid@).1) == solved_from(self@, start).1,
                !going ==> spec_is_solved(grid@) || spec_take_step(self@, grid@, true)
                    == Set::<ActionView>::empty(),
            decreases weight(grid@), if going { 1int } else { 0int },
        {
            if grid.is_solved() {
                going = false;
            } else {
                let actions = self.take_step(grid, true);
                if actions.is_empty() {
                    going = false;
                } else {
                    let ghost before = grid@;
                    let ghost list = actions.seq();
                    proof {
                        use_type_invariant(&actions);
                        lemma_actions_unique(list, ordered(actions@));
                        assert forall|i: int| 0 <= i < list.len() implies (
                        #[trigger] list[i]).in_bounds() && list[i].helpful(before) by {
                            assert(list.contains(list[i]));
                            assert(actions@.contains(list[i]));
                        }
                        lemma_step_weight(before, list);
                    }
                    let mut i: usize = 0;
                    while i < actions.len()
                        invariant
                            i <= list.len(),
                            list == actions.seq(),
                            grid.wf(),
                            forall|i: int| 0 <= i < list.len() ==> (#[trigger] list[i]).in_bounds(),
                            grid@ == apply_all(before, list.take(i as int)),
                        decreases list.len() - i,
                    {
                        proof {
                            assert(list.take(i + 1).drop_last() =~= list.take(i as int));
                            assert(list.take(i + 1).last() == list[i as int]);
                        }
                        actions.get(i).apply_to_grid(grid);
                        i += 1;
                    }
                    proof {
                        assert(list.take(i as int) =~= list);
                        lemma_apply_all_no_new_candidates(before, list);
                        lemma_apply_all_keeps_solved(before, list);
                        let step = spec_take_step(self@, before, true);
                        let rest = solved_from(self@, grid@).1;
                        assert(steps_taken@.union(step).union(rest) =~= steps_taken@.union(
                            step.union(rest),
                        ));
                    }
                    steps_taken.extend(actions);
                }
            }
        }
        proof {
            assert(steps_taken@.union(Set::<ActionView>::empty()) =~= steps_taken@);
        }
        steps_taken
    }

    /// The methods in their order, each with the mark that tells whether it is enabled.
    pub fn methods(&self) -> (res: &Vec<(Method, bool)>)
        ensures
            res@ == self@,
    {
        &self.methods
    }

    /// Enables or disables the method at place `index`.
    pub fn set_state(&mut self, index: usize, state: bool)
        requires
            index < old(self)@.len(),
        ensures
            final(self)@ == old(self)@.update(index as int, (old(self)@[index as int].0, state)),
    {
        let method = self.methods[index].0;
        self.methods.set(index, (method, state));
    }

    /// Enables the method at place `index` if it is disabled, and disables it if it is enabled.
    pub fn toggle(&mut self, index: usize)
        requires
            index < old(self)@.len(),
        ensures
            final(self)@ == old(self)@.update(
                index as int,
                (old(self)@[index as int].0, !old(self)@[index as int].1),
            ),
    {
        let current_state = self.methods[index].1;
        self.set_state(index, !current_state);
    }
}

} // verus!
