use vstd::prelude::*;
use vstd::std_specs::convert::FromSpecImpl;

use crate::action::{
    action_before, lemma_action_irreflexive, lemma_action_transitive, Action, ActionView,
};
use crate::order::Rank;
use crate::sequences::lemma_insert_to_set;

verus! {

/// A list of actions in strictly ascending order.
pub open spec fn actions_ascending(s: Seq<ActionView>) -> bool {
    forall|i: int, j: int| 0 <= i < j < s.len() ==> action_before(s[i], s[j])
}

/// Two ascending lists of actions with the same members are the same list.
pub proof fn lemma_actions_unique(a: Seq<ActionView>, b: Seq<ActionView>)
    requires
        actions_ascending(a),
        actions_ascending(b),
        a.to_set() == b.to_set(),
    ensures
        a == b,
    decreases a.len(),
{
    if a.len() == 0 {
        if b.len() > 0 {
            assert(b.to_set().contains(b[0]));
            assert(a.contains(b[0]));
        }
        assert(a =~= b);
    } else {
        assert(a.to_set().contains(a[0]));
        assert(b.contains(a[0]));
        let ib = choose|i: int| 0 <= i < b.len() && b[i] == a[0];
        assert(b.to_set().contains(b[0]));
        assert(a.contains(b[0]));
        let ia = choose|i: int| 0 <= i < a.len() && a[i] == b[0];
        if ia > 0 && ib > 0 {
            lemma_action_transitive(a[0], a[ia], b[ib]);
            lemma_action_irreflexive(a[0]);
        }
        if ia > 0 {
            lemma_action_irreflexive(a[0]);
        }
        if ib > 0 {
            lemma_action_irreflexive(b[0]);
        }
        assert(a[0] == b[0]);
        let a1 = a.skip(1);
        let b1 = b.skip(1);
        assert forall|x: ActionView| a1.to_set().contains(x) == b1.to_set().contains(x) by {
            if a1.contains(x) {
                let i = choose|i: int| 0 <= i < a1.len() && a1[i] == x;
                assert(a[i + 1] == x);
                assert(a.contains(x));
                assert(b.to_set().contains(x));
                let j = choose|j: int| 0 <= j < b.len() && b[j] == x;
                if j == 0 {
                    lemma_action_irreflexive(x);
                }
                assert(b1[j - 1] == x);
            }
            if b1.contains(x) {
                let i = choose|i: int| 0 <= i < b1.len() && b1[i] == x;
                assert(b[i + 1] == x);
                assert(b.contains(x));
                assert(a.to_set().contains(x));
                let j = choose|j: int| 0 <= j < a.len() && a[j] == x;
                if j == 0 {
                    lemma_action_irreflexive(x);
                }
                assert(a1[j - 1] == x);
            }
        }
        assert(a1.to_set() =~= b1.to_set());
        lemma_actions_unique(a1, b1);
        assert(a =~= seq![a[0]] + a1);
        assert(b =~= seq![b[0]] + b1);
    }
}

/// The views of a list of actions, in its order.
pub open spec fn views(items: Seq<Action>) -> Seq<ActionView> {
    items.map_values(|a: Action| a@)
}

/// Puts `action` at its place in an ascending list, unless the list holds it.
fn put(items: &mut Vec<Action>, action: Action)
    requires
        actions_ascending(views(old(items)@)),
    ensures
        actions_ascending(views(final(items)@)),
        views(final(items)@).to_set() == views(old(items)@).to_set().insert(action@),
{
    let ghost before = views(items@);
    let mut i: usize = 0;
    let mut stop = false;
    let mut present = false;
    while i < items.len() && !stop
        invariant
            i <= items@.len(),
            items@ == old(items)@,
            before == views(items@),
            forall|k: int| 0 <= k < i ==> action_before(before[k], action@),
            stop ==> i < items@.len(),
            stop && present ==> before[i as int] == action@,
            stop && !present ==> action_before(action@, before[i as int]),
            present ==> stop,
        decreases items@.len() - i + if stop { 0int } else { 1int },
    {
        match items[i].rank(&action) {
            Rank::Before => {
                i += 1;
            },
            Rank::Same => {
                stop = true;
                present = true;
            },
            Rank::After => {
                stop = true;
            },
        }
    }
    if present {
        proof {
            assert(before.contains(before[i as int]));
            assert(before.to_set().insert(action@) =~= before.to_set());
        }
    } else {
        items.insert(i, action);
        proof {
            let after = views(items@);
            assert(after =~= before.insert(i as int, action@));
            lemma_insert_to_set(before, i as int, action@);
            assert forall|x: int, y: int| 0 <= x < y < after.len() implies action_before(
                after[x],
                after[y],
            ) by {
                if y == i as int {
                    assert(after[x] == before[x]);
                } else if x == i as int {
                    assert(after[y] == before[y - 1]);
                    if y - 1 > i {
                        lemma_action_transitive(action@, before[i as int], before[y - 1]);
                    }
                } else if x < i && y > i {
                    assert(after[x] == before[x]);
                    assert(after[y] == before[y - 1]);
                } else if x < i {
                    assert(after[x] == before[x]);
                    assert(after[y] == before[y]);
                } else {
                    assert(after[x] == before[x - 1]);
                    assert(after[y] == before[y - 1]);
                }
            }
        }
    }
}

/// Puts each of `rest` at its place in an ascending list, unless the list holds it.
fn put_all(items: &mut Vec<Action>, rest: Vec<Action>)
    requires
        actions_ascending(views(old(items)@)),
    ensures
        actions_ascending(views(final(items)@)),
        views(final(items)@).to_set() == views(old(items)@).to_set().union(
            views(rest@).to_set(),
        ),
{
    let mut rest = rest;
    let ghost all = views(old(items)@).to_set().union(views(rest@).to_set());
    while rest.len() > 0
        invariant
            actions_ascending(views(items@)),
            views(items@).to_set().union(views(rest@).to_set()) == all,
        decreases rest@.len(),
    {
        let ghost before_rest = views(rest@);
        let ghost before_items = views(items@);
        let action = rest.pop().unwrap();
        proof {
            assert(before_rest =~= views(rest@).push(action@));
            views(rest@).lemma_push_to_set_commute(action@);
        }
        put(items, action);
        proof {
            assert(views(items@).to_set().union(views(rest@).to_set())
                =~= before_items.to_set().union(before_rest.to_set()));
        }
    }
    proof {
        assert(views(rest@) =~= Seq::<ActionView>::empty());
        assert(views(items@).to_set().union(views(rest@).to_set()) =~= views(items@).to_set());
    }
}

/// A set of actions, kept in the order of the actions without repetition.
#[derive(Debug, PartialEq, Eq)]
pub struct ActionSet {
    items: Vec<Action>,
}

impl View for ActionSet {
    type V = Set<ActionView>;

    open spec fn view(&self) -> Set<ActionView> {
        self.seq().to_set()
    }
}

impl Clone for ActionSet {
    fn clone(&self) -> (res: Self)
        ensures
            res.seq() == self.seq(),
            res@ == self@,
    {
        proof {
            use_type_invariant(self);
        }
        let mut items: Vec<Action> = Vec::new();
        let mut i: usize = 0;
        while i < self.items.len()
            invariant
                i <= self.items@.len(),
                items@.len() == i,
                forall|k: int| 0 <= k < i ==> items@[k]@ == self.items@[k]@,
            decreases self.items@.len() - i,
        {
            items.push(self.items[i].clone());
            i += 1;
        }
        assert(views(items@) =~= views(self.items@));
        ActionSet { items }
    }
}

impl ActionSet {
    /// The actions of the set in ascending order.
    pub closed spec fn seq(&self) -> Seq<ActionView> {
        views(self.items@)
    }

    /// The invariant of every set of actions: its list ascends strictly.
    #[verifier::type_invariant]
    pub open spec fn wf(&self) -> bool {
        actions_ascending(self.seq())
    }

    /// The empty set.
    pub fn new() -> (res: ActionSet)
        ensures
            res.wf(),
            res.seq() == Seq::<ActionView>::empty(),
            res@ == Set::<ActionView>::empty(),
    {
        let res = ActionSet { items: Vec::new() };
        assert(res.seq() =~= Seq::<ActionView>::empty());
        assert(res@ =~= Set::<ActionView>::empty());
        res
    }

    /// Adds an action to the set.
    pub fn insert(&mut self, action: Action)
        ensures
            final(self).wf(),
            final(self)@ == old(self)@.insert(action@),
    {
        proof {
            use_type_invariant(&*self);
        }
        let mut taken = ActionSet::new();
        core::mem::swap(self, &mut taken);
        let mut items = taken.items;
        put(&mut items, action);
        *self = ActionSet { items };
    }

    /// Adds every action of `other` to the set.
    pub fn extend(&mut self, other: ActionSet)
        ensures
            final(self).wf(),
            final(self)@ == old(self)@.union(other@),
    {
        proof {
            use_type_invariant(&*self);
            use_type_invariant(&other);
        }
        let mut taken = ActionSet::new();
        core::mem::swap(self, &mut taken);
        let mut items = taken.items;
        put_all(&mut items, other.items);
        *self = ActionSet { items };
    }

    /// The number of actions in the set.
    pub fn len(&self) -> (res: usize)
        ensures
            res == self.seq().len(),
    {
        self.items.len()
    }

    /// Whether the set holds no action.
    pub fn is_empty(&self) -> (res: bool)
        ensures
            res == (self.seq().len() == 0),
            res == (self@ == Set::<ActionView>::empty()),
    {
        proof {
            if self.seq().len() > 0 {
                assert(self.seq().contains(self.seq()[0]));
                assert(self@.contains(self.seq()[0]));
            } else {
                assert(self@ =~= Set::<ActionView>::empty());
            }
        }
        self.items.len() == 0
    }

    /// The action at place `index` of the ascending order.
    pub fn get(&self, index: usize) -> (res: &Action)
        requires
            index < self.seq().len(),
        ensures
            res@ == self.seq()[index as int],
    {
        &self.items[index]
    }
}

/// The set of a list is stated by the contract of `from`; no set-valued
/// function stands for it.
impl FromSpecImpl<Vec<Action>> for ActionSet {
    open spec fn obeys_from_spec() -> bool {
        false
    }

    open spec fn from_spec(v: Vec<Action>) -> ActionSet {
        arbitrary()
    }
}

impl From<Vec<Action>> for ActionSet {
    /// The set of the actions that `value` lists, in any order and with repetitions.
    fn from(value: Vec<Action>) -> (res: ActionSet)
        ensures
            res.wf(),
            res@ == views(value@).to_set(),
    {
        let mut items: Vec<Action> = Vec::new();
        assert(views(items@).to_set() =~= Set::<ActionView>::empty());
        put_all(&mut items, value);
        ActionSet { items }
    }
}

} // verus!
