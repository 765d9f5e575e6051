//! The machine record: which states of a chart are active.
use crate::graph::{path_to_root, StateNode};
use crate::sets::{id_members, id_set_contains, id_set_insert, id_set_new, IdSet};
use vstd::prelude::*;

verus! {

/// The active states of one machine.
///
/// `active_leaves` holds the innermost active states, more than one when
/// parallel regions are active. `active` holds them, everything above them and
/// the root.
pub struct StateMachine {
    /// The root state of the machine.
    pub root: usize,
    /// Every active state.
    pub active: IdSet,
    /// The active states that have no active state below them.
    pub active_leaves: IdSet,
}

/// The states in `leaves` and all their ancestors.
pub open spec fn closure(g: Seq<StateNode>, leaves: Set<usize>) -> Set<usize> {
    Set::new(
        |x: usize| exists|l: usize| leaves.contains(l) && #[trigger] path_to_root(g, l).contains(x),
    )
}

impl StateMachine {
    /// The set of all active states.
    pub open spec fn active_set(&self) -> Set<usize> {
        id_members(self.active)
    }

    /// The set of active leaves.
    pub open spec fn leaf_set(&self) -> Set<usize> {
        id_members(self.active_leaves)
    }

    /// The closure invariant: the active states are exactly the root, the
    /// active leaves and the ancestors of the active leaves.
    pub open spec fn closed_over(&self, g: Seq<StateNode>) -> bool {
        self.active_set() == closure(g, self.leaf_set()).insert(self.root)
    }

    /// A machine for the chart rooted at `root`: the root is active and there
    /// is no active leaf yet.
    pub fn new(root: usize) -> (m: StateMachine)
        ensures
            m.root == root,
            m.active_set() == Set::<usize>::empty().insert(root),
            m.leaf_set() == Set::<usize>::empty(),
            forall|g: Seq<StateNode>| m.closed_over(g),
    {
        let mut active = id_set_new();
        let _ = id_set_insert(&mut active, root);
        let m = StateMachine { root, active, active_leaves: id_set_new() };
        proof {
            assert forall|g: Seq<StateNode>| m.closed_over(g) by {
                assert(closure(g, m.leaf_set()) =~= Set::<usize>::empty());
            }
        }
        m
    }

    /// Records `entity` as active.
    pub fn insert(&mut self, entity: usize)
        ensures
            final(self).active_set() == old(self).active_set().insert(entity),
            final(self).leaf_set() == old(self).leaf_set(),
            final(self).root == old(self).root,
    {
        let _ = id_set_insert(&mut self.active, entity);
    }

    /// Records `entity` as an active leaf.
    pub fn insert_leaf(&mut self, entity: usize)
        ensures
            final(self).leaf_set() == old(self).leaf_set().insert(entity),
            final(self).active_set() == old(self).active_set(),
            final(self).root == old(self).root,
    {
        let _ = id_set_insert(&mut self.active_leaves, entity);
    }

    /// Whether `entity` is active.
    pub fn is_active(&self, entity: &usize) -> (b: bool)
        ensures
            b == self.active_set().contains(*entity),
    {
        id_set_contains(&self.active, *entity)
    }

    /// Whether `entity` is an active leaf.
    pub fn is_leaf_active(&self, entity: &usize) -> (b: bool)
        ensures
            b == self.leaf_set().contains(*entity),
    {
        id_set_contains(&self.active_leaves, *entity)
    }
}

} // verus!
