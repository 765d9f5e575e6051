//! Blockers: named conditions that keep a resting machine from being
//! entered.
use crate::sets::{
    name_members, name_set_contains, name_set_insert, name_set_is_empty, name_set_new,
    name_set_remove, NameSet,
};
use vstd::prelude::*;
use vstd::string::StringExecFns;

verus! {

/// Something that keeps a set of named blockers.
pub trait StateAggregator {
    /// The blockers, as sequences of characters.
    spec fn blockers(&self) -> Set<Seq<char>>;

    /// Adds a blocker.
    fn add_blocker(&mut self, blocker: &str)
        ensures
            final(self).blockers() == old(self).blockers().insert(blocker@),
    ;

    /// Removes a blocker.
    fn remove_blocker(&mut self, blocker: &str)
        ensures
            final(self).blockers() == old(self).blockers().remove(blocker@),
    ;

    /// Whether there is any blocker.
    fn is_blocked(&self) -> (b: bool)
        ensures
            b == (self.blockers() != Set::<Seq<char>>::empty()),
    ;

    /// Whether `blocker` is among the blockers.
    fn is_blocked_by(&self, blocker: &str) -> (b: bool)
        ensures
            b == self.blockers().contains(blocker@),
    ;

    /// The blockers.
    fn get_blockers(&self) -> (s: &NameSet)
        ensures
            name_members(*s) == self.blockers(),
    ;
}

/// A machine that rests: it is ready to be entered unless something blocks
/// it.
pub struct RestingState {
    blockers: NameSet,
}

impl RestingState {
    /// A resting state without blockers.
    pub fn new() -> (r: RestingState)
        ensures
            r.blockers() == Set::<Seq<char>>::empty(),
    {
        RestingState { blockers: name_set_new() }
    }
}

impl StateAggregator for RestingState {
    closed spec fn blockers(&self) -> Set<Seq<char>> {
        name_members(self.blockers)
    }

    fn add_blocker(&mut self, blocker: &str) {
        let _ = name_set_insert(&mut self.blockers, String::from_str(blocker));
    }

    fn remove_blocker(&mut self, blocker: &str) {
        let _ = name_set_remove(&mut self.blockers, blocker);
    }

    fn is_blocked(&self) -> (b: bool) {
        !name_set_is_empty(&self.blockers)
    }

    fn is_blocked_by(&self, blocker: &str) -> (b: bool) {
        name_set_contains(&self.blockers, blocker)
    }

    fn get_blockers(&self) -> (s: &NameSet) {
        &self.blockers
    }
}

} // verus!
