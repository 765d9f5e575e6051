//! Guard sets: the named conditions that block an edge.
use crate::sets::{
    name_members, name_set_contains, name_set_insert, name_set_is_empty, name_set_new,
    name_set_remove, NameSet,
};
use vstd::prelude::*;
use vstd::string::StringExecFns;

verus! {

/// Something that can block an edge, identified by its name.
pub trait Guard {
    /// The name, as a sequence of characters.
    spec fn name_spec(&self) -> Seq<char>;

    /// The name that identifies this guard.
    fn name(&self) -> (n: String)
        ensures
            n@ == self.name_spec(),
    ;
}

impl Guard for String {
    open spec fn name_spec(&self) -> Seq<char> {
        self@
    }

    fn name(&self) -> (n: String) {
        self.clone()
    }
}

impl<'a> Guard for &'a str {
    open spec fn name_spec(&self) -> Seq<char> {
        self@
    }

    fn name(&self) -> (n: String) {
        String::from_str(*self)
    }
}

/// The guards of an edge. The edge may fire only while the set is empty.
pub struct Guards {
    /// The names of the guards that block the edge at present.
    pub guards: NameSet,
}

impl View for Guards {
    type V = Set<Seq<char>>;

    open spec fn view(&self) -> Set<Seq<char>> {
        name_members(self.guards)
    }
}

/// The names of a sequence of guards.
pub open spec fn names_of<G: Guard>(guards: Seq<G>) -> Set<Seq<char>> {
    Set::new(|n: Seq<char>| exists|i: int| 0 <= i < guards.len() && #[trigger] guards[i].name_spec() == n)
}

impl Guards {
    /// No guards: the edge is free.
    pub fn new() -> (g: Guards)
        ensures
            g@ == Set::<Seq<char>>::empty(),
    {
        Guards { guards: name_set_new() }
    }

    /// The set of the given guards.
    pub fn init<G: Guard>(guards: Vec<G>) -> (g: Guards)
        ensures
            g@ == names_of(guards@),
    {
        let mut set = name_set_new();
        let mut i: usize = 0;
        proof {
            assert(names_of(guards@.take(0)) =~= Set::<Seq<char>>::empty());
        }
        while i < guards.len()
            invariant
                i <= guards.len(),
                name_members(set) == names_of(guards@.take(i as int)),
            decreases guards.len() - i,
        {
            let n = guards[i].name();
            let _ = name_set_insert(&mut set, n);
            proof {
                let t0 = guards@.take(i as int);
                let t1 = guards@.take(i + 1);
                assert forall|x: Seq<char>| names_of(t1).contains(x) <==> names_of(t0).insert(
                    n@,
                ).contains(x) by {
                    if names_of(t1).contains(x) {
                        let k = choose|k: int| 0 <= k < t1.len() && #[trigger] t1[k].name_spec() == x;
                        if k < i {
                            assert(t0[k].name_spec() == x);
                        }
                    }
                    if names_of(t0).contains(x) {
                        let k = choose|k: int| 0 <= k < t0.len() && #[trigger] t0[k].name_spec() == x;
                        assert(t1[k].name_spec() == x);
                    }
                    if x == n@ {
                        assert(t1[i as int].name_spec() == x);
                    }
                }
                assert(names_of(t1) =~= names_of(t0).insert(n@));
            }
            i = i + 1;
        }
        proof {
            assert(guards@.take(guards@.len() as int) == guards@);
        }
        Guards { guards: set }
    }

    /// Whether `guard` is in the set.
    pub fn has_guard<G: Guard>(&self, guard: G) -> (b: bool)
        ensures
            b == self@.contains(guard.name_spec()),
    {
        let n = guard.name();
        name_set_contains(&self.guards, n.as_str())
    }

    /// Adds `guard` to the set.
    pub fn add_guard<G: Guard>(&mut self, guard: G)
        ensures
            final(self)@ == old(self)@.insert(guard.name_spec()),
    {
        let _ = name_set_insert(&mut self.guards, guard.name());
    }

    /// Removes `guard` from the set.
    pub fn remove_guard<G: Guard>(&mut self, guard: G)
        ensures
            final(self)@ == old(self)@.remove(guard.name_spec()),
    {
        let n = guard.name();
        let _ = name_set_remove(&mut self.guards, n.as_str());
    }

    /// Whether the edge is free: no guard is in the set.
    pub fn check(&self) -> (free: bool)
        ensures
            free == (self@ == Set::<Seq<char>>::empty()),
    {
        name_set_is_empty(&self.guards)
    }
}

} // verus!
