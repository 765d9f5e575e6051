//! The edge table: the edges of a chart and, for every source state, its
//! outgoing edges in priority order.
use crate::guards::{Guard, Guards};
use vstd::prelude::*;

verus! {

/// Whether a transition leaves and re-enters the state it is defined on.
#[derive(Clone, Copy, Debug, PartialEq, Eq, Structural)]
pub enum EdgeKind {
    /// A transition that stays at or returns to its source exits and
    /// re-enters the source.
    External,
    /// A transition inside its source leaves the source's own boundary alone.
    Internal,
}

impl Default for EdgeKind {
    fn default() -> (k: EdgeKind)
        ensures
            k == EdgeKind::External,
    {
        EdgeKind::External
    }
}

/// What makes an edge fire.
#[derive(Clone, Copy, Debug, PartialEq, Eq, Structural)]
pub enum Trigger {
    /// The edge is tried when its source is entered.
    Always,
    /// The edge is tried when an event of this type arrives.
    OnEvent(u64),
}

/// A delay: the edge fires only after this time, in nanoseconds, has passed
/// while its source stays active.
#[derive(Clone, Copy, Debug, PartialEq, Eq, Structural)]
pub struct After {
    /// The delay in nanoseconds.
    pub duration: u64,
}

impl After {
    /// A delay of `duration` nanoseconds.
    pub fn new(duration: u64) -> (a: After)
        ensures
            a.duration == duration,
    {
        After { duration }
    }
}

/// Which subtrees a transition resets when its actions run.
#[derive(Clone, Copy, Debug, PartialEq, Eq, Structural)]
pub enum ResetScope {
    /// The source and everything below it.
    Source,
    /// The target and everything below it.
    Target,
    /// Both subtrees.
    Both,
}

impl Default for ResetScope {
    fn default() -> (s: ResetScope)
        ensures
            s == ResetScope::Source,
    {
        ResetScope::Source
    }
}

/// Marks an edge whose transition resets subtrees.
#[derive(Clone, Copy, Debug, PartialEq, Eq, Structural)]
pub struct ResetEdge(pub ResetScope);

/// One edge of a chart.
pub struct Edge {
    /// The state that the edge leaves from.
    pub source: usize,
    /// The state that the edge leads to. An edge without a target never fires.
    pub target: Option<usize>,
    /// External or internal.
    pub kind: EdgeKind,
    /// What makes the edge fire.
    pub trigger: Trigger,
    /// The delay, if the edge is delayed.
    pub after: Option<After>,
    /// The guards that block the edge at present.
    pub guards: Guards,
    /// Whether the edge's transition resets subtrees.
    pub reset: Option<ResetEdge>,
}

impl Edge {
    /// An external, undelayed, unguarded edge from `source` to `target`.
    pub fn new(source: usize, target: Option<usize>, trigger: Trigger) -> (e: Edge)
        ensures
            e.source == source,
            e.target == target,
            e.kind == EdgeKind::External,
            e.trigger == trigger,
            e.after is None,
            e.guards@ == Set::<Seq<char>>::empty(),
            e.reset is None,
    {
        Edge {
            source,
            target,
            kind: EdgeKind::External,
            trigger,
            after: None,
            guards: Guards::new(),
            reset: None,
        }
    }

}

/// What an edge holds.
pub struct EdgeView {
    /// The state that the edge leaves from.
    pub source: usize,
    /// The state that the edge leads to.
    pub target: Option<usize>,
    /// External or internal.
    pub kind: EdgeKind,
    /// What makes the edge fire.
    pub trigger: Trigger,
    /// The delay, if the edge is delayed.
    pub after: Option<After>,
    /// The names of the guards that block the edge.
    pub guards: Set<Seq<char>>,
    /// Whether the edge's transition resets subtrees.
    pub reset: Option<ResetEdge>,
}

impl EdgeView {
    /// The edge can be taken: no guard blocks it and it has a target.
    pub open spec fn valid(self) -> bool {
        self.guards == Set::<Seq<char>>::empty() && self.target is Some
    }
}

impl View for Edge {
    type V = EdgeView;

    open spec fn view(&self) -> EdgeView {
        EdgeView {
            source: self.source,
            target: self.target,
            kind: self.kind,
            trigger: self.trigger,
            after: self.after,
            guards: self.guards@,
            reset: self.reset,
        }
    }
}

/// What an edge table holds: the edges by index and, by source state, the
/// indices of its outgoing edges in priority order.
pub struct EdgeTableView {
    /// The edges, by index.
    pub edges: Seq<EdgeView>,
    /// The outgoing edges of each state, highest priority first.
    pub lists: Seq<Seq<usize>>,
}

/// The edges of a chart.
pub struct EdgeTable {
    edges: Vec<Edge>,
    lists: Vec<Vec<usize>>,
}

/// The edge with index `e`, if there is one.
pub open spec fn edge_at(t: EdgeTableView, e: usize) -> Option<EdgeView> {
    if e < t.edges.len() {
        Some(t.edges[e as int])
    } else {
        None
    }
}

/// The outgoing edges of state `s` in priority order.
pub open spec fn listed(t: EdgeTableView, s: usize) -> Seq<usize> {
    if s < t.lists.len() {
        t.lists[s as int]
    } else {
        Seq::empty()
    }
}

/// The table in which edge `e` has the guards `guards` (the same table when
/// there is no such edge).
pub open spec fn with_guards(t: EdgeTableView, e: usize, guards: Set<Seq<char>>) -> EdgeTableView {
    if e < t.edges.len() {
        EdgeTableView {
            edges: t.edges.update(e as int, EdgeView { guards, ..t.edges[e as int] }),
            lists: t.lists,
        }
    } else {
        t
    }
}

/// The table in which edge `e` has the target `target` (the same table when
/// there is no such edge).
pub open spec fn with_target(t: EdgeTableView, e: usize, target: Option<usize>) -> EdgeTableView {
    if e < t.edges.len() {
        EdgeTableView {
            edges: t.edges.update(e as int, EdgeView { target, ..t.edges[e as int] }),
            lists: t.lists,
        }
    } else {
        t
    }
}

impl View for EdgeTable {
    type V = EdgeTableView;

    closed spec fn view(&self) -> EdgeTableView {
        EdgeTableView {
            edges: self.edges@.map_values(|e: Edge| e@),
            lists: self.lists@.map_values(|l: Vec<usize>| l@),
        }
    }
}

impl EdgeTable {
    /// A table without edges.
    pub fn new() -> (t: EdgeTable)
        ensures
            t@.edges.len() == 0,
            t@.lists.len() == 0,
    {
        EdgeTable { edges: Vec::new(), lists: Vec::new() }
    }

    /// The number of edges.
    pub fn len(&self) -> (n: usize)
        ensures
            n == self@.edges.len(),
    {
        self.edges.len()
    }

    /// Adds `edge` with the lowest priority among the edges of its source and
    /// returns its index.
    pub fn add_edge(&mut self, edge: Edge) -> (id: usize)
        ensures
            id == old(self)@.edges.len(),
            final(self)@.edges == old(self)@.edges.push(edge@),
            listed(final(self)@, edge.source) == listed(old(self)@, edge.source).push(id),
            forall|s: usize|
                s != edge.source ==> #[trigger] listed(final(self)@, s) == listed(old(self)@, s),
    {
        let id = self.edges.len();
        let source = edge.source;
        while self.lists.len() <= source
            invariant
                self.edges@ == old(self).edges@,
                self@.edges == old(self)@.edges,
                forall|s: usize| #[trigger] listed(self@, s) == listed(old(self)@, s),
            decreases source + 1 - self.lists.len(),
        {
            let ghost before = self@;
            let ghost lists = self.lists@;
            self.lists.push(Vec::new());
            proof {
                assert forall|s: usize| #[trigger] listed(self@, s) == listed(before, s) by {
                    if s < lists.len() {
                        assert(self.lists@[s as int] == lists[s as int]);
                    } else if s == lists.len() {
                        assert(self.lists@[s as int]@ =~= Seq::<usize>::empty());
                    }
                }
            }
        }
        let ghost mid = self@;
        let ghost lists = self.lists@;
        self.edges.push(edge);
        self.lists[source].push(id);
        proof {
            assert(self.lists@.len() == lists.len());
            assert forall|s: usize| s != source implies #[trigger] listed(self@, s) == listed(
                old(self)@,
                s,
            ) by {
                assert(listed(mid, s) == listed(old(self)@, s));
                if s < lists.len() {
                    assert(self.lists@[s as int] == lists[s as int]);
                }
            }
            assert(listed(mid, source) == listed(old(self)@, source));
            assert(self.lists@[source as int]@ == lists[source as int]@.push(id));
            assert(self@.edges =~= old(self)@.edges.push(edge@));
        }
        id
    }

    /// The edge with index `e`, if there is one.
    pub fn get(&self, e: usize) -> (edge: Option<&Edge>)
        ensures
            match edge {
                Some(x) => edge_at(self@, e) == Some(x@),
                None => edge_at(self@, e) is None,
            },
    {
        if e < self.edges.len() {
            Some(&self.edges[e])
        } else {
            None
        }
    }

    /// The number of outgoing edges of state `s`.
    pub fn transition_count(&self, s: usize) -> (n: usize)
        ensures
            n == listed(self@, s).len(),
    {
        if s < self.lists.len() {
            self.lists[s].len()
        } else {
            0
        }
    }

    /// The outgoing edge of state `s` with priority `k` (0 is the highest),
    /// if the state has that many edges.
    pub fn transition(&self, s: usize, k: usize) -> (e: Option<usize>)
        ensures
            e == if k < listed(self@, s).len() {
                Some(listed(self@, s)[k as int])
            } else {
                None
            },
    {
        if s < self.lists.len() && k < self.lists[s].len() {
            Some(self.lists[s][k])
        } else {
            None
        }
    }

    pub(crate) fn edge_of(&self, s: usize, k: usize) -> (e: usize)
        requires
            k < listed(self@, s).len(),
        ensures
            e == listed(self@, s)[k as int],
    {
        self.lists[s][k]
    }

    /// Whether edge `e` is among the outgoing edges of state `s`.
    pub fn is_listed(&self, s: usize, e: usize) -> (b: bool)
        ensures
            b == listed(self@, s).contains(e),
    {
        let n = self.transition_count(s);
        let mut k: usize = 0;
        while k < n
            invariant
                n == listed(self@, s).len(),
                k <= n,
                forall|j: int| 0 <= j < k ==> listed(self@, s)[j] != e,
            decreases n - k,
        {
            if self.edge_of(s, k) == e {
                return true;
            }
            k = k + 1;
        }
        false
    }

    /// Adds `guard` to the guards of edge `e`. Returns whether there is such
    /// an edge; if not, nothing changes.
    pub fn add_guard<G: Guard>(&mut self, e: usize, guard: G) -> (done: bool)
        ensures
            done == (e < old(self)@.edges.len()),
            done ==> final(self)@ == with_guards(
                old(self)@,
                e,
                old(self)@.edges[e as int].guards.insert(guard.name_spec()),
            ),
            !done ==> final(self)@ == old(self)@,
    {
        if e >= self.edges.len() {
            return false;
        }
        self.edges[e].guards.add_guard(guard);
        proof {
            let want = with_guards(
                old(self)@,
                e,
                old(self)@.edges[e as int].guards.insert(guard.name_spec()),
            );
            assert(self@.edges =~= want.edges);
            assert(self@.lists =~= want.lists);
        }
        true
    }

    /// Removes `guard` from the guards of edge `e`. Returns whether there is
    /// such an edge; if not, nothing changes.
    pub fn remove_guard<G: Guard>(&mut self, e: usize, guard: G) -> (done: bool)
        ensures
            done == (e < old(self)@.edges.len()),
            done ==> final(self)@ == with_guards(
                old(self)@,
                e,
                old(self)@.edges[e as int].guards.remove(guard.name_spec()),
            ),
            !done ==> final(self)@ == old(self)@,
    {
        if e >= self.edges.len() {
            return false;
        }
        self.edges[e].guards.remove_guard(guard);
        proof {
            let want = with_guards(
                old(self)@,
                e,
                old(self)@.edges[e as int].guards.remove(guard.name_spec()),
            );
            assert(self@.edges =~= want.edges);
            assert(self@.lists =~= want.lists);
        }
        true
    }

    /// Replaces the guards of edge `e`. Returns whether there is such an
    /// edge; if not, nothing changes.
    pub fn set_guards(&mut self, e: usize, guards: Guards) -> (done: bool)
        ensures
            done == (e < old(self)@.edges.len()),
            final(self)@ == with_guards(old(self)@, e, guards@),
    {
        if e >= self.edges.len() {
            return false;
        }
        self.edges[e].guards = guards;
        proof {
            let want = with_guards(old(self)@, e, guards@);
            assert(self@.edges =~= want.edges);
            assert(self@.lists =~= want.lists);
        }
        true
    }

    /// Sets or removes the target of edge `e`. Returns whether there is such
    /// an edge; if not, nothing changes.
    pub fn set_target(&mut self, e: usize, target: Option<usize>) -> (done: bool)
        ensures
            done == (e < old(self)@.edges.len()),
            final(self)@ == with_target(old(self)@, e, target),
    {
        if e >= self.edges.len() {
            return false;
        }
        self.edges[e].target = target;
        proof {
            let want = with_target(old(self)@, e, target);
            assert(self@.edges =~= want.edges);
            assert(self@.lists =~= want.lists);
        }
        true
    }
}

} // verus!
