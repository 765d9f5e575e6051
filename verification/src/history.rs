//! The history store: what each history state remembered at its last exit.
use crate::graph::{
    ancestors, graph_wf, history_of, is_ancestor, is_descendant_or_self, lemma_ancestors_smaller,
    node_wf, parent_of, History, StateGraph, StateNode,
};
use crate::sets::{id_members, id_set_contains, id_set_insert, id_set_new, IdSet};
use vstd::prelude::*;

verus! {

/// The states that a history state remembered when it was last exited.
pub struct HistoryState(pub IdSet);

impl View for HistoryState {
    type V = Set<usize>;

    open spec fn view(&self) -> Set<usize> {
        id_members(self.0)
    }
}

/// The snapshots of a chart, by state.
pub struct HistoryStore {
    snapshots: Vec<Option<HistoryState>>,
}

/// The snapshot of state `node`, if one is stored.
pub open spec fn snapshot_of(h: Map<usize, Set<usize>>, node: usize) -> Option<Set<usize>> {
    if h.dom().contains(node) {
        Some(h[node])
    } else {
        None
    }
}

/// What a shallow history state remembers: its children with an active leaf
/// at or below them.
pub open spec fn shallow_snapshot(g: Seq<StateNode>, leaves: Set<usize>, e: usize) -> Set<usize> {
    Set::new(
        |c: usize|
            parent_of(g, c) == Some(e) && exists|l: usize|
                leaves.contains(l) && #[trigger] is_descendant_or_self(g, l, c),
    )
}

/// What a deep history state remembers: the active leaves at or below it.
pub open spec fn deep_snapshot(g: Seq<StateNode>, leaves: Set<usize>, e: usize) -> Set<usize> {
    Set::new(|l: usize| l < g.len() && leaves.contains(l) && is_descendant_or_self(g, l, e))
}

/// What a history state of the given mode remembers.
pub open spec fn snapshot(g: Seq<StateNode>, mode: History, leaves: Set<usize>, e: usize) -> Set<
    usize,
> {
    match mode {
        History::Shallow => shallow_snapshot(g, leaves, e),
        History::Deep => deep_snapshot(g, leaves, e),
    }
}

/// The snapshots after the states of `exits` were exited while `leaves` were
/// the active leaves: each exited history state holds a fresh snapshot, all
/// other snapshots stay.
pub open spec fn history_after(
    g: Seq<StateNode>,
    h: Map<usize, Set<usize>>,
    leaves: Set<usize>,
    exits: Seq<usize>,
) -> Map<usize, Set<usize>> {
    Map::new(
        |e: usize| h.dom().contains(e) || (exits.contains(e) && history_of(g, e) is Some),
        |e: usize|
            if exits.contains(e) && history_of(g, e) is Some {
                snapshot(g, history_of(g, e)->0, leaves, e)
            } else {
                h[e]
            },
    )
}

/// Every snapshot remembers states at or below its history state.
pub open spec fn history_wf(g: Seq<StateNode>, h: Map<usize, Set<usize>>) -> bool {
    forall|node: usize, s: usize|
        h.dom().contains(node) && #[trigger] h[node].contains(s) && s < g.len()
            ==> is_descendant_or_self(g, s, node)
}

/// A child lies below its parent.
pub proof fn lemma_child_below(g: Seq<StateNode>, c: usize, e: usize)
    requires
        graph_wf(g),
        parent_of(g, c) == Some(e),
    ensures
        is_ancestor(g, e, c),
{
    assert(node_wf(g, c));
    assert(ancestors(g, c) == seq![e] + ancestors(g, e));
    assert(ancestors(g, c)[0] == e);
}

/// The snapshots that a transition stores remember states at or below
/// their history states.
pub proof fn lemma_history_stays_wf(
    g: Seq<StateNode>,
    h: Map<usize, Set<usize>>,
    leaves: Set<usize>,
    exits: Seq<usize>,
)
    requires
        graph_wf(g),
        history_wf(g, h),
    ensures
        history_wf(g, history_after(g, h, leaves, exits)),
{
    let h2 = history_after(g, h, leaves, exits);
    assert forall|node: usize, s: usize|
        h2.dom().contains(node) && #[trigger] h2[node].contains(s) && s < g.len()
            implies is_descendant_or_self(g, s, node) by {
        if exits.contains(node) && history_of(g, node) is Some {
            match history_of(g, node)->0 {
                History::Shallow => {
                    lemma_child_below(g, s, node);
                },
                History::Deep => {},
            }
        } else {
            assert(h[node].contains(s));
        }
    }
}

impl View for HistoryStore {
    type V = Map<usize, Set<usize>>;

    closed spec fn view(&self) -> Map<usize, Set<usize>> {
        Map::new(
            |i: usize| i < self.snapshots@.len() && self.snapshots@[i as int] is Some,
            |i: usize| self.snapshots@[i as int]->0@,
        )
    }
}

impl HistoryStore {
    /// A store without snapshots.
    pub fn new() -> (h: HistoryStore)
        ensures
            h@ == Map::<usize, Set<usize>>::empty(),
    {
        let h = HistoryStore { snapshots: Vec::new() };
        proof {
            assert(h@ =~= Map::<usize, Set<usize>>::empty());
        }
        h
    }

    /// The snapshot of state `node`, if one is stored.
    pub fn get(&self, node: usize) -> (s: Option<&HistoryState>)
        ensures
            match s {
                Some(hs) => snapshot_of(self@, node) == Some(hs@),
                None => snapshot_of(self@, node) is None,
            },
    {
        if node < self.snapshots.len() {
            self.snapshots[node].as_ref()
        } else {
            None
        }
    }

    /// Stores `snapshot` for state `node`, in place of an earlier one.
    pub fn save(&mut self, node: usize, snapshot: HistoryState)
        ensures
            final(self)@ == old(self)@.insert(node, snapshot@),
    {
        while self.snapshots.len() <= node
            invariant
                self@ == old(self)@,
            decreases node + 1 - self.snapshots.len(),
        {
            let ghost before = self@;
            self.snapshots.push(None);
            proof {
                assert(self@ =~= before);
            }
        }
        self.snapshots.set(node, Some(snapshot));
        proof {
            assert(self@ =~= old(self)@.insert(node, snapshot@));
        }
    }

    /// Forgets every snapshot.
    pub fn clear(&mut self)
        ensures
            final(self)@ == Map::<usize, Set<usize>>::empty(),
    {
        self.snapshots = Vec::new();
        proof {
            assert(self@ =~= Map::<usize, Set<usize>>::empty());
        }
    }
}

/// The child of `e` on the way from `l` up to the root, if `l` lies below
/// `e`. There is at most one.
pub fn child_toward(graph: &StateGraph, l: usize, e: usize) -> (r: Option<usize>)
    ensures
        match r {
            Some(c) => {
                &&& parent_of(graph@, c) == Some(e)
                &&& is_descendant_or_self(graph@, l, c)
                &&& forall|c2: usize|
                    parent_of(graph@, c2) == Some(e) && #[trigger] is_descendant_or_self(
                        graph@,
                        l,
                        c2,
                    ) ==> c2 == c
            },
            None => forall|c2: usize|
                !(parent_of(graph@, c2) == Some(e) && #[trigger] is_descendant_or_self(
                    graph@,
                    l,
                    c2,
                )),
        },
{
    proof {
        use_type_invariant(graph);
    }
    let ghost g = graph@;
    let mut c: usize = l;
    loop
        invariant
            graph.wf(),
            g == graph@,
            is_descendant_or_self(g, l, c),
            forall|c2: usize|
                parent_of(g, c2) == Some(e) && #[trigger] is_descendant_or_self(g, l, c2)
                    ==> is_descendant_or_self(g, c, c2),
        decreases c,
    {
        match graph.parent(c) {
            Some(p) => {
                proof {
                    assert(node_wf(g, c));
                    assert(ancestors(g, c) == seq![p] + ancestors(g, p));
                    assert(ancestors(g, c)[0] == p);
                }
                if p == e {
                    proof {
                        assert forall|c2: usize|
                            parent_of(g, c2) == Some(e) && #[trigger] is_descendant_or_self(
                                g,
                                l,
                                c2,
                            ) implies c2 == c by {
                            assert(is_descendant_or_self(g, c, c2));
                            if c2 != c {
                                assert(node_wf(g, c2));
                                let k = choose|k: int|
                                    0 <= k < ancestors(g, c).len() && ancestors(g, c)[k] == c2;
                                if k > 0 {
                                    assert(ancestors(g, e)[k - 1] == c2);
                                    lemma_ancestors_smaller(g, e, c2);
                                }
                            }
                        }
                    }
                    return Some(c);
                }
                proof {
                    if c != l {
                        crate::graph::lemma_ancestor_transitive(g, p, c, l);
                    }
                    assert forall|c2: usize|
                        parent_of(g, c2) == Some(e) && #[trigger] is_descendant_or_self(
                            g,
                            l,
                            c2,
                        ) implies is_descendant_or_self(g, p, c2) by {
                        assert(is_descendant_or_self(g, c, c2));
                        if c2 != c {
                            let k = choose|k: int|
                                0 <= k < ancestors(g, c).len() && ancestors(g, c)[k] == c2;
                            if k > 0 {
                                assert(ancestors(g, p)[k - 1] == c2);
                            }
                        }
                    }
                }
                c = p;
            },
            None => {
                proof {
                    assert(ancestors(g, c).len() == 0);
                    assert forall|c2: usize|
                        !(parent_of(g, c2) == Some(e) && #[trigger] is_descendant_or_self(
                            g,
                            l,
                            c2,
                        )) by {
                        if parent_of(g, c2) == Some(e) && is_descendant_or_self(g, l, c2) {
                            assert(is_descendant_or_self(g, c, c2));
                        }
                    }
                }
                return None;
            },
        }
    }
}

/// What the shallow history state `e` remembers while `leaves` are active.
pub fn take_shallow_snapshot(graph: &StateGraph, leaves: &IdSet, e: usize) -> (saved: IdSet)
    ensures
        id_members(saved) == shallow_snapshot(graph@, id_members(*leaves), e),
{
    proof {
        use_type_invariant(graph);
    }
    let n = graph.len();
    let ghost g = graph@;
    let ghost active = id_members(*leaves);
    let mut saved = id_set_new();
    let mut l: usize = 0;
    proof {
        assert(id_members(saved) =~= Set::new(
            |c: usize|
                parent_of(g, c) == Some(e) && exists|x: usize|
                    x < 0 && active.contains(x) && #[trigger] is_descendant_or_self(g, x, c),
        ));
    }
    while l < n
        invariant
            graph.wf(),
            g == graph@,
            n == g.len(),
            active == id_members(*leaves),
            l <= n,
            id_members(saved) == Set::new(
                |c: usize|
                    parent_of(g, c) == Some(e) && exists|x: usize|
                        x < l && active.contains(x) && #[trigger] is_descendant_or_self(g, x, c),
            ),
        decreases n - l,
    {
        let ghost before = id_members(saved);
        let mut found: Option<usize> = None;
        if id_set_contains(leaves, l) {
            found = child_toward(graph, l, e);
            match found {
                Some(c) => {
                    let _ = id_set_insert(&mut saved, c);
                },
                None => {},
            }
        }
        proof {
            let next = Set::new(
                |c: usize|
                    parent_of(g, c) == Some(e) && exists|x: usize|
                        x < l + 1 && active.contains(x) && #[trigger] is_descendant_or_self(g, x, c),
            );
            assert forall|c: usize| id_members(saved).contains(c) <==> next.contains(c) by {
                if before.contains(c) {
                    let x = choose|x: usize|
                        x < l && active.contains(x) && #[trigger] is_descendant_or_self(g, x, c);
                    assert(x < l + 1 && active.contains(x) && is_descendant_or_self(g, x, c));
                }
                if found == Some(c) && active.contains(l) {
                    assert(l < l + 1 && active.contains(l) && is_descendant_or_self(g, l, c));
                }
                if next.contains(c) {
                    let x = choose|x: usize|
                        x < l + 1 && active.contains(x) && #[trigger] is_descendant_or_self(g, x, c);
                    if x < l {
                        assert(before.contains(c));
                    } else {
                        assert(x == l);
                        assert(is_descendant_or_self(g, l, c));
                    }
                }
            }
            assert(id_members(saved) =~= next);
        }
        l = l + 1;
    }
    proof {
        let done = id_members(saved);
        let want = shallow_snapshot(g, active, e);
        assert forall|c: usize| done.contains(c) <==> want.contains(c) by {
            if done.contains(c) {
                let x = choose|x: usize|
                    x < n && active.contains(x) && #[trigger] is_descendant_or_self(g, x, c);
                assert(active.contains(x) && is_descendant_or_self(g, x, c));
            }
            if want.contains(c) {
                let x = choose|x: usize|
                    active.contains(x) && #[trigger] is_descendant_or_self(g, x, c);
                if x != c {
                    lemma_ancestors_smaller(g, x, c);
                }
                assert(x < n && active.contains(x) && is_descendant_or_self(g, x, c));
            }
        }
        assert(done =~= want);
    }
    saved
}

/// What the deep history state `e` remembers while `leaves` are active.
pub fn take_deep_snapshot(graph: &StateGraph, leaves: &IdSet, e: usize) -> (saved: IdSet)
    ensures
        id_members(saved) == deep_snapshot(graph@, id_members(*leaves), e),
{
    proof {
        use_type_invariant(graph);
    }
    let n = graph.len();
    let ghost g = graph@;
    let ghost active = id_members(*leaves);
    let mut saved = id_set_new();
    let mut l: usize = 0;
    proof {
        assert(id_members(saved) =~= Set::new(
            |x: usize| x < 0 && active.contains(x) && is_descendant_or_self(g, x, e),
        ));
    }
    while l < n
        invariant
            graph.wf(),
            g == graph@,
            n == g.len(),
            active == id_members(*leaves),
            l <= n,
            id_members(saved) == Set::new(
                |x: usize| x < l && active.contains(x) && is_descendant_or_self(g, x, e),
            ),
        decreases n - l,
    {
        if id_set_contains(leaves, l) && graph.is_descendant_or_self(l, e) {
            let _ = id_set_insert(&mut saved, l);
        }
        proof {
            assert(id_members(saved) =~= Set::new(
                |x: usize| x < l + 1 && active.contains(x) && is_descendant_or_self(g, x, e),
            ));
        }
        l = l + 1;
    }
    proof {
        assert(id_members(saved) =~= deep_snapshot(g, active, e));
    }
    saved
}

/// Stores a fresh snapshot for every history state among `exits`, taken
/// while `leaves` are the active leaves.
pub fn save_history(
    graph: &StateGraph,
    history: &mut HistoryStore,
    leaves: &IdSet,
    exits: &Vec<usize>,
)
    ensures
        final(history)@ == history_after(graph@, old(history)@, id_members(*leaves), exits@),
{
    proof {
        use_type_invariant(graph);
    }
    let ghost g = graph@;
    let ghost h0 = history@;
    let ghost active = id_members(*leaves);
    let mut i: usize = 0;
    proof {
        assert(history@ =~= history_after(g, h0, active, exits@.take(0)));
    }
    while i < exits.len()
        invariant
            graph.wf(),
            g == graph@,
            active == id_members(*leaves),
            i <= exits.len(),
            history@ == history_after(g, h0, active, exits@.take(i as int)),
        decreases exits.len() - i,
    {
        let e = exits[i];
        match graph.history_mode(e) {
            Some(History::Shallow) => {
                let saved = take_shallow_snapshot(graph, leaves, e);
                history.save(e, HistoryState(saved));
            },
            Some(History::Deep) => {
                let saved = take_deep_snapshot(graph, leaves, e);
                history.save(e, HistoryState(saved));
            },
            None => {},
        }
        proof {
            let t0 = exits@.take(i as int);
            let t1 = exits@.take(i + 1);
            assert(t1 == t0.push(e));
            assert forall|x: usize| t1.contains(x) <==> (t0.contains(x) || x == e) by {
                if t0.contains(x) {
                    let k = choose|k: int| 0 <= k < t0.len() && t0[k] == x;
                    assert(t1[k] == x);
                }
                if x == e {
                    assert(t1[i as int] == e);
                }
                if t1.contains(x) {
                    let k = choose|k: int| 0 <= k < t1.len() && t1[k] == x;
                    if k < i {
                        assert(t0[k] == x);
                    }
                }
            }
            assert(history@ =~= history_after(g, h0, active, t1));
        }
        i = i + 1;
    }
    proof {
        assert(exits@.take(exits@.len() as int) == exits@);
    }
}

} // verus!
