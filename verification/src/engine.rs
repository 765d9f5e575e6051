//! The transition engine: which states a transition exits and enters, in
//! which order, and what the machine looks like afterwards.
use crate::drill::{
    append_reversed, drill_enters, drill_leaves, get_all_leaf_states, push_enters,
};
use crate::edges::{edge_at, EdgeKind, EdgeTable, EdgeTableView};
use crate::events::{
    enter_all, exit_all, ExitState, Notification, PhaseEvents, Transition, TransitionActions, Via,
};
use crate::graph::{descent, is_ancestor, path_to_root, StateGraph, StateNode};
use crate::history::{
    history_after, history_wf, lemma_history_stays_wf, save_history, HistoryStore,
};
use crate::machine::{closure, StateMachine};
use crate::plan::{
    entry_lca, entry_path, exit_list, find_leaves_under, leaves_under, plan_parallel,
    plan_sequential,
};
use crate::sets::{
    ascending, id_members, id_set_contains, id_set_insert, id_set_is_empty, id_set_new,
    id_set_remove, id_set_to_vec, IdSet,
};
use vstd::prelude::*;

verus! {

/// Adding a leaf to a set adds its path to the closure.
pub proof fn lemma_closure_insert(g: Seq<StateNode>, leaves: Set<usize>, l: usize)
    ensures
        closure(g, leaves.insert(l)) == closure(g, leaves).union(path_to_root(g, l).to_set()),
{
    let lhs = closure(g, leaves.insert(l));
    let rhs = closure(g, leaves).union(path_to_root(g, l).to_set());
    assert forall|x: usize| lhs.contains(x) <==> rhs.contains(x) by {
        if lhs.contains(x) {
            let w = choose|w: usize|
                leaves.insert(l).contains(w) && #[trigger] path_to_root(g, w).contains(x);
            if w != l {
                assert(leaves.contains(w));
            }
        }
        if closure(g, leaves).contains(x) {
            let w = choose|w: usize| leaves.contains(w) && #[trigger] path_to_root(g, w).contains(x);
            assert(leaves.insert(l).contains(w));
        }
        if path_to_root(g, l).to_set().contains(x) {
            assert(leaves.insert(l).contains(l));
            assert(path_to_root(g, l).contains(x));
        }
    }
    assert(lhs =~= rhs);
}

/// The closure of no leaves is empty.
pub proof fn lemma_closure_empty(g: Seq<StateNode>)
    ensures
        closure(g, Set::<usize>::empty()) == Set::<usize>::empty(),
{
    assert(closure(g, Set::<usize>::empty()) =~= Set::<usize>::empty());
}

/// The set of active states that belongs to a set of active leaves: the
/// leaves and all their ancestors.
pub fn compute_active_from_leaves(leaves: &IdSet, graph: &StateGraph) -> (active: IdSet)
    ensures
        id_members(active) == closure(graph@, id_members(*leaves)),
{
    proof {
        use_type_invariant(graph);
    }
    let ids = id_set_to_vec(leaves);
    let mut active = id_set_new();
    let mut i: usize = 0;
    proof {
        lemma_closure_empty(graph@);
        assert(ids@.take(0).to_set() =~= Set::<usize>::empty());
    }
    while i < ids.len()
        invariant
            graph.wf(),
            i <= ids.len(),
            id_members(active) == closure(graph@, ids@.take(i as int).to_set()),
        decreases ids.len() - i,
    {
        let leaf = ids[i];
        let path = graph.path_to_root(leaf);
        let ghost base = id_members(active);
        let mut k: usize = 0;
        while k < path.len()
            invariant
                k <= path.len(),
                id_members(active) == base.union(path@.take(k as int).to_set()),
            decreases path.len() - k,
        {
            let _ = id_set_insert(&mut active, path[k]);
            proof {
                assert(path@.take(k + 1) == path@.take(k as int).push(path@[k as int]));
                path@.take(k as int).lemma_push_to_set_commute(path@[k as int]);
                assert(id_members(active) =~= base.union(path@.take(k + 1).to_set()));
            }
            k = k + 1;
        }
        proof {
            assert(path@.take(path@.len() as int) == path@);
            assert(ids@.take(i + 1) == ids@.take(i as int).push(leaf));
            ids@.take(i as int).lemma_push_to_set_commute(leaf);
            lemma_closure_insert(graph@, ids@.take(i as int).to_set(), leaf);
        }
        i = i + 1;
    }
    proof {
        assert(ids@.take(ids@.len() as int) == ids@);
    }
    active
}

/// The target state and the kind of a transition: for an edge, its target
/// and whether it is internal; for a state, the state itself, entered
/// externally. `None` for an edge that is missing or has no target.
pub open spec fn resolve(t: EdgeTableView, via: Via) -> Option<(usize, bool)> {
    match via {
        Via::State(s) => Some((s, false)),
        Via::Edge(e) => match edge_at(t, e) {
            Some(edge) => match edge.target {
                Some(x) => Some((x, edge.kind == EdgeKind::Internal)),
                None => None,
            },
            None => None,
        },
    }
}

/// The active states that lie properly below `top`, in ascending order.
pub open spec fn active_below(g: Seq<StateNode>, active: Set<usize>, top: usize) -> Seq<usize> {
    ascending(active.filter(|d: usize| is_ancestor(g, top, d)), 0, g.len() as usize)
}

/// The notification that delivers a phase event to a state.
pub open spec fn phase_event(entry: bool, target: usize, event: u64) -> Notification {
    if entry {
        Notification::EntryEvent { target, event }
    } else {
        Notification::ExitEvent { target, event }
    }
}

/// The deliveries of an exit-phase or entry-phase event: to the phase's
/// state `top`, then to every active state below it.
pub open spec fn phase_events(
    g: Seq<StateNode>,
    active: Set<usize>,
    top: usize,
    event: Option<u64>,
    entry: bool,
) -> Seq<Notification> {
    match event {
        Some(ev) => seq![phase_event(entry, top, ev)] + active_below(g, active, top).map_values(
            |d: usize| phase_event(entry, d, ev),
        ),
        None => Seq::empty(),
    }
}

/// The delivery of an action-phase event.
pub open spec fn effect_events(via: Via, event: Option<u64>) -> Seq<Notification> {
    match event {
        Some(ev) => seq![Notification::EffectEvent { via, event: ev }],
        None => Seq::empty(),
    }
}

/// What a transition does: the notifications it gives, and the active
/// leaves and the snapshots after it.
pub struct Outcome {
    /// The notifications, in the order in which they happen.
    pub notifications: Seq<Notification>,
    /// The active leaves afterwards.
    pub leaves: Set<usize>,
    /// The snapshots afterwards.
    pub history: Map<usize, Set<usize>>,
}

/// The first transition of a machine: the target is entered from below the
/// root, and the drill-down from it finds the leaves.
pub open spec fn outcome_initial(
    g: Seq<StateNode>,
    h: Map<usize, Set<usize>>,
    root: usize,
    target: usize,
) -> Outcome {
    Outcome {
        notifications: enter_all(descent(g, root, target)) + enter_all(drill_enters(g, h, target)),
        leaves: drill_leaves(g, h, target),
        history: h,
    }
}

/// A transition of a running machine: exit-phase events, the exits
/// bottom-up, the transition's actions and action-phase event, the entries
/// top-down and those of the drill-down, and the entry-phase events.
pub open spec fn outcome_running(
    g: Seq<StateNode>,
    h: Map<usize, Set<usize>>,
    leaves: Set<usize>,
    active: Set<usize>,
    root: usize,
    tr: Transition,
    target: usize,
    internal: bool,
) -> Outcome {
    let exits = exit_list(g, leaves, tr.source, target, internal);
    let lca = entry_lca(g, leaves, tr.source, target, internal);
    let h2 = history_after(g, h, leaves, exits);
    let leaves2 = leaves.difference(exits.to_set()).union(drill_leaves(g, h2, target));
    let active2 = closure(g, leaves2).insert(root);
    Outcome {
        notifications: phase_events(g, active, tr.source, tr.payload.exit, false) + exit_all(exits)
            + seq![Notification::Actions(TransitionActions { target: tr.edge })] + effect_events(
            tr.edge,
            tr.payload.effect,
        ) + enter_all(entry_path(g, target, lca)) + enter_all(drill_enters(g, h2, target))
            + phase_events(g, active2, target, tr.payload.entry, true),
        leaves: leaves2,
        history: h2,
    }
}

/// What the transition `tr` does to a machine with the given active leaves
/// and active states, or `None` when it does nothing: it is addressed to
/// another machine, its edge is missing or has no target, its target is not
/// a state of the graph, or no active leaf lies at or below its source.
pub open spec fn fire_outcome(
    g: Seq<StateNode>,
    t: EdgeTableView,
    h: Map<usize, Set<usize>>,
    leaves: Set<usize>,
    active: Set<usize>,
    root: usize,
    tr: Transition,
) -> Option<Outcome> {
    if tr.machine != root {
        None
    } else {
        match resolve(t, tr.edge) {
            None => None,
            Some((target, internal)) => if target >= g.len() {
                None
            } else if leaves == Set::<usize>::empty() {
                Some(outcome_initial(g, h, root, target))
            } else if leaves_under(g, leaves, tr.source).len() == 0 {
                None
            } else {
                Some(outcome_running(g, h, leaves, active, root, tr, target, internal))
            },
        }
    }
}

/// The target and kind of what a transition goes through.
pub fn resolve_via(edges: &EdgeTable, via: Via) -> (r: Option<(usize, bool)>)
    ensures
        r == resolve(edges@, via),
{
    match via {
        Via::State(s) => Some((s, false)),
        Via::Edge(e) => match edges.get(e) {
            Some(edge) => match edge.target {
                Some(x) => {
                    let internal = match edge.kind {
                        EdgeKind::Internal => true,
                        EdgeKind::External => false,
                    };
                    Some((x, internal))
                },
                None => None,
            },
            None => None,
        },
    }
}

/// Appends an exit notification for each state of `ids`.
pub(crate) fn push_exits(commands: &mut Vec<Notification>, ids: &Vec<usize>)
    ensures
        final(commands)@ == old(commands)@ + exit_all(ids@),
{
    let mut i: usize = 0;
    while i < ids.len()
        invariant
            i <= ids.len(),
            commands@ == old(commands)@ + exit_all(ids@.take(i as int)),
        decreases ids.len() - i,
    {
        commands.push(Notification::Exit(ExitState { target: ids[i] }));
        proof {
            assert(ids@.take(i + 1) == ids@.take(i as int).push(ids@[i as int]));
            assert(exit_all(ids@.take(i + 1)) =~= exit_all(ids@.take(i as int)).push(
                Notification::Exit(ExitState { target: ids@[i as int] }),
            ));
            assert(commands@ == old(commands)@ + exit_all(ids@.take(i + 1)));
        }
        i = i + 1;
    }
    proof {
        assert(ids@.take(ids@.len() as int) == ids@);
    }
}

/// The active states that lie properly below `top`, in ascending order.
pub(crate) fn find_active_below(graph: &StateGraph, active: &IdSet, top: usize) -> (below: Vec<usize>)
    ensures
        below@ == active_below(graph@, id_members(*active), top),
{
    proof {
        use_type_invariant(graph);
    }
    let n = graph.len();
    let ghost wanted = id_members(*active).filter(|d: usize| is_ancestor(graph@, top, d));
    let mut below: Vec<usize> = Vec::new();
    let mut d: usize = 0;
    while d < n
        invariant
            graph.wf(),
            n == graph@.len(),
            d <= n,
            wanted == id_members(*active).filter(|d: usize| is_ancestor(graph@, top, d)),
            below@ == ascending(wanted, 0, d),
        decreases n - d,
    {
        if id_set_contains(active, d) && graph.is_ancestor(top, d) {
            below.push(d);
        }
        d = d + 1;
    }
    below
}

/// Appends the deliveries of an exit-phase or entry-phase event.
pub fn deliver_phase(
    graph: &StateGraph,
    active: &IdSet,
    top: usize,
    event: Option<u64>,
    entry: bool,
    commands: &mut Vec<Notification>,
)
    ensures
        final(commands)@ == old(commands)@ + phase_events(
            graph@,
            id_members(*active),
            top,
            event,
            entry,
        ),
{
    proof {
        use_type_invariant(graph);
    }
    match event {
        Some(ev) => {
            let below = find_active_below(graph, active, top);
            let ghost f = |d: usize| phase_event(entry, d, ev);
            commands.push(
                if entry {
                    Notification::EntryEvent { target: top, event: ev }
                } else {
                    Notification::ExitEvent { target: top, event: ev }
                },
            );
            let ghost base = commands@;
            let mut i: usize = 0;
            while i < below.len()
                invariant
                    i <= below.len(),
                    f == (|d: usize| phase_event(entry, d, ev)),
                    commands@ == base + below@.take(i as int).map_values(f),
                decreases below.len() - i,
            {
                let d = below[i];
                commands.push(
                    if entry {
                        Notification::EntryEvent { target: d, event: ev }
                    } else {
                        Notification::ExitEvent { target: d, event: ev }
                    },
                );
                proof {
                    assert(below@.take(i + 1) == below@.take(i as int).push(d));
                    assert(below@.take(i + 1).map_values(f) =~= below@.take(i as int).map_values(
                        f,
                    ).push(f(d)));
                    assert(commands@ == base + below@.take(i + 1).map_values(f));
                }
                i = i + 1;
            }
            proof {
                assert(below@.take(below@.len() as int) == below@);
                assert(base == old(commands)@ + seq![phase_event(entry, top, ev)]);
                assert(commands@ == old(commands)@ + (seq![phase_event(entry, top, ev)]
                    + below@.map_values(f)));
            }
        },
        None => {
            proof {
                assert(commands@ == old(commands)@ + Seq::<Notification>::empty());
            }
        },
    }
}

impl PhaseEvents {
    /// Delivers the exit-phase event, if there is one, to `source` and to
    /// every active state below it.
    pub fn on_exit(
        &self,
        commands: &mut Vec<Notification>,
        source: usize,
        graph: &StateGraph,
        state_machine: &StateMachine,
    )
        ensures
            final(commands)@ == old(commands)@ + phase_events(
                graph@,
                state_machine.active_set(),
                source,
                self.exit,
                false,
            ),
    {
        deliver_phase(graph, &state_machine.active, source, self.exit, false, commands);
    }

    /// Delivers the action-phase event, if there is one, to what the
    /// transition goes through.
    pub fn on_effect(&self, commands: &mut Vec<Notification>, edge: Via)
        ensures
            final(commands)@ == old(commands)@ + effect_events(edge, self.effect),
    {
        match self.effect {
            Some(ev) => {
                commands.push(Notification::EffectEvent { via: edge, event: ev });
                proof {
                    assert(commands@ == old(commands)@ + seq![
                        Notification::EffectEvent { via: edge, event: ev },
                    ]);
                }
            },
            None => {
                proof {
                    assert(commands@ == old(commands)@ + Seq::<Notification>::empty());
                }
            },
        }
    }

    /// Delivers the entry-phase event, if there is one, to `target` and to
    /// every active state below it.
    pub fn on_entry(
        &self,
        commands: &mut Vec<Notification>,
        target: usize,
        graph: &StateGraph,
        state_machine: &StateMachine,
    )
        ensures
            final(commands)@ == old(commands)@ + phase_events(
                graph@,
                state_machine.active_set(),
                target,
                self.entry,
                true,
            ),
    {
        deliver_phase(graph, &state_machine.active, target, self.entry, true, commands);
    }
}

/// Takes the ids of `ids` out of `set`.
pub(crate) fn remove_all(set: &mut IdSet, ids: &Vec<usize>)
    ensures
        id_members(*final(set)) == id_members(*old(set)).difference(ids@.to_set()),
{
    let mut i: usize = 0;
    proof {
        assert(ids@.take(0).to_set() =~= Set::<usize>::empty());
        assert(id_members(*set) =~= id_members(*old(set)).difference(ids@.take(0).to_set()));
    }
    while i < ids.len()
        invariant
            i <= ids.len(),
            id_members(*set) == id_members(*old(set)).difference(ids@.take(i as int).to_set()),
        decreases ids.len() - i,
    {
        let _ = id_set_remove(set, ids[i]);
        proof {
            assert(ids@.take(i + 1) == ids@.take(i as int).push(ids@[i as int]));
            ids@.take(i as int).lemma_push_to_set_commute(ids@[i as int]);
            assert(id_members(*set) =~= id_members(*old(set)).difference(
                ids@.take(i + 1).to_set(),
            ));
        }
        i = i + 1;
    }
    proof {
        assert(ids@.take(ids@.len() as int) == ids@);
    }
}

/// Puts the ids of `more` into `set`.
pub(crate) fn insert_all(set: &mut IdSet, more: &IdSet)
    ensures
        id_members(*final(set)) == id_members(*old(set)).union(id_members(*more)),
{
    let ids = id_set_to_vec(more);
    let mut i: usize = 0;
    proof {
        assert(ids@.take(0).to_set() =~= Set::<usize>::empty());
        assert(id_members(*set) =~= id_members(*old(set)).union(ids@.take(0).to_set()));
    }
    while i < ids.len()
        invariant
            i <= ids.len(),
            id_members(*set) == id_members(*old(set)).union(ids@.take(i as int).to_set()),
        decreases ids.len() - i,
    {
        let _ = id_set_insert(set, ids[i]);
        proof {
            assert(ids@.take(i + 1) == ids@.take(i as int).push(ids@[i as int]));
            ids@.take(i as int).lemma_push_to_set_commute(ids@[i as int]);
            assert(id_members(*set) =~= id_members(*old(set)).union(ids@.take(i + 1).to_set()));
        }
        i = i + 1;
    }
    proof {
        assert(ids@.take(ids@.len() as int) == ids@);
    }
}

/// Takes a transition: works out which states it exits and enters, stores
/// the snapshots of the history states it exits, updates the machine's
/// active leaves and active states, and returns the notifications in the
/// order in which they happen.
///
/// The transition does nothing where `fire_outcome` is `None`. Otherwise
/// the machine satisfies the closure invariant afterwards.
pub fn fire(
    graph: &StateGraph,
    edges: &EdgeTable,
    history: &mut HistoryStore,
    machine: &mut StateMachine,
    transition: &Transition,
) -> (out: Vec<Notification>)
    ensures
        final(machine).root == old(machine).root,
        old(machine).closed_over(graph@) ==> final(machine).closed_over(graph@),
        history_wf(graph@, old(history)@) ==> history_wf(graph@, final(history)@),
        match fire_outcome(
            graph@,
            edges@,
            old(history)@,
            old(machine).leaf_set(),
            old(machine).active_set(),
            old(machine).root,
            *transition,
        ) {
            Some(o) => {
                &&& out@ == o.notifications
                &&& final(machine).leaf_set() == o.leaves
                &&& final(history)@ == o.history
                &&& final(machine).closed_over(graph@)
            },
            None => {
                &&& out@.len() == 0
                &&& final(machine).leaf_set() == old(machine).leaf_set()
                &&& final(machine).active_set() == old(machine).active_set()
                &&& final(history)@ == old(history)@
            },
        },
{
    proof {
        use_type_invariant(graph);
    }
    let mut out: Vec<Notification> = Vec::new();
    if transition.machine != machine.root {
        return out;
    }
    let (target, internal) = match resolve_via(edges, transition.edge) {
        Some(r) => r,
        None => {
            return out;
        },
    };
    if target >= graph.len() {
        return out;
    }
    let ghost g = graph@;
    let ghost h = history@;
    let ghost leaves0 = machine.leaf_set();
    let ghost active0 = machine.active_set();
    let root = machine.root;
    if id_set_is_empty(&machine.active_leaves) {
        let way = graph.climb(target, root);
        let mut down: Vec<usize> = Vec::new();
        append_reversed(&mut down, &way);
        push_enters(&mut out, &down);
        let found = get_all_leaf_states(target, graph, history, &mut out);
        insert_all(&mut machine.active_leaves, &found);
        let mut active = compute_active_from_leaves(&machine.active_leaves, graph);
        let _ = id_set_insert(&mut active, root);
        machine.active = active;
        proof {
            assert(down@ == descent(g, root, target));
            assert(machine.leaf_set() =~= drill_leaves(g, h, target));
            assert(out@ == enter_all(descent(g, root, target)) + enter_all(
                drill_enters(g, h, target),
            ));
        }
        return out;
    }
    let source = transition.source;
    let under = find_leaves_under(graph, &machine.active_leaves, source);
    if under.len() == 0 {
        return out;
    }
    let (exits, lca) = if graph.is_parallel(source) {
        plan_parallel(graph, &under, source, target, internal)
    } else {
        plan_sequential(graph, &under, source, target, internal)
    };
    transition.payload.on_exit(&mut out, source, graph, machine);
    save_history(graph, history, &machine.active_leaves, &exits);
    push_exits(&mut out, &exits);
    remove_all(&mut machine.active_leaves, &exits);
    let ghost after_exits = out@;
    out.push(Notification::Actions(TransitionActions { target: transition.edge }));
    transition.payload.on_effect(&mut out, transition.edge);
    let ghost after_actions = out@;
    let enter_path = graph.path_to_root(target);
    let mut way: Vec<usize> = Vec::new();
    let mut k: usize = 0;
    let upto = enter_path.len() - lca;
    while k < upto
        invariant
            k <= upto,
            upto <= enter_path.len(),
            way@ == enter_path@.take(k as int),
        decreases upto - k,
    {
        way.push(enter_path[k]);
        proof {
            assert(enter_path@.take(k + 1) == enter_path@.take(k as int).push(enter_path@[k as int]));
        }
        k = k + 1;
    }
    let mut down: Vec<usize> = Vec::new();
    append_reversed(&mut down, &way);
    push_enters(&mut out, &down);
    let found = get_all_leaf_states(target, graph, history, &mut out);
    insert_all(&mut machine.active_leaves, &found);
    let mut active = compute_active_from_leaves(&machine.active_leaves, graph);
    let _ = id_set_insert(&mut active, root);
    machine.active = active;
    transition.payload.on_entry(&mut out, target, graph, machine);
    proof {
        let tr = *transition;
        if history_wf(g, h) {
            lemma_history_stays_wf(g, h, leaves0, exits@);
        }
        assert(exits@ == exit_list(g, leaves0, source, target, internal));
        assert(lca == entry_lca(g, leaves0, source, target, internal));
        assert(down@ == entry_path(g, target, lca as nat));
        let a = phase_events(g, active0, source, tr.payload.exit, false);
        let b = exit_all(exits@);
        let c = seq![Notification::Actions(TransitionActions { target: tr.edge })];
        let d = effect_events(tr.edge, tr.payload.effect);
        assert(Seq::<Notification>::empty() + a == a);
        assert(after_exits == a + b);
        assert(after_exits.push(c[0]) == a + b + c);
        assert(after_actions == a + b + c + d);
    }
    out
}

} // verus!
