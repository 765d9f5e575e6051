//! Edge dispatch: which edge a stimulus selects.
//!
//! The outgoing edges of a state are tried in priority order and the first
//! that is ready is taken. An edge without a target is never ready, and
//! neither is an edge with a guard.
use crate::deferral::{buffers_of, defer_in, defers, DeferEvent, DeferralQueue};
use crate::edges::{edge_at, listed, EdgeTable, EdgeTableView, Trigger};
use crate::events::{EnterState, Event, PhaseEvents, Transition, Via};
use crate::graph::{node_wf, parallel_at, parent_of, root_of, StateGraph, StateNode};
use crate::machine::StateMachine;
use crate::sets::{
    ascending, id_members, id_set_contains, id_set_insert, id_set_is_empty, id_set_new,
    members_ascending, IdSet,
};
use crate::timers::{fresh_timer, TimerService, TimersView};
use vstd::prelude::*;

verus! {

/// The first item of `list` that satisfies `pred`.
pub open spec fn first_match(list: Seq<usize>, pred: spec_fn(usize) -> bool) -> Option<usize>
    decreases list.len(),
{
    if list.len() == 0 {
        None
    } else if pred(list[0]) {
        Some(list[0])
    } else {
        first_match(list.skip(1), pred)
    }
}

/// First match wins: the item found satisfies the predicate and no item
/// before it does; nothing is found only when no item satisfies it.
pub proof fn lemma_first_match(list: Seq<usize>, pred: spec_fn(usize) -> bool)
    ensures
        match first_match(list, pred) {
            Some(e) => exists|k: int|
                0 <= k < list.len() && #[trigger] list[k] == e && pred(e) && forall|j: int|
                    0 <= j < k ==> !pred(#[trigger] list[j]),
            None => forall|j: int| 0 <= j < list.len() ==> !pred(#[trigger] list[j]),
        },
    decreases list.len(),
{
    if list.len() > 0 {
        if pred(list[0]) {
            assert(list[0] == list[0] && forall|j: int| 0 <= j < 0 ==> !pred(#[trigger] list[j]));
        } else {
            let rest = list.skip(1);
            lemma_first_match(rest, pred);
            match first_match(rest, pred) {
                Some(e) => {
                    let k = choose|k: int|
                        0 <= k < rest.len() && #[trigger] rest[k] == e && pred(e) && forall|j: int|
                            0 <= j < k ==> !pred(#[trigger] rest[j]);
                    assert(list[k + 1] == e);
                    assert forall|j: int| 0 <= j < k + 1 implies !pred(#[trigger] list[j]) by {
                        if j > 0 {
                            assert(rest[j - 1] == list[j]);
                        }
                    }
                },
                None => {
                    assert forall|j: int| 0 <= j < list.len() implies !pred(#[trigger] list[j]) by {
                        if j > 0 {
                            assert(rest[j - 1] == list[j]);
                        }
                    }
                },
            }
        }
    }
}

/// Edge `e` exists, no guard blocks it and it has a target.
pub open spec fn edge_valid(t: EdgeTableView, e: usize) -> bool {
    match edge_at(t, e) {
        Some(edge) => edge.valid(),
        None => false,
    }
}

/// Edge `e` fires when its source is entered: an undelayed always-edge
/// that is valid.
pub open spec fn always_ready(t: EdgeTableView, e: usize) -> bool {
    match edge_at(t, e) {
        Some(edge) => edge.trigger == Trigger::Always && edge.after is None && edge.valid(),
        None => false,
    }
}

/// Edge `e` reacts to an event of type `kind`: a valid event-edge for it.
pub open spec fn event_ready(t: EdgeTableView, e: usize, kind: u64) -> bool {
    match edge_at(t, e) {
        Some(edge) => edge.trigger == Trigger::OnEvent(kind) && edge.valid(),
        None => false,
    }
}

/// The request to take edge `e` from `source` with the given phase events.
pub open spec fn request(g: Seq<StateNode>, source: usize, e: usize, payload: PhaseEvents) -> Transition {
    Transition { machine: root_of(g, source), source, edge: Via::Edge(e), payload }
}

/// The phase events of a transition that no event triggered.
pub open spec fn no_payload() -> PhaseEvents {
    PhaseEvents { exit: None, effect: None, entry: None }
}

/// The always-edge that fires when `source` is entered: the first ready one
/// in priority order.
pub open spec fn always_choice(t: EdgeTableView, source: usize) -> Option<usize> {
    first_match(listed(t, source), |e: usize| always_ready(t, e))
}

/// The edge of `source` that reacts to an event of type `kind`: the first
/// ready one in priority order.
pub open spec fn event_choice(t: EdgeTableView, source: usize, kind: u64) -> Option<usize> {
    first_match(listed(t, source), |e: usize| event_ready(t, e, kind))
}

/// Whether the edge can be taken: it exists, has no guard and has a target.
pub fn validate_edge_basic(edges: &EdgeTable, edge: usize) -> (ok: bool)
    ensures
        ok == edge_valid(edges@, edge),
{
    match edges.get(edge) {
        Some(e) => e.guards.check() && e.target.is_some(),
        None => false,
    }
}

/// When `enter_state.target` has been entered: the transition of the first
/// ready always-edge among its outgoing edges, if there is one.
pub fn always_edge_listener(
    enter_state: &EnterState,
    graph: &StateGraph,
    edges: &EdgeTable,
) -> (fired: Option<Transition>)
    ensures
        fired == match always_choice(edges@, enter_state.target) {
            Some(e) => Some(request(graph@, enter_state.target, e, no_payload())),
            None => None,
        },
{
    proof {
        use_type_invariant(graph);
    }
    let source = enter_state.target;
    let n = edges.transition_count(source);
    let ghost list = listed(edges@, source);
    let ghost pred = |e: usize| always_ready(edges@, e);
    let mut k: usize = 0;
    proof {
        assert(list.skip(0) == list);
    }
    while k < n
        invariant
            graph.wf(),
            list == listed(edges@, source),
            pred == (|e: usize| always_ready(edges@, e)),
            source == enter_state.target,
            n == list.len(),
            k <= n,
            first_match(list, pred) == first_match(list.skip(k as int), pred),
        decreases n - k,
    {
        let edge = edges.edge_of(source, k);
        proof {
            assert(list.skip(k as int)[0] == edge);
            assert(list.skip(k as int).skip(1) == list.skip(k + 1));
        }
        let ready = match edges.get(edge) {
            Some(e) => {
                let always = match e.trigger {
                    Trigger::Always => true,
                    Trigger::OnEvent(_) => false,
                };
                always && e.after.is_none() && e.guards.check() && e.target.is_some()
            },
            None => false,
        };
        if ready {
            let root = graph.root_ancestor(source);
            return Some(
                Transition {
                    machine: root,
                    source,
                    edge: Via::Edge(edge),
                    payload: PhaseEvents::none(),
                },
            );
        }
        k = k + 1;
    }
    None
}

/// The state from which the walk towards the root first reaches a parallel
/// state, starting at `state`; `None` when there is no parallel state above.
pub open spec fn region_walk(g: Seq<StateNode>, state: usize) -> Option<usize>
    decreases state,
{
    match parent_of(g, state) {
        Some(p) => if p < state {
            if parallel_at(g, p) {
                Some(state)
            } else {
                region_walk(g, p)
            }
        } else {
            None
        },
        None => None,
    }
}

/// The root of the parallel region that `state` lies in: the child of the
/// nearest parallel state above it that is at or above `state`, or `state`
/// itself when no parallel state lies above it.
pub open spec fn region_root(g: Seq<StateNode>, state: usize) -> usize {
    match region_walk(g, state) {
        Some(r) => r,
        None => state,
    }
}

/// The root of the parallel region that `state` lies in.
pub fn find_parallel_region_root(state: usize, graph: &StateGraph) -> (root: usize)
    ensures
        root == region_root(graph@, state),
{
    proof {
        use_type_invariant(graph);
    }
    let mut previous: usize = state;
    loop
        invariant
            graph.wf(),
            region_walk(graph@, previous) == region_walk(graph@, state),
        decreases previous,
    {
        match graph.parent(previous) {
            Some(p) => {
                proof {
                    assert(node_wf(graph@, previous));
                }
                if graph.is_parallel(p) {
                    return previous;
                }
                previous = p;
            },
            None => {
                return state;
            },
        }
    }
}

/// What became of an event at one state.
#[derive(Clone, Copy, Debug, PartialEq, Eq, Structural)]
pub enum Dispatch {
    /// No edge of the state reacts to the event.
    Ignored,
    /// The state holds the event back.
    Deferred,
    /// A delayed edge was armed; the event waits on it.
    Armed(usize),
    /// An edge fires.
    Fire(Transition),
}

impl Dispatch {
    /// The event was used up by an edge.
    pub open spec fn consumed(self) -> bool {
        self is Armed || self is Fire
    }

    /// The event goes no further: an edge used it up, or a state holds it
    /// back.
    pub open spec fn taken(self) -> bool {
        self.consumed() || self is Deferred
    }

    /// Whether the event goes no further.
    pub fn is_taken(&self) -> (b: bool)
        ensures
            b == self.taken(),
    {
        match self {
            Dispatch::Ignored => false,
            _ => true,
        }
    }

    /// Whether the event was used up by an edge.
    pub fn is_consumed(&self) -> (b: bool)
        ensures
            b == self.consumed(),
    {
        match self {
            Dispatch::Armed(_) => true,
            Dispatch::Fire(_) => true,
            _ => false,
        }
    }
}

/// What becomes of `event` at state `source`. An active state with a buffer
/// for the event's type holds the event back. Otherwise the first ready
/// edge of the state takes it: a delayed edge is armed, an undelayed edge
/// fires. Otherwise the event is ignored.
pub open spec fn dispatch_at(
    g: Seq<StateNode>,
    t: EdgeTableView,
    q: Seq<Seq<DeferEvent>>,
    active: Set<usize>,
    source: usize,
    event: Event,
) -> Dispatch {
    if defers(buffers_of(q, source), event.kind) && active.contains(source) {
        Dispatch::Deferred
    } else {
        match event_choice(t, source, event.kind) {
            None => Dispatch::Ignored,
            Some(e) => match t.edges[e as int].after {
                Some(_) => Dispatch::Armed(e),
                None => Dispatch::Fire(request(g, source, e, event.phases)),
            },
        }
    }
}

/// The deferral queue after the dispatch of `event` at `source`.
pub open spec fn queue_after(
    q: Seq<Seq<DeferEvent>>,
    d: Dispatch,
    source: usize,
    event: Event,
) -> Seq<Seq<DeferEvent>> {
    if d is Deferred {
        defer_in(q, source, event)
    } else {
        q
    }
}

/// The timers after the dispatch of `event`: an armed edge carries a fresh
/// timer of its delay, and the event waits on it.
pub open spec fn timers_after(t: EdgeTableView, v: TimersView, d: Dispatch, event: Event) -> TimersView {
    match d {
        Dispatch::Armed(e) => TimersView {
            timers: v.timers.insert(e, fresh_timer(t.edges[e as int].after->0.duration)),
            pending: v.pending.insert(e, event),
        },
        _ => v,
    }
}

/// Dispatches `event` at state `source`.
pub fn try_fire_first_matching_edge_generic(
    source: usize,
    event: &Event,
    graph: &StateGraph,
    edges: &EdgeTable,
    machine: &StateMachine,
    deferrals: &mut DeferralQueue,
    timers: &mut TimerService,
) -> (d: Dispatch)
    ensures
        d == dispatch_at(graph@, edges@, old(deferrals)@, machine.active_set(), source, *event),
        final(deferrals)@ == queue_after(old(deferrals)@, d, source, *event),
        final(timers)@ == timers_after(edges@, old(timers)@, d, *event),
{
    proof {
        use_type_invariant(graph);
    }
    if deferrals.has_buffer(source, event.kind) && machine.is_active(&source) {
        deferrals.defer(source, *event);
        return Dispatch::Deferred;
    }
    let n = edges.transition_count(source);
    let ghost list = listed(edges@, source);
    let ghost pred = |e: usize| event_ready(edges@, e, event.kind);
    let mut k: usize = 0;
    proof {
        assert(list.skip(0) == list);
    }
    while k < n
        invariant
            graph.wf(),
            list == listed(edges@, source),
            pred == (|e: usize| event_ready(edges@, e, event.kind)),
            !(defers(buffers_of(old(deferrals)@, source), event.kind) && machine.active_set().contains(
                source,
            )),
            n == list.len(),
            k <= n,
            first_match(list, pred) == first_match(list.skip(k as int), pred),
            deferrals@ == old(deferrals)@,
            timers@ == old(timers)@,
        decreases n - k,
    {
        let edge = edges.edge_of(source, k);
        proof {
            assert(list.skip(k as int)[0] == edge);
            assert(list.skip(k as int).skip(1) == list.skip(k + 1));
        }
        match edges.get(edge) {
            Some(e) => {
                let listens = match e.trigger {
                    Trigger::Always => false,
                    Trigger::OnEvent(kind) => kind == event.kind,
                };
                if listens && e.guards.check() && e.target.is_some() {
                    match e.after {
                        Some(after) => {
                            timers.arm(edge, after.duration);
                            timers.set_pending(edge, *event);
                            return Dispatch::Armed(edge);
                        },
                        None => {
                            let root = graph.root_ancestor(source);
                            return Dispatch::Fire(
                                Transition {
                                    machine: root,
                                    source,
                                    edge: Via::Edge(edge),
                                    payload: event.phases,
                                },
                            );
                        },
                    }
                }
            },
            None => {},
        }
        k = k + 1;
    }
    Dispatch::Ignored
}

/// Dispatches `event` at state `source`.
pub fn try_fire_first_matching_edge(
    source: usize,
    event: &Event,
    graph: &StateGraph,
    edges: &EdgeTable,
    machine: &StateMachine,
    deferrals: &mut DeferralQueue,
    timers: &mut TimerService,
) -> (d: Dispatch)
    ensures
        d == dispatch_at(graph@, edges@, old(deferrals)@, machine.active_set(), source, *event),
        final(deferrals)@ == queue_after(old(deferrals)@, d, source, *event),
        final(timers)@ == timers_after(edges@, old(timers)@, d, *event),
{
    proof {
        use_type_invariant(graph);
    }
    try_fire_first_matching_edge_generic(source, event, graph, edges, machine, deferrals, timers)
}

/// What a walk along one branch leaves behind.
pub struct WalkOutcome {
    /// What became of the event: an edge that fires or was armed, a state
    /// that holds the event back, or `Ignored` when no state of the branch
    /// took it.
    pub result: Dispatch,
    /// The states that have been tried.
    pub visited: Set<usize>,
    /// The deferral queue after the walk.
    pub queue: Seq<Seq<DeferEvent>>,
    /// The timers after the walk.
    pub timers: TimersView,
}

/// The walk of `event` from `state` towards `root`: every state not yet
/// visited is tried in turn, and the walk ends at the first state where an
/// edge takes the event or where the state holds it back, at the root, or
/// where there is no parent. An event that a state holds back reaches no
/// state above it.
pub open spec fn branch_walk(
    g: Seq<StateNode>,
    t: EdgeTableView,
    active: Set<usize>,
    root: usize,
    event: Event,
    state: usize,
    visited: Set<usize>,
    q: Seq<Seq<DeferEvent>>,
    v: TimersView,
) -> WalkOutcome
    decreases state,
{
    let d = if visited.contains(state) {
        Dispatch::Ignored
    } else {
        dispatch_at(g, t, q, active, state, event)
    };
    let visited2 = visited.insert(state);
    let q2 = queue_after(q, d, state, event);
    if d.taken() {
        WalkOutcome { result: d, visited: visited2, queue: q2, timers: timers_after(t, v, d, event) }
    } else if state == root {
        WalkOutcome { result: Dispatch::Ignored, visited: visited2, queue: q2, timers: v }
    } else {
        match parent_of(g, state) {
            Some(p) => if p < state {
                branch_walk(g, t, active, root, event, p, visited2, q2, v)
            } else {
                WalkOutcome { result: Dispatch::Ignored, visited: visited2, queue: q2, timers: v }
            },
            None => WalkOutcome { result: Dispatch::Ignored, visited: visited2, queue: q2, timers: v },
        }
    }
}

/// Walks `event` from `start` towards `machine_root` and dispatches it at
/// every state on the way that no earlier walk has tried, until an edge
/// takes it or a state holds it back.
pub fn try_fire_first_matching_edge_on_branch(
    start: usize,
    event: &Event,
    machine_root: usize,
    graph: &StateGraph,
    edges: &EdgeTable,
    machine: &StateMachine,
    deferrals: &mut DeferralQueue,
    timers: &mut TimerService,
    visited: &mut IdSet,
) -> (d: Dispatch)
    ensures
        ({
            let o = branch_walk(
                graph@,
                edges@,
                machine.active_set(),
                machine_root,
                *event,
                start,
                id_members(*old(visited)),
                old(deferrals)@,
                old(timers)@,
            );
            &&& d == o.result
            &&& id_members(*final(visited)) == o.visited
            &&& final(deferrals)@ == o.queue
            &&& final(timers)@ == o.timers
        }),
{
    proof {
        use_type_invariant(graph);
    }
    let ghost g = graph@;
    let ghost t = edges@;
    let ghost active = machine.active_set();
    let ghost whole = branch_walk(
        g,
        t,
        active,
        machine_root,
        *event,
        start,
        id_members(*visited),
        deferrals@,
        timers@,
    );
    let mut state: usize = start;
    loop
        invariant
            graph.wf(),
            g == graph@,
            t == edges@,
            active == machine.active_set(),
            whole == branch_walk(
                g,
                t,
                active,
                machine_root,
                *event,
                start,
                id_members(*old(visited)),
                old(deferrals)@,
                old(timers)@,
            ),
            whole == branch_walk(
                g,
                t,
                active,
                machine_root,
                *event,
                state,
                id_members(*visited),
                deferrals@,
                timers@,
            ),
        decreases state,
    {
        let fresh = id_set_insert(visited, state);
        let mut d = Dispatch::Ignored;
        if fresh {
            d = try_fire_first_matching_edge(state, event, graph, edges, machine, deferrals, timers);
            if d.is_taken() {
                return d;
            }
        }
        if state == machine_root {
            return Dispatch::Ignored;
        }
        match graph.parent(state) {
            Some(p) => {
                proof {
                    assert(node_wf(g, state));
                }
                state = p;
            },
            None => {
                return Dispatch::Ignored;
            },
        }
    }
}

/// What has happened to an event while the active leaves are tried in turn.
pub struct ListenState {
    /// The states that have been tried.
    pub visited: Set<usize>,
    /// The roots of the regions in which an edge took the event.
    pub fired: Set<usize>,
    /// Whether a state holds the event back.
    pub held: bool,
    /// The deferral queue so far.
    pub queue: Seq<Seq<DeferEvent>>,
    /// The timers so far.
    pub timers: TimersView,
    /// The transitions to take, in order.
    pub transitions: Seq<Transition>,
}

/// The transitions with the one that `d` fires, if it fires one.
pub open spec fn with_fired(transitions: Seq<Transition>, d: Dispatch) -> Seq<Transition> {
    match d {
        Dispatch::Fire(tr) => transitions.push(tr),
        _ => transitions,
    }
}

/// One active leaf is tried: unless a state holds the event back or an edge
/// has already taken it in the leaf's region, the event walks from the leaf
/// towards the root. Once a state holds the event back, no further leaf is
/// tried; the edges that took the event on branches tried before stand.
pub open spec fn listen_leaf(
    g: Seq<StateNode>,
    t: EdgeTableView,
    active: Set<usize>,
    root: usize,
    event: Event,
    st: ListenState,
    leaf: usize,
) -> ListenState {
    let region = region_root(g, leaf);
    if st.held || st.fired.contains(region) {
        st
    } else {
        let o = branch_walk(g, t, active, root, event, leaf, st.visited, st.queue, st.timers);
        ListenState {
            visited: o.visited,
            fired: if o.result.consumed() {
                st.fired.insert(region)
            } else {
                st.fired
            },
            held: o.result is Deferred,
            queue: o.queue,
            timers: o.timers,
            transitions: with_fired(st.transitions, o.result),
        }
    }
}

/// The active leaves are tried in the given order.
pub open spec fn listen_leaves(
    g: Seq<StateNode>,
    t: EdgeTableView,
    active: Set<usize>,
    root: usize,
    event: Event,
    st: ListenState,
    leaves: Seq<usize>,
) -> ListenState
    decreases leaves.len(),
{
    if leaves.len() == 0 {
        st
    } else {
        listen_leaf(
            g,
            t,
            active,
            root,
            event,
            listen_leaves(g, t, active, root, event, st, leaves.drop_last()),
            leaves.last(),
        )
    }
}

/// What an event leads to.
pub struct Heard {
    /// The transitions to take, in order.
    pub transitions: Seq<Transition>,
    /// The deferral queue afterwards.
    pub queue: Seq<Seq<DeferEvent>>,
    /// The timers afterwards.
    pub timers: TimersView,
}

/// What `event` leads to. An event for the machine's root is tried along the
/// branch of every active leaf, in ascending order of the leaves, at most
/// one edge per parallel region, until a state holds it back; when no edge
/// took it and no state holds it back, it is dispatched at the root. An
/// event for another state is dispatched at that state.
pub open spec fn heard(
    g: Seq<StateNode>,
    t: EdgeTableView,
    q: Seq<Seq<DeferEvent>>,
    v: TimersView,
    leaves: Set<usize>,
    active: Set<usize>,
    root: usize,
    event: Event,
) -> Heard {
    if event.target == root {
        let start = ListenState {
            visited: Set::empty(),
            fired: Set::empty(),
            held: false,
            queue: q,
            timers: v,
            transitions: Seq::empty(),
        };
        let st = listen_leaves(
            g,
            t,
            active,
            root,
            event,
            start,
            ascending(leaves, 0, g.len() as usize),
        );
        if st.fired == Set::<usize>::empty() && !st.held {
            let d = dispatch_at(g, t, st.queue, active, root, event);
            Heard {
                transitions: with_fired(st.transitions, d),
                queue: queue_after(st.queue, d, root, event),
                timers: timers_after(t, st.timers, d, event),
            }
        } else {
            Heard { transitions: st.transitions, queue: st.queue, timers: st.timers }
        }
    } else {
        let d = dispatch_at(g, t, q, active, event.target, event);
        Heard {
            transitions: with_fired(Seq::empty(), d),
            queue: queue_after(q, d, event.target, event),
            timers: timers_after(t, v, d, event),
        }
    }
}

/// Receives `event`: selects the edges that take it, arms the delayed ones,
/// lets deferring states hold it back, and returns the transitions of the
/// undelayed ones, which the caller takes in order.
pub fn edge_event_listener(
    event: &Event,
    graph: &StateGraph,
    edges: &EdgeTable,
    machine: &StateMachine,
    deferrals: &mut DeferralQueue,
    timers: &mut TimerService,
) -> (transitions: Vec<Transition>)
    ensures
        ({
            let h = heard(
                graph@,
                edges@,
                old(deferrals)@,
                old(timers)@,
                machine.leaf_set(),
                machine.active_set(),
                machine.root,
                *event,
            );
            &&& transitions@ == h.transitions
            &&& final(deferrals)@ == h.queue
            &&& final(timers)@ == h.timers
        }),
{
    proof {
        use_type_invariant(graph);
    }
    let mut transitions: Vec<Transition> = Vec::new();
    let root = machine.root;
    if event.target != root {
        let d = try_fire_first_matching_edge(
            event.target,
            event,
            graph,
            edges,
            machine,
            deferrals,
            timers,
        );
        match d {
            Dispatch::Fire(tr) => {
                transitions.push(tr);
            },
            _ => {},
        }
        return transitions;
    }
    let ghost g = graph@;
    let ghost t = edges@;
    let ghost active = machine.active_set();
    let ghost start = ListenState {
        visited: Set::empty(),
        fired: Set::empty(),
        held: false,
        queue: deferrals@,
        timers: timers@,
        transitions: Seq::empty(),
    };
    let leaves = members_ascending(&machine.active_leaves, 0, graph.len());
    let mut visited = id_set_new();
    let mut fired = id_set_new();
    let mut held = false;
    let mut i: usize = 0;
    while i < leaves.len()
        invariant
            graph.wf(),
            g == graph@,
            t == edges@,
            active == machine.active_set(),
            root == machine.root,
            i <= leaves.len(),
            ({
                let st = listen_leaves(g, t, active, root, *event, start, leaves@.take(i as int));
                &&& st.visited == id_members(visited)
                &&& st.fired == id_members(fired)
                &&& st.held == held
                &&& st.queue == deferrals@
                &&& st.timers == timers@
                &&& st.transitions == transitions@
            }),
        decreases leaves.len() - i,
    {
        let leaf = leaves[i];
        proof {
            assert(leaves@.take(i + 1).drop_last() == leaves@.take(i as int));
            assert(leaves@.take(i + 1).last() == leaf);
        }
        let region = find_parallel_region_root(leaf, graph);
        if !held && !id_set_contains(&fired, region) {
            let d = try_fire_first_matching_edge_on_branch(
                leaf,
                event,
                root,
                graph,
                edges,
                machine,
                deferrals,
                timers,
                &mut visited,
            );
            if d.is_consumed() {
                let _ = id_set_insert(&mut fired, region);
            }
            match d {
                Dispatch::Fire(tr) => {
                    transitions.push(tr);
                },
                Dispatch::Deferred => {
                    held = true;
                },
                _ => {},
            }
        }
        i = i + 1;
    }
    proof {
        assert(leaves@.take(leaves@.len() as int) == leaves@);
    }
    if id_set_is_empty(&fired) && !held {
        let d = try_fire_first_matching_edge(root, event, graph, edges, machine, deferrals, timers);
        match d {
            Dispatch::Fire(tr) => {
                transitions.push(tr);
            },
            _ => {},
        }
    }
    transitions
}

} // verus!
