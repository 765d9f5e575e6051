//! Delayed edges: arming timers when a state is entered, cancelling them
//! when it is exited, and firing the edges whose time has come.
use crate::deferral::{buffers_of, held, readdressed, take_in, DeferralQueue};
use crate::dispatch::{
    always_choice, always_edge_listener, edge_valid, no_payload, request, validate_edge_basic,
};
use crate::edges::{edge_at, listed, EdgeTable, EdgeTableView, Trigger};
use crate::events::{EnterState, Event, ExitState, PhaseEvents, Transition, Via};
use crate::graph::{StateGraph, StateNode};
use crate::machine::StateMachine;
use crate::timers::{fresh_timer, pending_of, ticked, timer_of, EdgeTimer, TimerService, TimersView};
use vstd::prelude::*;

verus! {

/// Edge `e` is a delayed always-edge.
pub open spec fn delayed_always(t: EdgeTableView, e: usize) -> bool {
    match edge_at(t, e) {
        Some(edge) => edge.after is Some && edge.trigger == Trigger::Always,
        None => false,
    }
}

/// Edge `e` is delayed.
pub open spec fn delayed(t: EdgeTableView, e: usize) -> bool {
    match edge_at(t, e) {
        Some(edge) => edge.after is Some,
        None => false,
    }
}

/// The delay of edge `e` (0 for an edge without one).
pub open spec fn delay_of(t: EdgeTableView, e: usize) -> u64 {
    match edge_at(t, e) {
        Some(edge) => match edge.after {
            Some(a) => a.duration,
            None => 0,
        },
        None => 0,
    }
}

/// The timers after the delayed always-edges among `list` were armed.
pub open spec fn armed_on_enter(t: EdgeTableView, v: TimersView, list: Seq<usize>) -> TimersView {
    TimersView {
        timers: Map::new(
            |e: usize| v.timers.dom().contains(e) || (list.contains(e) && delayed_always(t, e)),
            |e: usize|
                if list.contains(e) && delayed_always(t, e) {
                    fresh_timer(delay_of(t, e))
                } else {
                    v.timers[e]
                },
        ),
        pending: v.pending,
    }
}

/// The timers after those of the delayed edges among `list` were cancelled.
pub open spec fn cancelled_on_exit(t: EdgeTableView, v: TimersView, list: Seq<usize>) -> TimersView {
    TimersView {
        timers: v.timers.remove_keys(Set::new(|e: usize| list.contains(e) && delayed(t, e))),
        pending: v.pending,
    }
}

/// The timers after the edges among `list` on which an event waited lost
/// event and timer.
pub open spec fn dropped_on_exit(v: TimersView, list: Seq<usize>) -> TimersView {
    let gone = Set::new(|e: usize| list.contains(e) && v.pending.dom().contains(e));
    TimersView { timers: v.timers.remove_keys(gone), pending: v.pending.remove_keys(gone) }
}

proof fn lemma_take_push_contains(list: Seq<usize>, k: int, x: usize)
    requires
        0 <= k < list.len(),
    ensures
        list.take(k + 1).contains(x) <==> (list.take(k).contains(x) || x == list[k]),
{
    let t0 = list.take(k);
    let t1 = list.take(k + 1);
    if t0.contains(x) {
        let j = choose|j: int| 0 <= j < t0.len() && t0[j] == x;
        assert(t1[j] == x);
    }
    if x == list[k] {
        assert(t1[k] == x);
    }
    if t1.contains(x) {
        let j = choose|j: int| 0 <= j < t1.len() && t1[j] == x;
        if j < k {
            assert(t0[j] == x);
        }
    }
}

/// When `enter_state.target` has been entered: arms a fresh timer on each
/// of its delayed always-edges.
pub fn start_after_on_enter(enter_state: &EnterState, edges: &EdgeTable, timers: &mut TimerService)
    ensures
        final(timers)@ == armed_on_enter(
            edges@,
            old(timers)@,
            listed(edges@, enter_state.target),
        ),
{
    let source = enter_state.target;
    let n = edges.transition_count(source);
    let ghost t = edges@;
    let ghost v = timers@;
    let ghost list = listed(t, source);
    let mut k: usize = 0;
    proof {
        let a = armed_on_enter(t, v, list.take(0));
        assert(a.timers =~= v.timers);
    }
    while k < n
        invariant
            t == edges@,
            list == listed(t, source),
            n == list.len(),
            k <= n,
            timers@ == armed_on_enter(t, v, list.take(k as int)),
        decreases n - k,
    {
        let edge = edges.edge_of(source, k);
        let ghost before = timers@;
        let mut hit = false;
        match edges.get(edge) {
            Some(e) => {
                let always = match e.trigger {
                    Trigger::Always => true,
                    Trigger::OnEvent(_) => false,
                };
                match e.after {
                    Some(after) => {
                        if always {
                            timers.arm(edge, after.duration);
                            hit = true;
                            proof {
                                assert(edge_at(t, edge) == Some(e@));
                                assert(delay_of(t, edge) == after.duration);
                            }
                        }
                    },
                    None => {},
                }
            },
            None => {},
        }
        proof {
            assert(hit == delayed_always(t, edge));
            assert(hit ==> timers@.timers == before.timers.insert(
                edge,
                fresh_timer(delay_of(t, edge)),
            ));
            assert(!hit ==> timers@ == before);
            let next = armed_on_enter(t, v, list.take(k + 1));
            let prev = armed_on_enter(t, v, list.take(k as int));
            assert(before == prev);
            assert forall|x: usize| #[trigger]
                timers@.timers.dom().contains(x) == next.timers.dom().contains(x) && (
                timers@.timers.dom().contains(x) ==> timers@.timers[x] == next.timers[x]) by {
                lemma_take_push_contains(list, k as int, x);
                if x != edge {
                    assert(timers@.timers.dom().contains(x) == prev.timers.dom().contains(x));
                }
            }
            assert(timers@.timers =~= next.timers);
        }
        k = k + 1;
    }
    proof {
        assert(list.take(n as int) == list);
    }
}

/// When `exit_state.target` has been exited: cancels the timers of its
/// delayed edges.
pub fn cancel_after_on_exit(exit_state: &ExitState, edges: &EdgeTable, timers: &mut TimerService)
    ensures
        final(timers)@ == cancelled_on_exit(
            edges@,
            old(timers)@,
            listed(edges@, exit_state.target),
        ),
{
    let source = exit_state.target;
    let n = edges.transition_count(source);
    let ghost t = edges@;
    let ghost v = timers@;
    let ghost list = listed(t, source);
    let mut k: usize = 0;
    proof {
        let a = cancelled_on_exit(t, v, list.take(0));
        assert(a.timers =~= v.timers);
    }
    while k < n
        invariant
            t == edges@,
            list == listed(t, source),
            n == list.len(),
            k <= n,
            timers@ == cancelled_on_exit(t, v, list.take(k as int)),
        decreases n - k,
    {
        let edge = edges.edge_of(source, k);
        let mut hit = false;
        match edges.get(edge) {
            Some(e) => {
                if e.after.is_some() {
                    timers.cancel(edge);
                    hit = true;
                }
            },
            None => {},
        }
        proof {
            assert(hit == delayed(t, edge));
            let next = cancelled_on_exit(t, v, list.take(k + 1));
            assert forall|x: usize|
                list.take(k + 1).contains(x) <==> (list.take(k as int).contains(x) || x == edge) by {
                lemma_take_push_contains(list, k as int, x);
            }
            assert(timers@.timers =~= next.timers);
        }
        k = k + 1;
    }
    proof {
        assert(list.take(n as int) == list);
    }
}

/// When `exit_state.target` has been exited: drops the events that wait on
/// its edges, with their timers.
pub fn cancel_pending_event_on_exit(
    exit_state: &ExitState,
    edges: &EdgeTable,
    timers: &mut TimerService,
)
    ensures
        final(timers)@ == dropped_on_exit(old(timers)@, listed(edges@, exit_state.target)),
{
    let source = exit_state.target;
    let n = edges.transition_count(source);
    let ghost t = edges@;
    let ghost v = timers@;
    let ghost list = listed(t, source);
    let mut k: usize = 0;
    proof {
        let a = dropped_on_exit(v, list.take(0));
        assert(a.timers =~= v.timers);
        assert(a.pending =~= v.pending);
    }
    while k < n
        invariant
            t == edges@,
            list == listed(t, source),
            n == list.len(),
            k <= n,
            timers@ == dropped_on_exit(v, list.take(k as int)),
        decreases n - k,
    {
        let edge = edges.edge_of(source, k);
        if timers.pending(edge).is_some() {
            timers.cleanup(edge);
        }
        proof {
            let next = dropped_on_exit(v, list.take(k + 1));
            assert forall|x: usize|
                list.take(k + 1).contains(x) <==> (list.take(k as int).contains(x) || x == edge) by {
                lemma_take_push_contains(list, k as int, x);
            }
            assert(timers@.timers =~= next.timers);
            assert(timers@.pending =~= next.pending);
        }
        k = k + 1;
    }
    proof {
        assert(list.take(n as int) == list);
    }
}

/// When `exit_state.target` has been exited: hands out the events that the
/// state held back, addressed to the root of the machine so that they are
/// sent again, and empties the state's buffers.
pub fn replay_deferred_event(
    exit_state: &ExitState,
    machine_root: usize,
    deferrals: &mut DeferralQueue,
) -> (events: Vec<Event>)
    ensures
        events@ == readdressed(held(buffers_of(old(deferrals)@, exit_state.target)), machine_root),
        final(deferrals)@ == take_in(old(deferrals)@, exit_state.target),
{
    let taken = deferrals.take(exit_state.target);
    let ghost f = |e: Event| Event { target: machine_root, ..e };
    let mut events: Vec<Event> = Vec::new();
    let mut i: usize = 0;
    while i < taken.len()
        invariant
            i <= taken.len(),
            f == (|e: Event| Event { target: machine_root, ..e }),
            events@ == taken@.take(i as int).map_values(f),
        decreases taken.len() - i,
    {
        let e = taken[i];
        events.push(Event { kind: e.kind, target: machine_root, phases: e.phases });
        proof {
            assert(taken@.take(i + 1) == taken@.take(i as int).push(e));
            assert(taken@.take(i + 1).map_values(f) =~= taken@.take(i as int).map_values(f).push(
                f(e),
            ));
        }
        i = i + 1;
    }
    proof {
        assert(taken@.take(taken@.len() as int) == taken@);
    }
    events
}

/// What a changed guard set leads to on an always-edge.
pub enum Recheck {
    /// Nothing: the edge is not an always-edge of an active source that has
    /// become free.
    Nothing,
    /// The edge is delayed: its timer is armed.
    Arm(u64),
    /// The always-edges of the source are tried again, and this one fires.
    Fire(Transition),
}

/// What the changed guards of edge `e` lead to. For an always-edge that is
/// listed on its active source, is free of guards and has a target: when it
/// is delayed, its timer is armed; when it is not, the always-edges of its
/// source are tried again in priority order and the first ready one fires.
pub open spec fn recheck(g: Seq<StateNode>, t: EdgeTableView, active: Set<usize>, e: usize) -> Recheck {
    match edge_at(t, e) {
        Some(edge) => if edge.trigger == Trigger::Always && active.contains(edge.source)
            && edge.valid() && listed(t, edge.source).contains(e) {
            match edge.after {
                Some(a) => Recheck::Arm(a.duration),
                None => match always_choice(t, edge.source) {
                    Some(first) => Recheck::Fire(request(g, edge.source, first, no_payload())),
                    None => Recheck::Nothing,
                },
            }
        } else {
            Recheck::Nothing
        },
        None => Recheck::Nothing,
    }
}

/// The timers and the transitions after the edges of `changed` were
/// rechecked in turn.
pub open spec fn rechecked(
    g: Seq<StateNode>,
    t: EdgeTableView,
    active: Set<usize>,
    v: TimersView,
    changed: Seq<usize>,
) -> (TimersView, Seq<Transition>)
    decreases changed.len(),
{
    if changed.len() == 0 {
        (v, Seq::empty())
    } else {
        let (v1, trs) = rechecked(g, t, active, v, changed.drop_last());
        match recheck(g, t, active, changed.last()) {
            Recheck::Nothing => (v1, trs),
            Recheck::Arm(d) => (
                TimersView { timers: v1.timers.insert(changed.last(), fresh_timer(d)), pending: v1.pending },
                trs,
            ),
            Recheck::Fire(tr) => (v1, trs.push(tr)),
        }
    }
}

/// When the guards of the edges of `changed` have changed: every
/// always-edge among them that has become free while its source is active
/// fires, or is armed when it is delayed.
pub fn check_always_on_guards_changed(
    changed: &Vec<usize>,
    graph: &StateGraph,
    edges: &EdgeTable,
    machine: &StateMachine,
    timers: &mut TimerService,
) -> (transitions: Vec<Transition>)
    ensures
        (final(timers)@, transitions@) == rechecked(
            graph@,
            edges@,
            machine.active_set(),
            old(timers)@,
            changed@,
        ),
{
    proof {
        use_type_invariant(graph);
    }
    let mut transitions: Vec<Transition> = Vec::new();
    let ghost g = graph@;
    let ghost t = edges@;
    let ghost active = machine.active_set();
    let ghost v = timers@;
    let mut i: usize = 0;
    while i < changed.len()
        invariant
            graph.wf(),
            g == graph@,
            t == edges@,
            active == machine.active_set(),
            i <= changed.len(),
            (timers@, transitions@) == rechecked(g, t, active, v, changed@.take(i as int)),
        decreases changed.len() - i,
    {
        let edge = changed[i];
        proof {
            assert(changed@.take(i + 1).drop_last() == changed@.take(i as int));
            assert(changed@.take(i + 1).last() == edge);
        }
        match edges.get(edge) {
            Some(e) => {
                let always = match e.trigger {
                    Trigger::Always => true,
                    Trigger::OnEvent(_) => false,
                };
                let source = e.source;
                if always && machine.is_active(&source) && e.guards.check() && edges.is_listed(
                    source,
                    edge,
                ) && e.target.is_some() {
                    match e.after {
                        Some(after) => {
                            let ghost before = timers@;
                            timers.arm(edge, after.duration);
                            proof {
                                assert(timers@ == (TimersView {
                                    timers: before.timers.insert(edge, fresh_timer(after.duration)),
                                    pending: before.pending,
                                }));
                            }
                        },
                        None => {
                            match always_edge_listener(&EnterState { target: source }, graph, edges) {
                                Some(tr) => {
                                    transitions.push(tr);
                                },
                                None => {},
                            }
                        },
                    }
                }
            },
            None => {},
        }
        i = i + 1;
    }
    proof {
        assert(changed@.take(changed@.len() as int) == changed@);
    }
    transitions
}

/// The timers of the delayed always-edges of one source after `delta` has
/// passed, and the edge that fires. The edges are tried in priority order.
/// An edge whose timer just finished loses the timer; it fires when it is
/// valid, and then the edges after it are left alone.
pub open spec fn tick_edges(
    t: EdgeTableView,
    timers: Map<usize, EdgeTimer>,
    list: Seq<usize>,
    delta: u64,
) -> (Map<usize, EdgeTimer>, Option<usize>)
    decreases list.len(),
{
    if list.len() == 0 {
        (timers, None)
    } else {
        let e = list[0];
        if delayed_always(t, e) && timers.dom().contains(e) {
            let tk = ticked(timers[e], delta);
            if !tk.just_finished {
                tick_edges(t, timers.insert(e, tk), list.skip(1), delta)
            } else if !edge_valid(t, e) {
                tick_edges(t, timers.remove(e), list.skip(1), delta)
            } else {
                (timers.remove(e), Some(e))
            }
        } else {
            tick_edges(t, timers, list.skip(1), delta)
        }
    }
}

/// The timers and the transitions after `delta` has passed for the
/// always-edges of the active states below index `hi`, in ascending order of
/// the states.
pub open spec fn tick_sources(
    g: Seq<StateNode>,
    t: EdgeTableView,
    active: Set<usize>,
    timers: Map<usize, EdgeTimer>,
    delta: u64,
    hi: usize,
) -> (Map<usize, EdgeTimer>, Seq<Transition>)
    decreases hi,
{
    if hi == 0 {
        (timers, Seq::empty())
    } else {
        let source = (hi - 1) as usize;
        let (m, trs) = tick_sources(g, t, active, timers, delta, source);
        if active.contains(source) {
            let (m2, fired) = tick_edges(t, m, listed(t, source), delta);
            match fired {
                Some(e) => (m2, trs.push(request(g, source, e, no_payload()))),
                None => (m2, trs),
            }
        } else {
            (m, trs)
        }
    }
}

/// Lets `delta` pass for the delayed always-edges of one source.
fn tick_source(
    source: usize,
    delta: u64,
    edges: &EdgeTable,
    timers: &mut TimerService,
) -> (fired: Option<usize>)
    ensures
        (final(timers)@.timers, fired) == tick_edges(
            edges@,
            old(timers)@.timers,
            listed(edges@, source),
            delta,
        ),
        final(timers)@.pending == old(timers)@.pending,
{
    let n = edges.transition_count(source);
    let ghost t = edges@;
    let ghost list = listed(t, source);
    let ghost whole = tick_edges(t, timers@.timers, list, delta);
    let mut k: usize = 0;
    proof {
        assert(list.skip(0) == list);
    }
    while k < n
        invariant
            t == edges@,
            list == listed(t, source),
            n == list.len(),
            k <= n,
            whole == tick_edges(t, old(timers)@.timers, list, delta),
            whole == tick_edges(t, timers@.timers, list.skip(k as int), delta),
            timers@.pending == old(timers)@.pending,
        decreases n - k,
    {
        let edge = edges.edge_of(source, k);
        proof {
            assert(list.skip(k as int)[0] == edge);
            assert(list.skip(k as int).skip(1) == list.skip(k + 1));
        }
        let is_delayed_always = match edges.get(edge) {
            Some(e) => {
                let always = match e.trigger {
                    Trigger::Always => true,
                    Trigger::OnEvent(_) => false,
                };
                always && e.after.is_some()
            },
            None => false,
        };
        if is_delayed_always {
            match timers.timer(edge) {
                Some(timer) => {
                    let mut tk = timer;
                    tk.tick(delta);
                    if !tk.just_finished() {
                        timers.set_timer(edge, tk);
                    } else if !validate_edge_basic(edges, edge) {
                        timers.cancel(edge);
                    } else {
                        timers.cancel(edge);
                        return Some(edge);
                    }
                },
                None => {},
            }
        }
        k = k + 1;
    }
    None
}

/// Lets `delta` pass for the delayed always-edges of all active states and
/// returns the transitions of the edges whose time has come: at most one
/// for each source.
pub fn tick_after_system(
    delta: u64,
    graph: &StateGraph,
    edges: &EdgeTable,
    machine: &StateMachine,
    timers: &mut TimerService,
) -> (transitions: Vec<Transition>)
    ensures
        (final(timers)@.timers, transitions@) == tick_sources(
            graph@,
            edges@,
            machine.active_set(),
            old(timers)@.timers,
            delta,
            graph@.len() as usize,
        ),
        final(timers)@.pending == old(timers)@.pending,
{
    proof {
        use_type_invariant(graph);
    }
    let mut transitions: Vec<Transition> = Vec::new();
    let n = graph.len();
    let ghost g = graph@;
    let ghost t = edges@;
    let ghost active = machine.active_set();
    let ghost v = timers@.timers;
    let mut source: usize = 0;
    while source < n
        invariant
            graph.wf(),
            g == graph@,
            t == edges@,
            active == machine.active_set(),
            n == g.len(),
            source <= n,
            (timers@.timers, transitions@) == tick_sources(g, t, active, v, delta, source),
            timers@.pending == old(timers)@.pending,
        decreases n - source,
    {
        if machine.is_active(&source) {
            match tick_source(source, delta, edges, timers) {
                Some(edge) => {
                    let root = graph.root_ancestor(source);
                    transitions.push(
                        Transition {
                            machine: root,
                            source,
                            edge: Via::Edge(edge),
                            payload: PhaseEvents::none(),
                        },
                    );
                },
                None => {},
            }
        }
        source = source + 1;
    }
    transitions
}

/// Whether an event waits on edge `e` for the edge's timer: the edge has a
/// timer and a waiting event of the type it reacts to.
pub open spec fn event_waits(t: EdgeTableView, v: TimersView, e: usize) -> bool {
    match (edge_at(t, e), timer_of(v, e), pending_of(v, e)) {
        (Some(edge), Some(_), Some(ev)) => edge.trigger == Trigger::OnEvent(ev.kind),
        _ => false,
    }
}

/// What `delta` does to the waiting event of one edge.
pub enum EventTick {
    /// Nothing waits, or the edge is no longer delayed.
    Idle,
    /// Timer and event are dropped: the source is no longer active, or the
    /// timer finished on an edge that is not valid.
    Dropped,
    /// The timer runs on.
    Running(EdgeTimer),
    /// The timer finished: timer and event are dropped and the edge fires.
    Fired(Transition),
}

/// What `delta` does to the waiting event of edge `e`.
pub open spec fn event_tick(
    g: Seq<StateNode>,
    t: EdgeTableView,
    active: Set<usize>,
    v: TimersView,
    e: usize,
    delta: u64,
) -> EventTick {
    if !event_waits(t, v, e) || !delayed(t, e) {
        EventTick::Idle
    } else {
        let edge = t.edges[e as int];
        if !active.contains(edge.source) {
            EventTick::Dropped
        } else {
            let tk = ticked(v.timers[e], delta);
            if !tk.just_finished {
                EventTick::Running(tk)
            } else if !edge.valid() {
                EventTick::Dropped
            } else {
                EventTick::Fired(request(g, edge.source, e, v.pending[e].phases))
            }
        }
    }
}

/// The timers after `delta` has passed for the waiting event of edge `e`.
pub open spec fn after_event_tick(v: TimersView, e: usize, tick: EventTick) -> TimersView {
    match tick {
        EventTick::Idle => v,
        EventTick::Running(tk) => TimersView { timers: v.timers.insert(e, tk), pending: v.pending },
        _ => TimersView { timers: v.timers.remove(e), pending: v.pending.remove(e) },
    }
}

/// The timers and the transitions after `delta` has passed for the waiting
/// events of the edges below index `hi`, in ascending order of the edges.
pub open spec fn tick_events(
    g: Seq<StateNode>,
    t: EdgeTableView,
    active: Set<usize>,
    v: TimersView,
    delta: u64,
    hi: usize,
) -> (TimersView, Seq<Transition>)
    decreases hi,
{
    if hi == 0 {
        (v, Seq::empty())
    } else {
        let e = (hi - 1) as usize;
        let (v1, trs) = tick_events(g, t, active, v, delta, e);
        let tick = event_tick(g, t, active, v1, e, delta);
        (
            after_event_tick(v1, e, tick),
            match tick {
                EventTick::Fired(tr) => trs.push(tr),
                _ => trs,
            },
        )
    }
}

/// Lets `delta` pass for the events that wait on delayed event-edges and
/// returns the transitions of the edges whose time has come. An event whose
/// source is no longer active, or whose edge is not valid when the time has
/// come, is dropped.
pub fn tick_after_event_timers(
    delta: u64,
    graph: &StateGraph,
    edges: &EdgeTable,
    machine: &StateMachine,
    timers: &mut TimerService,
) -> (transitions: Vec<Transition>)
    ensures
        (final(timers)@, transitions@) == tick_events(
            graph@,
            edges@,
            machine.active_set(),
            old(timers)@,
            delta,
            edges@.edges.len() as usize,
        ),
{
    proof {
        use_type_invariant(graph);
    }
    let mut transitions: Vec<Transition> = Vec::new();
    let n = edges.len();
    let ghost g = graph@;
    let ghost t = edges@;
    let ghost active = machine.active_set();
    let ghost v = timers@;
    let mut e: usize = 0;
    while e < n
        invariant
            graph.wf(),
            g == graph@,
            t == edges@,
            active == machine.active_set(),
            n == t.edges.len(),
            e <= n,
            (timers@, transitions@) == tick_events(g, t, active, v, delta, e),
        decreases n - e,
    {
        let ghost before = timers@;
        match (edges.get(e), timers.timer(e), timers.pending(e)) {
            (Some(edge), Some(timer), Some(ev)) => {
                let listens = match edge.trigger {
                    Trigger::Always => false,
                    Trigger::OnEvent(kind) => kind == ev.kind,
                };
                if listens && edge.after.is_some() {
                    let source = edge.source;
                    if !machine.is_active(&source) {
                        timers.cleanup(e);
                    } else {
                        let mut tk = timer;
                        tk.tick(delta);
                        if !tk.just_finished() {
                            timers.set_timer(e, tk);
                            proof {
                                assert(timers@ == (TimersView {
                                    timers: before.timers.insert(e, tk),
                                    pending: before.pending,
                                }));
                            }
                        } else if !validate_edge_basic(edges, e) {
                            timers.cleanup(e);
                        } else {
                            timers.cleanup(e);
                            let root = graph.root_ancestor(source);
                            transitions.push(
                                Transition {
                                    machine: root,
                                    source,
                                    edge: Via::Edge(e),
                                    payload: ev.phases,
                                },
                            );
                        }
                    }
                    proof {
                        let tick = event_tick(g, t, active, before, e, delta);
                        assert(!(tick is Idle));
                        if !(tick is Running) {
                            assert(timers@ == (TimersView {
                                timers: before.timers.remove(e),
                                pending: before.pending.remove(e),
                            }));
                        }
                    }
                }
            },
            _ => {},
        }
        e = e + 1;
    }
    transitions
}

} // verus!
