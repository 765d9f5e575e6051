use bevy_gearbox::chart::{Chart, Stimulus};
use bevy_gearbox::deferral::{DeferEvent, DeferralQueue};
use bevy_gearbox::dispatch::{
    always_edge_listener, edge_event_listener, find_parallel_region_root,
    try_fire_first_matching_edge, try_fire_first_matching_edge_on_branch, validate_edge_basic,
    Dispatch,
};
use bevy_gearbox::edges::{After, Edge, EdgeKind, EdgeTable, ResetEdge, ResetScope, Trigger};
use bevy_gearbox::events::{
    EnterState, Event, ExitState, NoEvent, Notification, PhaseEvents, Reset, ResetRegion,
    Transition, TransitionActions, TransitionEvent, Via,
};
use bevy_gearbox::graph::StateGraph;
use bevy_gearbox::guards::{Guard, Guards};
use bevy_gearbox::machine::StateMachine;
use bevy_gearbox::parameter::{
    apply_bool_param_guards, apply_int_param_guards, guard_key_for_bool, guard_key_for_int,
    sync_bool_param, sync_int_param, BoolEquals, BoolParam, BoolParamBinding, IntInRange,
    IntParam, IntParamBinding,
};
use bevy_gearbox::reset::{reset_on_transition_actions, reset_state_region};
use bevy_gearbox::resting::{RestingState, StateAggregator};
use bevy_gearbox::timers::{EdgeTimer, TimerService};
use bevy_gearbox::timing::{
    cancel_after_on_exit, cancel_pending_event_on_exit, check_always_on_guards_changed,
    replay_deferred_event, start_after_on_enter, tick_after_event_timers, tick_after_system,
};
use bevy_gearbox::history::HistoryStore;
use bevy_time::{Timer, TimerMode};
use std::time::Duration;

const LIMIT: usize = 10_000;
const X: u64 = 1;
const Y: u64 = 2;

fn child(graph: &mut StateGraph, parent: usize) -> usize {
    graph.add_child(parent).expect("parent is a state of the graph")
}

fn started(graph: StateGraph, edges: EdgeTable, root: usize) -> Chart {
    let mut chart = Chart::new(graph, edges, root);
    chart.run(LIMIT);
    assert!(chart.is_idle());
    chart
}

fn send(chart: &mut Chart, kind: u64, target: usize) -> Vec<Notification> {
    chart.submit(Stimulus::Event(Event::new(kind, target)));
    let out = chart.run(LIMIT);
    assert!(chart.is_idle());
    out
}

fn request(root: usize, source: usize, edge: usize) -> Transition {
    Transition { machine: root, source, edge: Via::Edge(edge), payload: PhaseEvents::none() }
}

#[test]
fn test_resting_state_blocking() {
    let mut resting_state = RestingState::new();
    assert!(!resting_state.is_blocked());

    resting_state.add_blocker("stunned");
    assert!(resting_state.is_blocked());
    assert!(resting_state.is_blocked_by("stunned"));

    resting_state.remove_blocker("stunned");
    assert!(!resting_state.is_blocked());
}

#[test]
fn resting_state_keeps_its_blockers_apart() {
    let mut resting = RestingState::new();
    resting.add_blocker("stunned");
    resting.add_blocker("rooted");
    assert!(!resting.is_blocked_by("silenced"));
    assert_eq!(resting.get_blockers().len(), 2);
    resting.remove_blocker("silenced");
    resting.remove_blocker("stunned");
    assert!(resting.is_blocked());
    assert!(resting.is_blocked_by("rooted"));
    assert!(!resting.is_blocked_by("stunned"));
}

#[test]
fn guards_block_until_the_set_is_empty() {
    let mut guards = Guards::new();
    assert!(guards.check());
    guards.add_guard("lock");
    guards.add_guard("lock".to_string());
    guards.add_guard("key");
    assert!(!guards.check());
    assert!(guards.has_guard("lock"));
    assert!(guards.has_guard("key".to_string()));
    assert!(!guards.has_guard("door"));
    guards.remove_guard("door");
    guards.remove_guard("lock");
    assert!(!guards.has_guard("lock"));
    assert!(!guards.check());
    guards.remove_guard("key".to_string());
    assert!(guards.check());

    let named = Guards::init(vec!["a", "b", "a"]);
    assert_eq!(named.guards.len(), 2);
    assert!(named.has_guard("a") && named.has_guard("b"));
    assert!(Guards::init(Vec::<String>::new()).check());
    assert_eq!("lock".name(), "lock".to_string());
    assert_eq!("lock".to_string().name(), "lock".to_string());
}

#[test]
fn edge_table_lists_edges_by_source_in_the_order_added() {
    let mut edges = EdgeTable::new();
    assert_eq!(edges.len(), 0);
    assert_eq!(edges.transition_count(0), 0);
    let e0 = edges.add_edge(Edge::new(2, Some(0), Trigger::OnEvent(X)));
    let e1 = edges.add_edge(Edge::new(0, Some(1), Trigger::Always));
    let e2 = edges.add_edge(Edge::new(2, None, Trigger::OnEvent(Y)));
    assert_eq!((e0, e1, e2), (0, 1, 2));
    assert_eq!(edges.len(), 3);
    assert_eq!(edges.transition_count(2), 2);
    assert_eq!(edges.transition(2, 0), Some(e0));
    assert_eq!(edges.transition(2, 1), Some(e2));
    assert_eq!(edges.transition(2, 2), None);
    assert_eq!(edges.transition(1, 0), None);
    assert_eq!(edges.transition(7, 0), None);
    assert!(edges.is_listed(0, e1));
    assert!(!edges.is_listed(0, e0));
    assert!(!edges.is_listed(9, e0));
    assert!(edges.get(3).is_none());
    let edge = edges.get(e1).expect("the edge was added");
    assert_eq!((edge.source, edge.target, edge.trigger), (0, Some(1), Trigger::Always));
    assert_eq!(edge.kind, EdgeKind::External);
    assert_eq!(EdgeKind::default(), EdgeKind::External);
    assert_eq!(ResetScope::default(), ResetScope::Source);
    assert_eq!(After::new(50).duration, 50);

    assert!(validate_edge_basic(&edges, e0));
    assert!(!validate_edge_basic(&edges, e2), "an edge without a target is not valid");
    assert!(!validate_edge_basic(&edges, 3), "a missing edge is not valid");
    assert!(edges.add_guard(e0, "closed"));
    assert!(!validate_edge_basic(&edges, e0), "a guarded edge is not valid");
    assert!(edges.remove_guard(e0, "closed"));
    assert!(validate_edge_basic(&edges, e0));
    assert!(edges.set_target(e0, None));
    assert!(!validate_edge_basic(&edges, e0));
    assert!(!edges.add_guard(3, "x"));
    assert!(!edges.remove_guard(3, "x"));
    assert!(!edges.set_guards(3, Guards::new()));
    assert!(!edges.set_target(3, Some(0)));
}

#[test]
fn timer_counts_up_and_finishes_exactly_once() {
    let mut timer = EdgeTimer::new(50);
    assert_eq!(timer, EdgeTimer { elapsed: 0, duration: 50, finished: false, just_finished: false });
    timer.tick(20);
    assert_eq!(timer, EdgeTimer { elapsed: 20, duration: 50, finished: false, just_finished: false });
    assert!(!timer.just_finished());
    timer.tick(29);
    assert_eq!(timer.elapsed, 49);
    assert!(!timer.finished);
    timer.tick(1);
    assert_eq!(timer, EdgeTimer { elapsed: 50, duration: 50, finished: true, just_finished: true });
    assert!(timer.just_finished());
    timer.tick(100);
    assert_eq!(timer, EdgeTimer { elapsed: 50, duration: 50, finished: true, just_finished: false });

    let mut long = EdgeTimer::new(u64::MAX);
    long.tick(u64::MAX - 1);
    assert_eq!(long.elapsed, u64::MAX - 1);
    assert!(!long.finished);
    long.tick(7);
    assert_eq!(long.elapsed, u64::MAX, "time passed is held at the largest time");
    assert!(long.finished);

    let mut instant = EdgeTimer::new(0);
    instant.tick(0);
    assert!(instant.just_finished());
}

#[test]
fn timer_service_keeps_timers_and_waiting_events_by_edge() {
    let mut timers = TimerService::new();
    assert_eq!(timers.timer(3), None);
    assert_eq!(timers.pending(3), None);
    timers.arm(3, 40);
    assert_eq!(timers.timer(3), Some(EdgeTimer::new(40)));
    assert_eq!(timers.timer(2), None);
    let waiting = Event::new(X, 0);
    timers.set_pending(3, waiting);
    timers.set_pending(1, Event::new(Y, 0));
    assert_eq!(timers.pending(3), Some(waiting));
    let mut ticked = EdgeTimer::new(40);
    ticked.tick(10);
    timers.set_timer(3, ticked);
    assert_eq!(timers.timer(3).map(|t| t.elapsed), Some(10));
    timers.cancel(3);
    assert_eq!(timers.timer(3), None);
    assert_eq!(timers.pending(3), Some(waiting), "cancelling the timer keeps the event");
    timers.arm(3, 40);
    timers.cleanup(3);
    assert_eq!((timers.timer(3), timers.pending(3)), (None, None));
    assert_eq!(timers.pending(1), Some(Event::new(Y, 0)));
    timers.cancel(99);
    timers.cleanup(99);
}

#[test]
fn deferral_buffer_holds_the_last_event_and_gives_it_once() {
    let mut buffer = DeferEvent::new(X);
    assert_eq!(buffer.take_deferred(), None);
    buffer.defer_event(Event::new(X, 1));
    buffer.defer_event(Event::new(X, 2));
    assert_eq!(buffer.take_deferred(), Some(Event::new(X, 2)));
    assert_eq!(buffer.take_deferred(), None);

    let mut queue = DeferralQueue::new();
    assert!(!queue.has_buffer(4, X));
    queue.defer(4, Event::new(X, 4));
    assert_eq!(queue.take(4), vec![]);
    queue.add_buffer(4, X);
    queue.add_buffer(4, Y);
    queue.add_buffer(4, X);
    assert!(queue.has_buffer(4, X) && queue.has_buffer(4, Y));
    assert!(!queue.has_buffer(3, X));
    queue.defer(4, Event::new(Y, 9));
    queue.defer(4, Event::new(X, 8));
    queue.defer(4, Event::new(X, 7));
    queue.defer(4, Event::new(3, 7));
    assert_eq!(queue.take(4), vec![Event::new(X, 7), Event::new(Y, 9)]);
    assert_eq!(queue.take(4), vec![]);
    assert!(queue.has_buffer(4, X), "the buffers stay when they are emptied");

    queue.defer(4, Event::new(X, 4));
    let replayed = replay_deferred_event(&ExitState { target: 4 }, 0, &mut queue);
    assert_eq!(replayed, vec![Event::new(X, 0)], "a replayed event is addressed to the root");
    assert_eq!(replay_deferred_event(&ExitState { target: 4 }, 0, &mut queue), vec![]);
}

// root(0) -> { s(1), t(2), u(3), v(4) }
fn flat() -> (StateGraph, usize, usize, usize, usize, usize) {
    let mut graph = StateGraph::new();
    let root = graph.add_root();
    let s = child(&mut graph, root);
    let t = child(&mut graph, root);
    let u = child(&mut graph, root);
    let v = child(&mut graph, root);
    assert!(graph.set_initial(root, s));
    (graph, root, s, t, u, v)
}

#[test]
fn deferred_event_is_held_back_and_sent_again_once_after_the_exit() {
    let (graph, root, s, t, u, v) = flat();
    let mut edges = EdgeTable::new();
    edges.add_edge(Edge::new(s, Some(t), Trigger::OnEvent(Y)));
    edges.add_edge(Edge::new(s, Some(v), Trigger::OnEvent(X)));
    edges.add_edge(Edge::new(t, Some(u), Trigger::OnEvent(X)));
    edges.add_edge(Edge::new(u, Some(v), Trigger::OnEvent(X)));
    let mut chart = started(graph, edges, root);
    chart.deferrals.add_buffer(s, X);

    assert_eq!(send(&mut chart, X, s), vec![], "the held event is not dispatched");
    assert!(chart.machine.is_leaf_active(&s));
    assert!(chart.timers.pending(1).is_none());

    send(&mut chart, Y, root);
    assert!(
        chart.machine.is_leaf_active(&u),
        "after the exit of s the held event went to the root and took t to u"
    );
    assert!(!chart.machine.is_leaf_active(&v), "the held event was sent again only once");
    assert_eq!(chart.deferrals.take(s), vec![]);
}

#[test]
fn dispatch_at_a_state_defers_arms_fires_or_ignores() {
    let (graph, root, s, t, _u, _v) = flat();
    let mut edges = EdgeTable::new();
    let mut blocked = Edge::new(s, Some(t), Trigger::OnEvent(X));
    blocked.guards = Guards::init(vec!["no"]);
    edges.add_edge(blocked);
    edges.add_edge(Edge::new(s, None, Trigger::OnEvent(X)));
    edges.add_edge(Edge::new(s, None, Trigger::Always));
    let fires = edges.add_edge(Edge::new(s, Some(t), Trigger::OnEvent(X)));
    let mut delayed = Edge::new(s, Some(t), Trigger::OnEvent(Y));
    delayed.after = Some(After::new(30));
    let arms = edges.add_edge(delayed);
    let mut chart = started(graph, edges, root);
    let x = Event { kind: X, target: root, phases: PhaseEvents { exit: Some(1), effect: None, entry: Some(2) } };

    let d = try_fire_first_matching_edge(
        s, &x, &chart.graph, &chart.edges, &chart.machine, &mut chart.deferrals, &mut chart.timers,
    );
    assert_eq!(
        d,
        Dispatch::Fire(Transition { machine: root, source: s, edge: Via::Edge(fires), payload: x.phases })
    );
    assert!(d.is_consumed());

    let y = Event::new(Y, root);
    let d = try_fire_first_matching_edge(
        s, &y, &chart.graph, &chart.edges, &chart.machine, &mut chart.deferrals, &mut chart.timers,
    );
    assert_eq!(d, Dispatch::Armed(arms));
    assert!(d.is_consumed());
    assert_eq!(chart.timers.timer(arms), Some(EdgeTimer::new(30)));
    assert_eq!(chart.timers.pending(arms), Some(y));

    let d = try_fire_first_matching_edge(
        t, &x, &chart.graph, &chart.edges, &chart.machine, &mut chart.deferrals, &mut chart.timers,
    );
    assert_eq!(d, Dispatch::Ignored);
    assert!(!d.is_consumed());

    chart.deferrals.add_buffer(s, X);
    chart.deferrals.add_buffer(t, X);
    let d = try_fire_first_matching_edge(
        s, &x, &chart.graph, &chart.edges, &chart.machine, &mut chart.deferrals, &mut chart.timers,
    );
    assert_eq!(d, Dispatch::Deferred);
    assert!(!d.is_consumed());
    assert_eq!(chart.deferrals.take(s), vec![x]);
    let d = try_fire_first_matching_edge(
        t, &x, &chart.graph, &chart.edges, &chart.machine, &mut chart.deferrals, &mut chart.timers,
    );
    assert_eq!(d, Dispatch::Ignored, "an inactive state does not hold events back");
}

#[test]
fn event_for_the_root_fires_one_edge_per_region() {
    let mut graph = StateGraph::new();
    let root = graph.add_root();
    let p = child(&mut graph, root);
    assert!(graph.set_parallel(p, true));
    let r1 = child(&mut graph, p);
    let r2 = child(&mut graph, p);
    let l1 = child(&mut graph, r1);
    let l2 = child(&mut graph, r2);
    let m1 = child(&mut graph, r1);
    let m2 = child(&mut graph, r2);
    assert!(graph.set_initial(root, p));
    assert!(graph.set_initial(r1, l1));
    assert!(graph.set_initial(r2, l2));
    assert_eq!(find_parallel_region_root(l1, &graph), r1);
    assert_eq!(find_parallel_region_root(r2, &graph), r2);
    assert_eq!(find_parallel_region_root(p, &graph), p);
    assert_eq!(find_parallel_region_root(root, &graph), root);

    let mut edges = EdgeTable::new();
    let from_l1 = edges.add_edge(Edge::new(l1, Some(m1), Trigger::OnEvent(X)));
    edges.add_edge(Edge::new(r1, Some(m1), Trigger::OnEvent(X)));
    let from_r2 = edges.add_edge(Edge::new(r2, Some(m2), Trigger::OnEvent(X)));
    edges.add_edge(Edge::new(p, Some(root), Trigger::OnEvent(X)));
    let from_root = edges.add_edge(Edge::new(root, Some(p), Trigger::OnEvent(Y)));
    let mut chart = started(graph, edges, root);

    let fired = edge_event_listener(
        &Event::new(X, root), &chart.graph, &chart.edges, &chart.machine, &mut chart.deferrals, &mut chart.timers,
    );
    assert_eq!(fired, vec![request(root, l1, from_l1), request(root, r2, from_r2)]);

    let fired = edge_event_listener(
        &Event::new(Y, root), &chart.graph, &chart.edges, &chart.machine, &mut chart.deferrals, &mut chart.timers,
    );
    assert_eq!(fired, vec![request(root, root, from_root)], "the root is tried once");

    let fired = edge_event_listener(
        &Event::new(X, r1), &chart.graph, &chart.edges, &chart.machine, &mut chart.deferrals, &mut chart.timers,
    );
    assert_eq!(fired, vec![request(root, r1, 1)], "an event for a state is tried at that state only");

    let fired = edge_event_listener(
        &Event::new(3, root), &chart.graph, &chart.edges, &chart.machine, &mut chart.deferrals, &mut chart.timers,
    );
    assert_eq!(fired, vec![]);

    send(&mut chart, X, root);
    assert!(chart.machine.is_leaf_active(&m1) && chart.machine.is_leaf_active(&m2));
}

#[test]
fn always_edge_listener_takes_the_first_ready_edge() {
    let (graph, root, s, t, u, _v) = flat();
    let mut edges = EdgeTable::new();
    edges.add_edge(Edge::new(s, Some(t), Trigger::OnEvent(X)));
    let mut delayed = Edge::new(s, Some(t), Trigger::Always);
    delayed.after = Some(After::new(10));
    edges.add_edge(delayed);
    let first = edges.add_edge(Edge::new(s, Some(u), Trigger::Always));
    edges.add_edge(Edge::new(s, Some(t), Trigger::Always));
    assert_eq!(
        always_edge_listener(&EnterState { target: s }, &graph, &edges),
        Some(request(root, s, first))
    );
    assert_eq!(always_edge_listener(&EnterState { target: t }, &graph, &edges), None);
    assert_eq!(always_edge_listener(&EnterState { target: 50 }, &graph, &edges), None);
}

#[test]
fn timers_are_armed_on_entry_and_cancelled_on_exit() {
    let mut edges = EdgeTable::new();
    let mut a = Edge::new(1, Some(2), Trigger::Always);
    a.after = Some(After::new(10));
    let delayed_always = edges.add_edge(a);
    let mut b = Edge::new(1, Some(2), Trigger::OnEvent(X));
    b.after = Some(After::new(20));
    let delayed_event = edges.add_edge(b);
    let plain = edges.add_edge(Edge::new(1, Some(2), Trigger::Always));
    let mut c = Edge::new(3, Some(2), Trigger::Always);
    c.after = Some(After::new(30));
    let elsewhere = edges.add_edge(c);

    let mut timers = TimerService::new();
    start_after_on_enter(&EnterState { target: 1 }, &edges, &mut timers);
    assert_eq!(timers.timer(delayed_always), Some(EdgeTimer::new(10)));
    assert_eq!(timers.timer(delayed_event), None, "an event-edge is armed by its event");
    assert_eq!(timers.timer(plain), None);
    assert_eq!(timers.timer(elsewhere), None);

    timers.arm(delayed_event, 20);
    timers.arm(plain, 1);
    timers.arm(elsewhere, 30);
    timers.set_pending(delayed_event, Event::new(X, 0));
    cancel_after_on_exit(&ExitState { target: 1 }, &edges, &mut timers);
    assert_eq!(timers.timer(delayed_always), None);
    assert_eq!(timers.timer(delayed_event), None);
    assert_eq!(timers.timer(plain), Some(EdgeTimer::new(1)), "only delayed edges are cancelled");
    assert_eq!(timers.timer(elsewhere), Some(EdgeTimer::new(30)));
    assert_eq!(timers.pending(delayed_event), Some(Event::new(X, 0)));

    timers.arm(delayed_event, 20);
    timers.set_pending(elsewhere, Event::new(X, 0));
    cancel_pending_event_on_exit(&ExitState { target: 1 }, &edges, &mut timers);
    assert_eq!((timers.timer(delayed_event), timers.pending(delayed_event)), (None, None));
    assert_eq!(timers.timer(plain), Some(EdgeTimer::new(1)));
    assert_eq!(timers.pending(elsewhere), Some(Event::new(X, 0)));
}

#[test]
fn passing_time_fires_one_delayed_always_edge_per_source() {
    let (graph, root, s, t, u, _v) = flat();
    let mut edges = EdgeTable::new();
    let mut slow = Edge::new(s, Some(t), Trigger::Always);
    slow.after = Some(After::new(100));
    let slow = edges.add_edge(slow);
    let mut quick = Edge::new(s, Some(u), Trigger::Always);
    quick.after = Some(After::new(40));
    let quick = edges.add_edge(quick);
    let mut other = Edge::new(s, Some(t), Trigger::Always);
    other.after = Some(After::new(40));
    let other = edges.add_edge(other);
    let mut idle = Edge::new(t, Some(u), Trigger::Always);
    idle.after = Some(After::new(1));
    let idle = edges.add_edge(idle);
    let mut chart = started(graph, edges, root);
    chart.timers.arm(idle, 1);
    assert_eq!(chart.timers.timer(slow), Some(EdgeTimer::new(100)));

    let fired = tick_after_system(39, &chart.graph, &chart.edges, &chart.machine, &mut chart.timers);
    assert_eq!(fired, vec![]);
    assert_eq!(chart.timers.timer(quick).map(|t| t.elapsed), Some(39));
    assert_eq!(chart.timers.timer(idle), Some(EdgeTimer::new(1)), "t is not active");

    let fired = tick_after_system(1, &chart.graph, &chart.edges, &chart.machine, &mut chart.timers);
    assert_eq!(fired, vec![request(root, s, quick)]);
    assert_eq!(chart.timers.timer(slow).map(|t| t.elapsed), Some(40));
    assert_eq!(chart.timers.timer(quick), None);
    assert_eq!(
        chart.timers.timer(other).map(|t| t.elapsed),
        Some(39),
        "the edges after the one that fires are left alone"
    );
}

#[test]
fn delayed_always_edge_is_cancelled_when_its_source_exits() {
    let (graph, root, s, t, u, _v) = flat();
    let mut edges = EdgeTable::new();
    let mut delayed = Edge::new(s, Some(t), Trigger::Always);
    delayed.after = Some(After::new(100));
    let delayed = edges.add_edge(delayed);
    edges.add_edge(Edge::new(s, Some(u), Trigger::OnEvent(X)));
    let mut chart = started(graph, edges, root);
    assert!(chart.timers.timer(delayed).is_some());
    send(&mut chart, X, root);
    assert!(chart.timers.timer(delayed).is_none());
    chart.submit(Stimulus::Tick(1_000));
    chart.run(LIMIT);
    assert!(chart.machine.is_leaf_active(&u));
    assert!(!chart.machine.is_leaf_active(&t));
}

#[test]
fn waiting_event_fires_with_its_phase_events_or_is_dropped() {
    let (graph, root, s, t, _u, _v) = flat();
    let mut edges = EdgeTable::new();
    let mut delayed = Edge::new(s, Some(t), Trigger::OnEvent(X));
    delayed.after = Some(After::new(50));
    let delayed = edges.add_edge(delayed);
    let mut from_t = Edge::new(t, Some(s), Trigger::OnEvent(X));
    from_t.after = Some(After::new(50));
    let from_t = edges.add_edge(from_t);
    let mut chart = started(graph, edges, root);
    let x = Event { kind: X, target: root, phases: PhaseEvents { exit: None, effect: Some(5), entry: None } };
    chart.submit(Stimulus::Event(x));
    chart.run(LIMIT);
    assert_eq!(chart.timers.pending(delayed), Some(x));
    chart.timers.arm(from_t, 50);
    chart.timers.set_pending(from_t, x);

    let fired = tick_after_event_timers(49, &chart.graph, &chart.edges, &chart.machine, &mut chart.timers);
    assert_eq!(fired, vec![]);
    assert_eq!(chart.timers.timer(delayed).map(|t| t.elapsed), Some(49));
    assert_eq!(
        (chart.timers.timer(from_t), chart.timers.pending(from_t)),
        (None, None),
        "the source of the other edge is not active"
    );

    let fired = tick_after_event_timers(1, &chart.graph, &chart.edges, &chart.machine, &mut chart.timers);
    assert_eq!(
        fired,
        vec![Transition { machine: root, source: s, edge: Via::Edge(delayed), payload: x.phases }]
    );
    assert_eq!((chart.timers.timer(delayed), chart.timers.pending(delayed)), (None, None));
    let fired = tick_after_event_timers(500, &chart.graph, &chart.edges, &chart.machine, &mut chart.timers);
    assert_eq!(fired, vec![]);
}

#[test]
fn changed_guards_recheck_always_edges() {
    let (graph, root, s, t, u, _v) = flat();
    let mut edges = EdgeTable::new();
    let mut first = Edge::new(s, Some(t), Trigger::Always);
    first.guards = Guards::init(vec!["a"]);
    let first = edges.add_edge(first);
    let mut second = Edge::new(s, Some(u), Trigger::Always);
    second.guards = Guards::init(vec!["b"]);
    let second = edges.add_edge(second);
    let mut delayed = Edge::new(s, Some(u), Trigger::Always);
    delayed.after = Some(After::new(9));
    delayed.guards = Guards::init(vec!["c"]);
    let delayed = edges.add_edge(delayed);
    let event_edge = edges.add_edge(Edge::new(s, Some(u), Trigger::OnEvent(X)));
    let elsewhere = edges.add_edge(Edge::new(t, Some(u), Trigger::Always));
    let mut chart = started(graph, edges, root);
    chart.timers.cancel(delayed);

    let changed = vec![first, event_edge, elsewhere, 77];
    let fired = check_always_on_guards_changed(
        &changed, &chart.graph, &chart.edges, &chart.machine, &mut chart.timers,
    );
    assert_eq!(fired, vec![], "guarded, not an always-edge, inactive source, missing");

    assert!(chart.edges.remove_guard(second, "b"));
    assert!(chart.edges.remove_guard(delayed, "c"));
    let fired = check_always_on_guards_changed(
        &vec![second, delayed], &chart.graph, &chart.edges, &chart.machine, &mut chart.timers,
    );
    assert_eq!(fired, vec![request(root, s, second)]);
    assert_eq!(chart.timers.timer(delayed), Some(EdgeTimer::new(9)));

    assert!(chart.edges.remove_guard(first, "a"));
    let fired = check_always_on_guards_changed(
        &vec![second], &chart.graph, &chart.edges, &chart.machine, &mut chart.timers,
    );
    assert_eq!(fired, vec![request(root, s, first)], "the first ready always-edge fires");
}

#[test]
fn reset_notices_follow_the_scope_of_the_edge() {
    let mut graph = StateGraph::new();
    let root = graph.add_root();
    let s = child(&mut graph, root);
    let t = child(&mut graph, root);
    let s1 = child(&mut graph, s);
    let t1 = child(&mut graph, t);
    let t2 = child(&mut graph, t1);
    let mut edges = EdgeTable::new();
    let mut e = Edge::new(s, Some(t), Trigger::OnEvent(X));
    e.reset = Some(ResetEdge(ResetScope::Source));
    let source_scope = edges.add_edge(e);
    let mut e = Edge::new(s, Some(t), Trigger::OnEvent(X));
    e.reset = Some(ResetEdge(ResetScope::Target));
    let target_scope = edges.add_edge(e);
    let mut e = Edge::new(s, Some(t), Trigger::OnEvent(X));
    e.reset = Some(ResetEdge(ResetScope::Both));
    let both = edges.add_edge(e);
    let plain = edges.add_edge(Edge::new(s, Some(t), Trigger::OnEvent(X)));
    let mut e = Edge::new(s, None, Trigger::OnEvent(X));
    e.reset = Some(ResetEdge(ResetScope::Source));
    let no_target = edges.add_edge(e);

    let resets = |edge: usize| {
        reset_on_transition_actions(&TransitionActions { target: Via::Edge(edge) }, &graph, &edges)
            .iter()
            .map(|r| r.target)
            .collect::<Vec<usize>>()
    };
    assert_eq!(resets(source_scope), vec![s, s1]);
    assert_eq!(resets(target_scope), vec![t, t1, t2]);
    assert_eq!(resets(both), vec![s, t, s1, t1, t2]);
    assert_eq!(resets(plain), vec![]);
    assert_eq!(resets(no_target), vec![]);
    assert_eq!(resets(40), vec![]);
    assert_eq!(
        reset_on_transition_actions(&TransitionActions { target: Via::State(s) }, &graph, &edges),
        vec![]
    );
    assert_eq!(Reset::new(3).target, 3);
}

#[test]
fn reset_of_the_root_initializes_again_and_of_another_state_does_nothing() {
    let (graph, root, s, t, _u, _v) = flat();
    let mut edges = EdgeTable::new();
    edges.add_edge(Edge::new(s, Some(t), Trigger::OnEvent(X)));
    let mut history = HistoryStore::new();
    let mut machine = StateMachine::new(root);
    let out = reset_state_region(&ResetRegion::new(root), &graph, &edges, &mut history, &mut machine);
    assert_eq!(
        out,
        vec![
            Notification::Enter(EnterState { target: root }),
            Notification::Enter(EnterState { target: s })
        ]
    );
    machine.insert_leaf(t);
    let out = reset_state_region(&ResetRegion::new(t), &graph, &edges, &mut history, &mut machine);
    assert_eq!(out, vec![]);
    assert!(machine.is_leaf_active(&t));
    let out = reset_state_region(&ResetRegion::new(root), &graph, &edges, &mut history, &mut machine);
    assert_eq!(out.len(), 2);
    assert!(machine.is_leaf_active(&s));
    assert!(!machine.is_leaf_active(&t));
    assert!(machine.is_active(&root) && machine.is_active(&s) && !machine.is_active(&t));
}

#[derive(Default)]
struct SourceComp {
    i: i32,
    b: bool,
}

struct PI;
struct PB;

impl IntParamBinding<SourceComp> for PI {
    fn extract_spec(s: &SourceComp) -> i32 {
        s.i
    }

    fn extract(s: &SourceComp) -> i32 {
        s.i
    }
}

impl BoolParamBinding<SourceComp> for PB {
    fn extract_spec(s: &SourceComp) -> bool {
        s.b
    }

    fn extract(s: &SourceComp) -> bool {
        s.b
    }
}

#[test]
fn sync_params_update_components() {
    let mut source = SourceComp::default();
    let mut int_param = IntParam::default();
    let mut bool_param = BoolParam::default();
    assert_eq!(int_param.get(), 0);
    assert_eq!(bool_param.get(), false);

    source.i = 7;
    source.b = true;

    sync_int_param::<SourceComp, PI>(&source, &mut int_param);
    sync_bool_param::<SourceComp, PB>(&source, &mut bool_param);

    let i = int_param.get();
    let b = bool_param.get();
    assert_eq!(i, 7);
    assert_eq!(b, true);
}

#[test]
fn apply_param_guards_manage_guard_presence() {
    let mut graph = StateGraph::new();
    let root = graph.add_root();
    let s = child(&mut graph, root);
    let t = child(&mut graph, root);
    let mut edges = EdgeTable::new();
    let edge = edges.add_edge(Edge::new(s, Some(t), Trigger::OnEvent(X)));
    let range = IntInRange::new(5, 10, 0);
    let equals = BoolEquals::new(true);
    let mut int_param = IntParam::default();
    let mut bool_param = BoolParam::default();

    assert!(apply_int_param_guards(&mut edges, edge, &range, Some(&int_param), "PI"));
    assert!(apply_bool_param_guards(&mut edges, edge, &equals, Some(&bool_param), "PB"));
    {
        let guards = &edges.get(edge).unwrap().guards;
        assert!(!guards.check(), "guards should block when values out of range or not matching");
    }

    int_param.set(7);
    bool_param.set(true);
    assert!(apply_int_param_guards(&mut edges, edge, &range, Some(&int_param), "PI"));
    assert!(apply_bool_param_guards(&mut edges, edge, &equals, Some(&bool_param), "PB"));
    {
        let guards = &edges.get(edge).unwrap().guards;
        assert!(guards.check(), "guards should be cleared when conditions pass");
    }
}

#[test]
fn parameter_guards_use_named_keys_and_change_only_when_needed() {
    assert_eq!(guard_key_for_int("Speed"), "int-in-range::<Speed>");
    assert_eq!(guard_key_for_bool("Armed"), "bool-equals::<Armed>");

    let mut edges = EdgeTable::new();
    let edge = edges.add_edge(Edge::new(0, Some(1), Trigger::Always));
    let range = IntInRange::new(5, 10, 2);
    let mut p = IntParam::default();
    let has = |edges: &EdgeTable| edges.get(0).unwrap().guards.has_guard("int-in-range::<Speed>");

    p.set(2);
    assert!(apply_int_param_guards(&mut edges, edge, &range, Some(&p), "Speed"));
    assert!(has(&edges), "2 + 2 is below 5");
    assert!(!apply_int_param_guards(&mut edges, edge, &range, Some(&p), "Speed"));
    p.set(3);
    assert!(apply_int_param_guards(&mut edges, edge, &range, Some(&p), "Speed"));
    assert!(!has(&edges), "3 + 2 reaches 5");
    p.set(12);
    assert!(!apply_int_param_guards(&mut edges, edge, &range, Some(&p), "Speed"));
    assert!(!has(&edges), "12 - 2 is still 10");
    p.set(13);
    assert!(apply_int_param_guards(&mut edges, edge, &range, Some(&p), "Speed"));
    assert!(has(&edges), "13 - 2 is above 10");
    p.set(7);
    assert!(apply_int_param_guards(&mut edges, edge, &range, Some(&p), "Speed"));
    assert!(apply_int_param_guards(&mut edges, edge, &range, None, "Speed"));
    assert!(has(&edges), "a missing parameter blocks");
    assert!(!apply_int_param_guards(&mut edges, 5, &range, None, "Speed"), "no such edge");

    let wide = IntInRange::new(i32::MIN, i32::MAX, i32::MAX);
    p.set(i32::MAX);
    assert!(!apply_int_param_guards(&mut edges, edge, &wide, Some(&p), "Other"));

    let off = BoolEquals::new(false);
    let b = BoolParam::default();
    assert!(!apply_bool_param_guards(&mut edges, edge, &off, Some(&b), "Armed"));
    assert!(apply_bool_param_guards(&mut edges, edge, &off, None, "Armed"));
    assert!(edges.get(0).unwrap().guards.has_guard("bool-equals::<Armed>"));
}

struct Hit {
    damage: u64,
}

impl TransitionEvent for Hit {
    fn exit_event(&self) -> Option<u64> {
        None
    }

    fn effect_event(&self) -> Option<u64> {
        Some(self.damage)
    }

    fn entry_event(&self) -> Option<u64> {
        Some(self.damage + 1)
    }

    fn to_exit_event(&self) -> Option<u64> {
        None
    }

    fn to_effect_event(&self) -> Option<u64> {
        Some(self.damage)
    }

    fn to_entry_event(&self) -> Option<u64> {
        Some(self.damage + 1)
    }
}

#[test]
fn phase_events_are_derived_from_the_triggering_event() {
    assert_eq!(PhaseEvents::of(&NoEvent), PhaseEvents::none());
    assert_eq!(NoEvent::default().to_exit_event(), None);
    assert_eq!(
        PhaseEvents::of(&Hit { damage: 4 }),
        PhaseEvents { exit: None, effect: Some(4), entry: Some(5) }
    );
}

#[test]
fn event_held_back_by_a_leaf_reaches_no_state_above_it() {
    let mut graph = StateGraph::new();
    let root = graph.add_root();
    let a = child(&mut graph, root);
    let s = child(&mut graph, a);
    let t = child(&mut graph, root);
    let u = child(&mut graph, root);
    assert!(graph.set_initial(root, a));
    assert!(graph.set_initial(a, s));
    let mut edges = EdgeTable::new();
    let on_a = edges.add_edge(Edge::new(a, Some(t), Trigger::OnEvent(X)));
    let on_s = edges.add_edge(Edge::new(s, Some(u), Trigger::OnEvent(Y)));
    edges.add_edge(Edge::new(root, Some(t), Trigger::OnEvent(X)));
    let mut chart = started(graph, edges, root);
    chart.deferrals.add_buffer(s, X);

    let x = Event::new(X, root);
    let fired = edge_event_listener(
        &x, &chart.graph, &chart.edges, &chart.machine, &mut chart.deferrals, &mut chart.timers,
    );
    assert_eq!(fired, vec![], "neither the edge on A nor the edge on the root takes the event");
    assert!(chart.machine.is_leaf_active(&s));
    assert_eq!(chart.deferrals.take(s), vec![x], "the event waits in the buffer of S");

    assert_eq!(send(&mut chart, X, root), vec![]);
    assert!(chart.machine.is_leaf_active(&s));

    let out = send(&mut chart, Y, root);
    let acted: Vec<&Notification> =
        out.iter().filter(|n| matches!(n, Notification::Actions(_))).collect();
    assert_eq!(
        acted,
        vec![
            &Notification::Actions(TransitionActions { target: Via::Edge(on_s) }),
            &Notification::Actions(TransitionActions { target: Via::Edge(2) }),
        ],
        "after the exit of S the held event is sent to the root again, once"
    );
    assert!(chart.machine.is_leaf_active(&t));
    let _ = on_a;
}

#[test]
fn walk_ends_where_a_state_holds_the_event_back() {
    let mut graph = StateGraph::new();
    let root = graph.add_root();
    let p = child(&mut graph, root);
    assert!(graph.set_parallel(p, true));
    let l1 = child(&mut graph, p);
    let l2 = child(&mut graph, p);
    let l3 = child(&mut graph, p);
    let t = child(&mut graph, root);
    assert!(graph.set_initial(root, p));
    let mut edges = EdgeTable::new();
    let from_l1 = edges.add_edge(Edge::new(l1, Some(t), Trigger::OnEvent(X)));
    edges.add_edge(Edge::new(l3, Some(t), Trigger::OnEvent(X)));
    edges.add_edge(Edge::new(p, Some(t), Trigger::OnEvent(X)));
    let mut chart = started(graph, edges, root);
    chart.deferrals.add_buffer(l2, X);

    let mut visited = bevy_platform::collections::HashSet::new();
    let x = Event::new(X, root);
    let d = try_fire_first_matching_edge_on_branch(
        l2, &x, root, &chart.graph, &chart.edges, &chart.machine, &mut chart.deferrals,
        &mut chart.timers, &mut visited,
    );
    assert_eq!(d, Dispatch::Deferred);
    assert!(d.is_taken() && !d.is_consumed());
    assert!(visited.contains(&l2) && !visited.contains(&p), "no state above is tried");
    assert_eq!(chart.deferrals.take(l2), vec![x]);

    let fired = edge_event_listener(
        &x, &chart.graph, &chart.edges, &chart.machine, &mut chart.deferrals, &mut chart.timers,
    );
    assert_eq!(
        fired,
        vec![request(root, l1, from_l1)],
        "the branch tried before stands; no branch is tried after the event is held back"
    );
    assert_eq!(chart.deferrals.take(l2), vec![x]);
    assert!(Dispatch::Armed(0).is_taken() && !Dispatch::Ignored.is_taken());
}

#[test]
fn timer_agrees_with_the_one_shot_timer_of_bevy() {
    let cases: [(u64, Vec<u64>); 6] = [
        (50, vec![20, 29, 1, 100, 0]),
        (50, vec![0, 0, 50, 50]),
        (0, vec![0, 7]),
        (1, vec![u64::MAX, 1]),
        (u64::MAX, vec![u64::MAX - 1, 7, 3]),
        (1_000_000_000, vec![999_999_999, 1, 1]),
    ];
    for (duration, deltas) in cases {
        let mut ours = EdgeTimer::new(duration);
        let mut theirs = Timer::new(Duration::from_nanos(duration), TimerMode::Once);
        assert_eq!(ours.elapsed as u128, theirs.elapsed().as_nanos());
        assert_eq!(ours.finished, theirs.is_finished());
        for delta in deltas {
            ours.tick(delta);
            theirs.tick(Duration::from_nanos(delta));
            assert_eq!(ours.elapsed as u128, theirs.elapsed().as_nanos(), "elapsed after {delta}");
            assert_eq!(ours.duration as u128, theirs.duration().as_nanos());
            assert_eq!(ours.finished, theirs.is_finished(), "finished after {delta}");
            assert_eq!(ours.just_finished(), theirs.just_finished(), "just finished after {delta}");
        }
    }
}
