use bevy_gearbox::chart::{Chart, Stimulus};
use bevy_gearbox::edges::{After, Edge, EdgeKind, EdgeTable, ResetEdge, ResetScope, Trigger};
use bevy_gearbox::events::{
    EnterState, Event, ExitState, Notification, PhaseEvents, Reset, ResetRegion, Transition,
    TransitionActions, Via,
};
use bevy_gearbox::graph::{History, StateGraph};
use bevy_gearbox::guards::Guards;

const MS: u64 = 1_000_000;
const LIMIT: usize = 10_000;

const TEST_EVT: u64 = 1;
const EVT_PARALLEL: u64 = 2;
const EVT_GO_OUT: u64 = 3;
const EVT_GO_BACK: u64 = 4;
const EVT_DEFER: u64 = 5;
const EVT_DELAYED: u64 = 6;
const GO_TALENTS: u64 = 7;
const EVT_DELAYED2: u64 = 8;
const EVT_NOW: u64 = 9;
const DELAYED_TEST_EVT: u64 = 10;
const OUT: u64 = 11;
const BACK: u64 = 12;

fn child(graph: &mut StateGraph, parent: usize) -> usize {
    graph.add_child(parent).expect("parent is a state of the graph")
}

fn send(chart: &mut Chart, kind: u64, target: usize) -> Vec<Notification> {
    chart.submit(Stimulus::Event(Event::new(kind, target)));
    let out = chart.run(LIMIT);
    assert!(chart.is_idle());
    out
}

fn tick(chart: &mut Chart, nanos: u64) -> Vec<Notification> {
    chart.submit(Stimulus::Tick(nanos));
    let out = chart.run(LIMIT);
    assert!(chart.is_idle());
    out
}

fn start(graph: StateGraph, edges: EdgeTable, root: usize) -> (Chart, Vec<Notification>) {
    let mut chart = Chart::new(graph, edges, root);
    let out = chart.run(LIMIT);
    assert!(chart.is_idle());
    (chart, out)
}

fn position(log: &[Notification], wanted: Notification) -> Option<usize> {
    log.iter().position(|n| *n == wanted)
}

fn exit(state: usize) -> Notification {
    Notification::Exit(ExitState { target: state })
}

fn enter(state: usize) -> Notification {
    Notification::Enter(EnterState { target: state })
}

fn actions(edge: usize) -> Notification {
    Notification::Actions(TransitionActions { target: Via::Edge(edge) })
}

#[test]
fn init_enters_initial_chain_and_sets_active_sets() {
    let mut graph = StateGraph::new();
    let root = graph.add_root();
    let leaf = child(&mut graph, root);
    assert!(graph.set_initial(root, leaf));

    let (chart, _) = start(graph, EdgeTable::new(), root);

    let sm = &chart.machine;
    assert!(sm.active_leaves.contains(&leaf), "leaf should be active");
    assert!(sm.active.contains(&leaf), "leaf should be in active set");
    assert!(sm.active.contains(&root), "root should be in active ancestor set");

    assert!(sm.is_active(&leaf), "leaf should be marked active");
    assert!(sm.is_active(&root), "root should be marked active");
}

#[test]
fn transitions_priority_first_match_wins() {
    let mut graph = StateGraph::new();
    let root = graph.add_root();
    let s = child(&mut graph, root);
    let t1 = child(&mut graph, root);
    let t2 = child(&mut graph, root);

    let mut edges = EdgeTable::new();
    edges.add_edge(Edge::new(s, Some(t1), Trigger::OnEvent(TEST_EVT)));
    edges.add_edge(Edge::new(s, Some(t2), Trigger::OnEvent(TEST_EVT)));

    assert!(graph.set_initial(root, s));
    let (mut chart, _) = start(graph, edges, root);

    send(&mut chart, TEST_EVT, root);

    let sm = &chart.machine;
    assert!(sm.active_leaves.contains(&t1), "highest priority edge should activate T1");
    assert!(!sm.active_leaves.contains(&t2), "lower priority edge must not fire when higher fired");
    assert!(!sm.active_leaves.contains(&s), "source should be inactive after transition");

    assert!(sm.is_active(&t1));
    assert!(sm.is_active(&root));
    assert!(!sm.is_active(&s));
}

#[test]
fn lifecycle_exit_then_transition_actions_then_enter_ordering() {
    let mut graph = StateGraph::new();
    let root = graph.add_root();
    let a = child(&mut graph, root);
    let b = child(&mut graph, a);
    let c = child(&mut graph, root);

    let mut edges = EdgeTable::new();
    let e_b_to_c = edges.add_edge(Edge::new(b, Some(c), Trigger::OnEvent(TEST_EVT)));

    assert!(graph.set_initial(a, b));
    assert!(graph.set_initial(root, a));
    let (mut chart, _) = start(graph, edges, root);

    let log = send(&mut chart, TEST_EVT, root);

    assert!(position(&log, exit(b)).is_some(), "should exit B first: {:?}", log);
    assert!(
        position(&log, exit(b)).unwrap() < position(&log, exit(a)).unwrap(),
        "B before A: {:?}",
        log
    );
    assert!(
        position(&log, exit(a)).unwrap() < position(&log, actions(e_b_to_c)).unwrap(),
        "A before actions: {:?}",
        log
    );
    assert!(
        position(&log, actions(e_b_to_c)).unwrap() < position(&log, enter(c)).unwrap(),
        "actions before enter C: {:?}",
        log
    );
}

#[test]
fn events_root_propagation_one_per_parallel_region() {
    let mut graph = StateGraph::new();
    let root = graph.add_root();
    let p = child(&mut graph, root);
    assert!(graph.set_parallel(p, true));

    let r1 = child(&mut graph, p);
    let r2 = child(&mut graph, p);

    let s1 = child(&mut graph, r1);
    let s1a = child(&mut graph, r1);
    let s2 = child(&mut graph, r2);
    let s2a = child(&mut graph, r2);

    assert!(graph.set_initial(r1, s1));
    assert!(graph.set_initial(r2, s2));

    let mut edges = EdgeTable::new();
    edges.add_edge(Edge::new(s1, Some(s1a), Trigger::OnEvent(EVT_PARALLEL)));
    edges.add_edge(Edge::new(s2, Some(s2a), Trigger::OnEvent(EVT_PARALLEL)));

    assert!(graph.set_initial(root, p));
    let (mut chart, _) = start(graph, edges, root);

    send(&mut chart, EVT_PARALLEL, root);

    let sm = &chart.machine;
    assert!(sm.active_leaves.contains(&s1a));
    assert!(sm.active_leaves.contains(&s2a));
    assert!(!sm.active_leaves.contains(&s1));
    assert!(!sm.active_leaves.contains(&s2));
}

#[test]
fn history_shallow_saves_immediate_children_under_parallel_and_restores() {
    let mut graph = StateGraph::new();
    let root = graph.add_root();
    let p = child(&mut graph, root);
    assert!(graph.set_parallel(p, true));
    assert!(graph.set_history(p, Some(History::Shallow)));
    let r1 = child(&mut graph, p);
    let r2 = child(&mut graph, p);

    let a = child(&mut graph, r1);
    let b = child(&mut graph, r2);
    assert!(graph.set_initial(r1, a));
    assert!(graph.set_initial(r2, b));

    let z = child(&mut graph, root);
    let mut edges = EdgeTable::new();
    edges.add_edge(Edge::new(p, Some(z), Trigger::OnEvent(EVT_GO_OUT)));
    edges.add_edge(Edge::new(root, Some(p), Trigger::OnEvent(EVT_GO_BACK)));

    assert!(graph.set_initial(root, p));
    let (mut chart, _) = start(graph, edges, root);

    send(&mut chart, EVT_GO_OUT, root);
    send(&mut chart, EVT_GO_BACK, root);

    let sm = &chart.machine;
    assert!(sm.active.contains(&a));
    assert!(sm.active.contains(&b));
}

#[test]
fn defer_defers_when_active_and_replays_on_exit_without_consuming_region() {
    let mut graph = StateGraph::new();
    let root = graph.add_root();
    let s = child(&mut graph, root);
    let t = child(&mut graph, root);

    let mut edges = EdgeTable::new();
    edges.add_edge(Edge::new(root, Some(t), Trigger::OnEvent(EVT_DEFER)));

    assert!(graph.set_initial(root, s));
    let (mut chart, _) = start(graph, edges, root);
    chart.deferrals.add_buffer(s, EVT_DEFER);

    send(&mut chart, EVT_DEFER, s);
    {
        let sm = &chart.machine;
        assert!(sm.active_leaves.contains(&s));
        assert!(!sm.active_leaves.contains(&t));
    }

    let out = send(&mut chart, EVT_DEFER, root);
    assert_eq!(out, vec![], "the event is held back by S and taken nowhere else");
    {
        let sm = &chart.machine;
        assert!(sm.active_leaves.contains(&s));
        assert!(!sm.active_leaves.contains(&t), "the edge on the root must not take a held event");
    }

    chart.submit(Stimulus::Fire(Transition {
        machine: root,
        source: s,
        edge: Via::State(t),
        payload: PhaseEvents::none(),
    }));
    let out = chart.run(LIMIT);
    let acted = out.iter().filter(|n| matches!(n, Notification::Actions(_))).count();
    assert_eq!(acted, 2, "the exit of S sends the held event again, once, and the root takes it");

    let sm = &chart.machine;
    assert!(sm.active_leaves.contains(&t), "deferred event replay at root should activate T");
}

#[test]
fn transitions_external_vs_internal_lca_reentry() {
    let mut graph = StateGraph::new();
    let root = graph.add_root();
    let a = child(&mut graph, root);

    let mut edges = EdgeTable::new();
    let e_ext = edges.add_edge(Edge::new(a, Some(a), Trigger::OnEvent(TEST_EVT)));
    assert!(graph.set_initial(root, a));
    let (mut chart, _) = start(graph, edges, root);

    let seq = send(&mut chart, TEST_EVT, root);
    assert!(
        seq.contains(&exit(a)) && seq.contains(&enter(a)),
        "external should exit and reenter: {:?}",
        seq
    );

    assert!(chart.edges.set_guards(e_ext, Guards::init(vec!["blocked".to_string()])));
    let mut internal = Edge::new(a, Some(a), Trigger::OnEvent(TEST_EVT));
    internal.kind = EdgeKind::Internal;
    chart.edges.add_edge(internal);

    let seq2 = send(&mut chart, TEST_EVT, root);
    assert!(
        !seq2.contains(&exit(a)) && !seq2.contains(&enter(a)),
        "internal should not exit/enter: {:?}",
        seq2
    );
}

#[test]
fn transitions_ignored_when_missing_target() {
    let mut graph = StateGraph::new();
    let root = graph.add_root();
    let s = child(&mut graph, root);
    let mut edges = EdgeTable::new();
    edges.add_edge(Edge::new(s, None, Trigger::OnEvent(TEST_EVT)));
    assert!(graph.set_initial(root, s));
    let (mut chart, _) = start(graph, edges, root);

    send(&mut chart, TEST_EVT, root);

    let sm = &chart.machine;
    assert!(sm.active_leaves.contains(&s), "no target edge should not transition");
}

#[test]
fn always_fires_on_enter_respecting_guards_and_guard_change_rechecks() {
    let mut graph = StateGraph::new();
    let root = graph.add_root();
    let s = child(&mut graph, root);
    let t = child(&mut graph, root);

    let mut edges = EdgeTable::new();
    let mut guarded = Edge::new(s, Some(t), Trigger::Always);
    guarded.guards = Guards::init(vec!["lock".to_string()]);
    let edge = edges.add_edge(guarded);

    assert!(graph.set_initial(root, s));
    let (mut chart, _) = start(graph, edges, root);

    {
        let sm = &chart.machine;
        assert!(sm.active_leaves.contains(&s));
        assert!(!sm.active_leaves.contains(&t));
    }

    assert!(chart.edges.set_guards(edge, Guards::new()));
    chart.submit(Stimulus::GuardsChanged(edge));
    chart.run(LIMIT);

    let sm = &chart.machine;
    assert!(sm.active_leaves.contains(&t), "guard removal should allow Always edge to fire");
}

#[test]
fn after_starts_on_enter_ticks_and_fires_once() {
    let mut graph = StateGraph::new();
    let root = graph.add_root();
    let s = child(&mut graph, root);
    let t = child(&mut graph, root);

    let mut edges = EdgeTable::new();
    let mut delayed = Edge::new(s, Some(t), Trigger::Always);
    delayed.after = Some(After::new(50 * MS));
    delayed.kind = EdgeKind::External;
    edges.add_edge(delayed);

    assert!(graph.set_initial(root, s));
    let (mut chart, _) = start(graph, edges, root);

    tick(&mut chart, 60 * MS);

    let sm = &chart.machine;
    assert!(sm.active_leaves.contains(&t), "After should fire after duration");
}

#[test]
fn history_deep_restores_exact_leaves() {
    let mut graph = StateGraph::new();
    let root = graph.add_root();
    let p = child(&mut graph, root);
    assert!(graph.set_history(p, Some(History::Deep)));
    let a = child(&mut graph, p);
    let a1 = child(&mut graph, a);
    let _b = child(&mut graph, p);
    assert!(graph.set_initial(p, a));
    assert!(graph.set_initial(a, a1));

    let z = child(&mut graph, root);
    let mut edges = EdgeTable::new();
    edges.add_edge(Edge::new(p, Some(z), Trigger::OnEvent(OUT)));
    edges.add_edge(Edge::new(root, Some(p), Trigger::OnEvent(BACK)));

    assert!(graph.set_initial(root, p));
    let (mut chart, _) = start(graph, edges, root);

    send(&mut chart, OUT, root);
    send(&mut chart, BACK, root);

    let sm = &chart.machine;
    assert!(sm.active_leaves.contains(&a1), "deep history should restore exact leaf A1");
}

fn delayed_event_chart(kind: u64, nanos: u64) -> (Chart, usize, usize, usize, usize) {
    let mut graph = StateGraph::new();
    let root = graph.add_root();
    let s = child(&mut graph, root);
    let t = child(&mut graph, root);

    let mut edges = EdgeTable::new();
    let mut delayed = Edge::new(s, Some(t), Trigger::OnEvent(kind));
    delayed.after = Some(After::new(nanos));
    let edge = edges.add_edge(delayed);

    assert!(graph.set_initial(root, s));
    let (chart, _) = start(graph, edges, root);
    (chart, root, s, t, edge)
}

#[test]
fn event_after_does_not_auto_fire_without_event() {
    let (mut chart, _root, s, t, _) = delayed_event_chart(EVT_DELAYED, 50 * MS);

    tick(&mut chart, 60 * MS);

    let sm = &chart.machine;
    assert!(sm.active_leaves.contains(&s), "should remain on s without event even after delay");
    assert!(!sm.active_leaves.contains(&t), "must not transition to t without event");
}

#[test]
fn event_after_delays_and_fires() {
    let (mut chart, root, s, t, _) = delayed_event_chart(EVT_DELAYED, 50 * MS);

    send(&mut chart, EVT_DELAYED, root);
    {
        let sm = &chart.machine;
        assert!(sm.active_leaves.contains(&s), "should still be on s before delay elapses");
        assert!(!sm.active_leaves.contains(&t));
    }

    tick(&mut chart, 60 * MS);

    let sm = &chart.machine;
    assert!(sm.active_leaves.contains(&t), "delayed event edge should fire after duration");
}

#[test]
fn transitioning_parent_with_parallel_child_exits_all_descendant_leaves() {
    let mut graph = StateGraph::new();
    let root = graph.add_root();
    let in_game = child(&mut graph, root);

    let panels = child(&mut graph, in_game);
    assert!(graph.set_parallel(panels, true));
    let talents = child(&mut graph, in_game);

    let left_region = child(&mut graph, panels);
    let right_region = child(&mut graph, panels);

    let left_closed = child(&mut graph, left_region);
    let right_closed = child(&mut graph, right_region);

    assert!(graph.set_initial(in_game, panels));
    assert!(graph.set_initial(left_region, left_closed));
    assert!(graph.set_initial(right_region, right_closed));

    let mut edges = EdgeTable::new();
    edges.add_edge(Edge::new(in_game, Some(talents), Trigger::OnEvent(GO_TALENTS)));

    assert!(graph.set_initial(root, in_game));
    let (mut chart, _) = start(graph, edges, root);

    {
        let sm = &chart.machine;
        assert!(sm.active_leaves.contains(&left_closed));
        assert!(sm.active_leaves.contains(&right_closed));
        assert!(sm.active.contains(&panels));
    }

    send(&mut chart, GO_TALENTS, root);

    let sm = &chart.machine;
    assert!(sm.active_leaves.contains(&talents), "Talents must be active leaf");
    assert!(!sm.active_leaves.contains(&left_closed), "Left panel leaf must be inactive");
    assert!(!sm.active_leaves.contains(&right_closed), "Right panel leaf must be inactive");
    assert!(!sm.active.contains(&panels), "Panels parent must not remain active under InGame");
}

#[test]
fn event_after_cancels_when_source_exits_before_timer() {
    let mut graph = StateGraph::new();
    let root = graph.add_root();
    let s = child(&mut graph, root);
    let t = child(&mut graph, root);
    let u = child(&mut graph, root);

    let mut edges = EdgeTable::new();
    let mut delayed = Edge::new(s, Some(t), Trigger::OnEvent(EVT_DELAYED2));
    delayed.after = Some(After::new(200 * MS));
    edges.add_edge(delayed);
    edges.add_edge(Edge::new(s, Some(u), Trigger::OnEvent(EVT_NOW)));

    assert!(graph.set_initial(root, s));
    let (mut chart, _) = start(graph, edges, root);

    send(&mut chart, EVT_DELAYED2, root);
    {
        let sm = &chart.machine;
        assert!(sm.active_leaves.contains(&s), "still on s; delayed edge not yet fired");
    }

    send(&mut chart, EVT_NOW, root);
    {
        let sm = &chart.machine;
        assert!(sm.active_leaves.contains(&u), "immediate edge should move to u");
    }

    tick(&mut chart, 250 * MS);

    let sm = &chart.machine;
    assert!(sm.active_leaves.contains(&u), "delayed edge should be canceled after source exits");
    assert!(!sm.active_leaves.contains(&t), "should not wrongly transition to t after cancellation");
}

#[test]
fn reset_machine_reinitializes() {
    let mut graph = StateGraph::new();
    let root = graph.add_root();
    let s = child(&mut graph, root);
    assert!(graph.set_initial(root, s));
    let (mut chart, _) = start(graph, EdgeTable::new(), root);

    chart.submit(Stimulus::Reset(ResetRegion::new(root)));
    chart.run(LIMIT);

    let sm = &chart.machine;
    assert!(sm.active_leaves.contains(&s), "machine should reinitialize to initial state");
}

#[test]
fn reset_edge_triggers_scope_target() {
    let mut graph = StateGraph::new();
    let root = graph.add_root();
    let s = child(&mut graph, root);
    let t = child(&mut graph, root);

    let mut edges = EdgeTable::new();
    let mut resetting = Edge::new(s, Some(t), Trigger::OnEvent(TEST_EVT));
    resetting.reset = Some(ResetEdge(ResetScope::Target));
    edges.add_edge(resetting);

    assert!(graph.set_initial(root, s));
    let (mut chart, _) = start(graph, edges, root);

    let log = send(&mut chart, TEST_EVT, root);

    assert!(
        log.contains(&Notification::Reset(Reset::new(t))),
        "target subtree should have received Reset"
    );
}

fn delayed_always_chart() -> (Chart, usize, usize, usize) {
    let mut graph = StateGraph::new();
    let root = graph.add_root();
    let s = child(&mut graph, root);
    let t = child(&mut graph, root);

    let mut edges = EdgeTable::new();
    let mut delayed = Edge::new(s, Some(t), Trigger::Always);
    delayed.after = Some(After::new(50 * MS));
    let edge = edges.add_edge(delayed);

    assert!(graph.set_initial(root, s));
    let (chart, _) = start(graph, edges, root);
    (chart, s, t, edge)
}

#[test]
fn after_timer_respects_guards_added_during_delay() {
    let (mut chart, s, t, edge) = delayed_always_chart();

    assert!(chart.edges.set_guards(edge, Guards::init(vec!["block".to_string()])));
    chart.submit(Stimulus::GuardsChanged(edge));
    chart.run(LIMIT);

    tick(&mut chart, 60 * MS);

    let sm = &chart.machine;
    assert!(sm.active_leaves.contains(&s), "should remain on S when guard blocks delayed transition");
    assert!(!sm.active_leaves.contains(&t), "should not transition to T when blocked by guard");
}

#[test]
fn after_timer_handles_missing_target_during_delay() {
    let (mut chart, s, t, edge) = delayed_always_chart();

    assert!(chart.edges.set_target(edge, None));

    tick(&mut chart, 60 * MS);

    let sm = &chart.machine;
    assert!(sm.active_leaves.contains(&s), "should remain on S when target is missing");
    assert!(!sm.active_leaves.contains(&t), "should not transition when target is missing");
}

#[test]
fn event_after_timer_respects_guards_added_during_delay() {
    let (mut chart, root, s, t, edge) = delayed_event_chart(DELAYED_TEST_EVT, 50 * MS);

    send(&mut chart, DELAYED_TEST_EVT, root);

    assert!(chart.edges.set_guards(edge, Guards::init(vec!["block".to_string()])));
    chart.submit(Stimulus::GuardsChanged(edge));
    chart.run(LIMIT);

    tick(&mut chart, 60 * MS);

    let sm = &chart.machine;
    assert!(
        sm.active_leaves.contains(&s),
        "should remain on S when guard blocks delayed event transition"
    );
    assert!(!sm.active_leaves.contains(&t), "should not transition to T when blocked by guard");
}

#[test]
fn event_after_timer_handles_missing_target_during_delay() {
    let (mut chart, root, s, t, edge) = delayed_event_chart(DELAYED_TEST_EVT, 50 * MS);

    send(&mut chart, DELAYED_TEST_EVT, root);

    assert!(chart.edges.set_target(edge, None));

    tick(&mut chart, 60 * MS);

    let sm = &chart.machine;
    assert!(sm.active_leaves.contains(&s), "should remain on S when target is missing");
    assert!(!sm.active_leaves.contains(&t), "should not transition when target is missing");
}
