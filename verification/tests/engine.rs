use bevy_gearbox::chart::{Chart, Stimulus};
use bevy_gearbox::drill::{drill, get_all_leaf_states};
use bevy_gearbox::edges::{After, Edge, EdgeKind, EdgeTable, Trigger};
use bevy_gearbox::engine::{compute_active_from_leaves, fire};
use bevy_gearbox::events::{
    EnterState, Event, ExitState, Notification, PhaseEvents, Transition, TransitionActions, Via,
};
use bevy_gearbox::graph::{History, StateGraph};
use bevy_gearbox::guards::Guards;
use bevy_gearbox::history::{HistoryState, HistoryStore};
use bevy_gearbox::machine::StateMachine;
use bevy_gearbox::reset::initialize_state_machine;
use bevy_platform::collections::HashSet;

const LIMIT: usize = 10_000;
const X: u64 = 1;
const Y: u64 = 2;

fn child(graph: &mut StateGraph, parent: usize) -> usize {
    graph.add_child(parent).expect("parent is a state of the graph")
}

fn exit(state: usize) -> Notification {
    Notification::Exit(ExitState { target: state })
}

fn enter(state: usize) -> Notification {
    Notification::Enter(EnterState { target: state })
}

fn actions(via: Via) -> Notification {
    Notification::Actions(TransitionActions { target: via })
}

fn set_of(ids: &[usize]) -> HashSet<usize> {
    ids.iter().copied().collect()
}

fn started(graph: StateGraph, edges: EdgeTable, root: usize) -> Chart {
    let mut chart = Chart::new(graph, edges, root);
    chart.run(LIMIT);
    assert!(chart.is_idle());
    chart
}

fn send(chart: &mut Chart, kind: u64, target: usize) -> Vec<Notification> {
    chart.submit(Stimulus::Event(Event::new(kind, target)));
    let out = chart.run(LIMIT);
    assert!(chart.is_idle());
    out
}

fn closure_of(graph: &StateGraph, machine: &StateMachine) -> HashSet<usize> {
    let mut expected: HashSet<usize> = HashSet::new();
    expected.insert(machine.root);
    for leaf in machine.active_leaves.iter() {
        for state in graph.path_to_root(*leaf) {
            expected.insert(state);
        }
    }
    expected
}

// root(0) -> a(1) -> { a1(2), a2(3) }, root -> b(4); initial chain root -> a -> a1
fn nested() -> (StateGraph, usize, usize, usize, usize, usize) {
    let mut graph = StateGraph::new();
    let root = graph.add_root();
    let a = child(&mut graph, root);
    let a1 = child(&mut graph, a);
    let a2 = child(&mut graph, a);
    let b = child(&mut graph, root);
    assert!(graph.set_initial(root, a));
    assert!(graph.set_initial(a, a1));
    (graph, root, a, a1, a2, b)
}

#[test]
fn graph_paths_and_ancestry() {
    let (graph, root, a, a1, a2, b) = nested();
    assert_eq!(graph.len(), 5);
    assert_eq!(graph.path_to_root(a1), vec![a1, a, root]);
    assert_eq!(graph.path_to_root(root), vec![root]);
    assert_eq!(graph.path_to_root(99), vec![99]);
    assert_eq!(graph.climb(a1, root), vec![a1, a]);
    assert_eq!(graph.climb(a1, b), vec![a1, a, root]);
    assert_eq!(graph.climb(root, root), vec![root]);
    assert_eq!(graph.root_ancestor(a2), root);
    assert_eq!(graph.parent(a2), Some(a));
    assert_eq!(graph.parent(root), None);
    assert_eq!(graph.parent(99), None);
    assert!(graph.is_ancestor(root, a1));
    assert!(graph.is_ancestor(a, a1));
    assert!(!graph.is_ancestor(a1, a));
    assert!(!graph.is_ancestor(a, a));
    assert!(!graph.is_ancestor(b, a1));
    assert!(graph.is_descendant_or_self(a, a));
    assert!(graph.is_descendant_or_self(a2, root));
    assert_eq!(graph.child_count(a), 2);
    assert_eq!(graph.child(a, 1), Some(a2));
    assert_eq!(graph.child(a, 2), None);
    assert_eq!(graph.initial_child(a), Some(a1));
    assert_eq!(graph.initial_child(b), None);
}

#[test]
fn graph_rejects_links_that_are_not_sound() {
    let (mut graph, root, a, a1, _a2, b) = nested();
    assert_eq!(graph.add_child(5), None);
    assert_eq!(graph.len(), 5);
    assert!(!graph.set_initial(a, b), "b does not lie below a");
    assert!(!graph.set_initial(a, a), "a state is not its own initial child");
    assert!(!graph.set_initial(a1, root), "the root does not lie below a1");
    assert!(!graph.set_initial(root, 17), "17 is not a state");
    assert_eq!(graph.initial_child(a), Some(a1));
    assert!(graph.set_initial(root, a1), "a deeply nested initial child is accepted");
    assert!(!graph.set_parallel(9, true));
    assert!(!graph.set_history(9, Some(History::Deep)));
    assert!(graph.set_history(a, Some(History::Deep)));
    assert_eq!(graph.history_mode(a), Some(History::Deep));
    assert!(graph.set_history(a, None));
    assert_eq!(graph.history_mode(a), None);
    assert_eq!(History::default(), History::Shallow);
}

#[test]
fn active_set_is_the_closure_of_the_leaves() {
    let (graph, root, a, a1, a2, b) = nested();
    let leaves = set_of(&[a2, b]);
    let active = compute_active_from_leaves(&leaves, &graph);
    assert_eq!(active, set_of(&[a2, a, root, b]));
    assert!(!active.contains(&a1));
    assert_eq!(compute_active_from_leaves(&HashSet::new(), &graph), HashSet::new());
    assert_eq!(compute_active_from_leaves(&set_of(&[77]), &graph), set_of(&[77]));
}

#[test]
fn new_machine_has_active_root_and_no_leaf() {
    let mut machine = StateMachine::new(3);
    assert_eq!(machine.root, 3);
    assert!(machine.is_active(&3));
    assert!(!machine.is_active(&0));
    assert!(!machine.is_leaf_active(&3));
    assert!(machine.active_leaves.is_empty());
    machine.insert(5);
    machine.insert_leaf(6);
    assert!(machine.is_active(&5));
    assert!(!machine.is_leaf_active(&5));
    assert!(machine.is_leaf_active(&6));
    assert!(!machine.is_active(&6));
}

#[test]
fn first_transition_enters_from_below_the_root_and_drills_down() {
    let (graph, root, a, a1, _a2, _b) = nested();
    let edges = EdgeTable::new();
    let mut history = HistoryStore::new();
    let mut machine = StateMachine::new(root);
    let out = fire(&graph, &edges, &mut history, &mut machine, &initialize_state_machine(root));
    assert_eq!(out, vec![enter(root), enter(a), enter(a1)]);
    assert_eq!(machine.active_leaves, set_of(&[a1]));
    assert_eq!(machine.active, set_of(&[root, a, a1]));
}

#[test]
fn first_transition_to_a_nested_target_enters_its_ancestors_top_down() {
    let (graph, root, a, _a1, a2, _b) = nested();
    let edges = EdgeTable::new();
    let mut history = HistoryStore::new();
    let mut machine = StateMachine::new(root);
    let tr = Transition {
        machine: root,
        source: root,
        edge: Via::State(a2),
        payload: PhaseEvents::none(),
    };
    let out = fire(&graph, &edges, &mut history, &mut machine, &tr);
    assert_eq!(out, vec![enter(a), enter(a2)]);
    assert_eq!(machine.active_leaves, set_of(&[a2]));
    assert_eq!(machine.active, set_of(&[root, a, a2]));
}

#[test]
fn transition_exits_bottom_up_then_acts_then_enters_top_down() {
    let (graph, root, a, a1, _a2, b) = nested();
    let mut edges = EdgeTable::new();
    let e = edges.add_edge(Edge::new(a1, Some(b), Trigger::OnEvent(X)));
    let mut chart = started(graph, edges, root);
    let out = send(&mut chart, X, root);
    assert_eq!(out, vec![exit(a1), exit(a), actions(Via::Edge(e)), enter(b)]);
    assert_eq!(chart.machine.active_leaves, set_of(&[b]));
    assert_eq!(chart.machine.active, set_of(&[root, b]));
}

#[test]
fn transition_between_siblings_leaves_the_common_parent_alone() {
    let (graph, root, a, a1, a2, _b) = nested();
    let mut edges = EdgeTable::new();
    let e = edges.add_edge(Edge::new(a1, Some(a2), Trigger::OnEvent(X)));
    let mut chart = started(graph, edges, root);
    let out = send(&mut chart, X, root);
    assert_eq!(out, vec![exit(a1), actions(Via::Edge(e)), enter(a2)]);
    assert_eq!(chart.machine.active, set_of(&[root, a, a2]));
}

#[test]
fn external_transition_from_a_parent_into_its_child_reenters_the_parent() {
    let (graph, root, a, a1, a2, _b) = nested();
    let mut edges = EdgeTable::new();
    let e = edges.add_edge(Edge::new(a, Some(a2), Trigger::OnEvent(X)));
    let mut chart = started(graph, edges, root);
    let out = send(&mut chart, X, root);
    assert_eq!(out, vec![exit(a1), exit(a), actions(Via::Edge(e)), enter(a), enter(a2)]);
    assert_eq!(chart.machine.active_leaves, set_of(&[a2]));
}

#[test]
fn internal_transition_from_a_parent_into_its_child_keeps_the_parent() {
    let (graph, root, a, a1, a2, _b) = nested();
    let mut edges = EdgeTable::new();
    let mut inner = Edge::new(a, Some(a2), Trigger::OnEvent(X));
    inner.kind = EdgeKind::Internal;
    let e = edges.add_edge(inner);
    let mut chart = started(graph, edges, root);
    let out = send(&mut chart, X, root);
    assert_eq!(out, vec![exit(a1), actions(Via::Edge(e)), enter(a2)]);
    assert_eq!(chart.machine.active, set_of(&[root, a, a2]));
}

#[test]
fn external_self_loop_exits_and_enters_internal_does_neither() {
    let mut graph = StateGraph::new();
    let root = graph.add_root();
    let s = child(&mut graph, root);
    assert!(graph.set_initial(root, s));
    let mut edges = EdgeTable::new();
    let ext = edges.add_edge(Edge::new(s, Some(s), Trigger::OnEvent(X)));
    let mut inner = Edge::new(s, Some(s), Trigger::OnEvent(Y));
    inner.kind = EdgeKind::Internal;
    let int = edges.add_edge(inner);
    let mut chart = started(graph, edges, root);

    assert_eq!(send(&mut chart, X, root), vec![exit(s), actions(Via::Edge(ext)), enter(s)]);
    assert_eq!(chart.machine.active_leaves, set_of(&[s]));
    assert_eq!(send(&mut chart, Y, root), vec![actions(Via::Edge(int))]);
    assert_eq!(chart.machine.active_leaves, set_of(&[s]));
}

#[test]
fn transition_from_an_inactive_source_does_nothing() {
    let (graph, root, _a, a1, a2, b) = nested();
    let mut edges = EdgeTable::new();
    let e = edges.add_edge(Edge::new(a2, Some(b), Trigger::OnEvent(X)));
    let mut chart = started(graph, edges, root);
    let tr = Transition { machine: root, source: a2, edge: Via::Edge(e), payload: PhaseEvents::none() };
    let out = fire(&chart.graph, &chart.edges, &mut chart.history, &mut chart.machine, &tr);
    assert_eq!(out, vec![]);
    assert_eq!(chart.machine.active_leaves, set_of(&[a1]));
    let other = Transition { machine: b, source: a1, edge: Via::State(b), payload: PhaseEvents::none() };
    let out = fire(&chart.graph, &chart.edges, &mut chart.history, &mut chart.machine, &other);
    assert_eq!(out, vec![], "a request for another machine is ignored");
    let nowhere = Transition { machine: root, source: a1, edge: Via::State(40), payload: PhaseEvents::none() };
    let out = fire(&chart.graph, &chart.edges, &mut chart.history, &mut chart.machine, &nowhere);
    assert_eq!(out, vec![], "a target outside the graph is ignored");
    let missing = Transition { machine: root, source: a1, edge: Via::Edge(9), payload: PhaseEvents::none() };
    let out = fire(&chart.graph, &chart.edges, &mut chart.history, &mut chart.machine, &missing);
    assert_eq!(out, vec![], "a missing edge is ignored");
    assert_eq!(chart.machine.active, set_of(&[root, 1, a1]));
}

#[test]
fn closure_invariant_holds_after_every_step() {
    let mut graph = StateGraph::new();
    let root = graph.add_root();
    let p = child(&mut graph, root);
    assert!(graph.set_parallel(p, true));
    let r1 = child(&mut graph, p);
    let r2 = child(&mut graph, p);
    let l1 = child(&mut graph, r1);
    let m1 = child(&mut graph, r1);
    let l2 = child(&mut graph, r2);
    let z = child(&mut graph, root);
    assert!(graph.set_initial(root, p));
    assert!(graph.set_initial(r1, l1));
    assert!(graph.set_initial(r2, l2));
    let mut edges = EdgeTable::new();
    edges.add_edge(Edge::new(l1, Some(m1), Trigger::OnEvent(X)));
    edges.add_edge(Edge::new(p, Some(z), Trigger::OnEvent(Y)));
    edges.add_edge(Edge::new(z, Some(p), Trigger::OnEvent(X)));

    let mut chart = Chart::new(graph, edges, root);
    assert_eq!(chart.machine.active, closure_of(&chart.graph, &chart.machine));
    for kind in [X, Y, X, X, Y, Y, X] {
        chart.submit(Stimulus::Event(Event::new(kind, root)));
        while chart.step().is_some() {
            assert_eq!(chart.machine.active, closure_of(&chart.graph, &chart.machine));
        }
    }
    assert_eq!(chart.machine.active_leaves, set_of(&[l1, l2]));
    assert_eq!(chart.machine.active, set_of(&[root, p, r1, r2, l1, l2]));
}

#[test]
fn parallel_source_exits_every_leaf_below_it_once() {
    let mut graph = StateGraph::new();
    let root = graph.add_root();
    let p = child(&mut graph, root);
    assert!(graph.set_parallel(p, true));
    let r1 = child(&mut graph, p);
    let r2 = child(&mut graph, p);
    let z = child(&mut graph, root);
    assert!(graph.set_initial(root, p));
    let mut edges = EdgeTable::new();
    let e = edges.add_edge(Edge::new(p, Some(z), Trigger::OnEvent(X)));
    let mut chart = Chart::new(graph, edges, root);
    let init = chart.run(LIMIT);
    assert_eq!(init, vec![enter(root), enter(p), enter(r1), enter(r2)]);
    assert_eq!(chart.machine.active_leaves, set_of(&[r1, r2]));

    let out = send(&mut chart, X, root);
    assert_eq!(out, vec![exit(r1), exit(p), exit(r2), actions(Via::Edge(e)), enter(z)]);
    assert_eq!(chart.machine.active, set_of(&[root, z]));
}

#[test]
fn drill_down_visits_the_last_region_first() {
    let mut graph = StateGraph::new();
    let p = graph.add_root();
    assert!(graph.set_parallel(p, true));
    let r1 = child(&mut graph, p);
    let r2 = child(&mut graph, p);
    let l1 = child(&mut graph, r1);
    let l2 = child(&mut graph, r2);
    assert!(graph.set_initial(r1, l1));
    assert!(graph.set_initial(r2, l2));
    let history = HistoryStore::new();
    let (enters, leaves) = drill(&graph, &history, p);
    assert_eq!(enters, vec![r1, r2, l2, l1]);
    assert_eq!(leaves, set_of(&[l1, l2]));
    let mut commands = vec![exit(9)];
    let found = get_all_leaf_states(r1, &graph, &history, &mut commands);
    assert_eq!(commands, vec![exit(9), enter(l1)]);
    assert_eq!(found, set_of(&[l1]));
    let (enters, leaves) = drill(&graph, &history, l2);
    assert_eq!(enters, vec![]);
    assert_eq!(leaves, set_of(&[l2]));
}

#[test]
fn drill_down_restores_snapshots() {
    let (mut graph, _root, a, a1, a2, _b) = nested();
    let mut history = HistoryStore::new();
    assert!(history.get(a).is_none());

    assert!(graph.set_history(a, Some(History::Shallow)));
    history.save(a, HistoryState(set_of(&[a2])));
    assert_eq!(history.get(a).map(|s| s.0.clone()), Some(set_of(&[a2])));
    let (enters, leaves) = drill(&graph, &history, a);
    assert_eq!(enters, vec![a2]);
    assert_eq!(leaves, set_of(&[a2]));

    history.save(a, HistoryState(HashSet::new()));
    let (enters, leaves) = drill(&graph, &history, a);
    assert_eq!(enters, vec![]);
    assert_eq!(leaves, HashSet::new(), "an empty snapshot restores nothing");

    assert!(graph.set_history(a, None));
    let (enters, leaves) = drill(&graph, &history, a);
    assert_eq!(enters, vec![a1]);
    assert_eq!(leaves, set_of(&[a1]), "without a history mode the snapshot is not used");

    history.clear();
    assert!(history.get(a).is_none());
}

#[test]
fn deep_history_restores_the_exact_leaf_and_enters_the_way_down() {
    let mut graph = StateGraph::new();
    let root = graph.add_root();
    let r = child(&mut graph, root);
    assert!(graph.set_history(r, Some(History::Deep)));
    let a = child(&mut graph, r);
    let a1 = child(&mut graph, a);
    let a2 = child(&mut graph, a);
    let z = child(&mut graph, root);
    assert!(graph.set_initial(root, r));
    assert!(graph.set_initial(r, a));
    assert!(graph.set_initial(a, a1));
    let mut edges = EdgeTable::new();
    edges.add_edge(Edge::new(a1, Some(a2), Trigger::OnEvent(Y)));
    let out_edge = edges.add_edge(Edge::new(r, Some(z), Trigger::OnEvent(X)));
    let back_edge = edges.add_edge(Edge::new(root, Some(r), Trigger::OnEvent(X)));
    let mut chart = started(graph, edges, root);
    assert_eq!(chart.machine.active_leaves, set_of(&[a1]));

    send(&mut chart, Y, root);
    assert_eq!(chart.machine.active_leaves, set_of(&[a2]));

    let out = send(&mut chart, X, root);
    assert_eq!(out, vec![exit(a2), exit(a), exit(r), actions(Via::Edge(out_edge)), enter(z)]);
    assert_eq!(chart.history.get(r).map(|s| s.0.clone()), Some(set_of(&[a2])));

    let back = send(&mut chart, X, root);
    assert_eq!(
        back,
        vec![
            exit(z),
            exit(root),
            actions(Via::Edge(back_edge)),
            enter(root),
            enter(r),
            enter(a),
            enter(a2)
        ]
    );
    assert_eq!(chart.machine.active_leaves, set_of(&[a2]));
    assert_eq!(chart.machine.active, set_of(&[root, r, a, a2]));
}

#[test]
fn shallow_history_restores_the_child_and_drills_from_it() {
    let mut graph = StateGraph::new();
    let root = graph.add_root();
    let r = child(&mut graph, root);
    assert!(graph.set_history(r, Some(History::Shallow)));
    let a = child(&mut graph, r);
    let b = child(&mut graph, r);
    let b1 = child(&mut graph, b);
    let b2 = child(&mut graph, b);
    let z = child(&mut graph, root);
    assert!(graph.set_initial(root, r));
    assert!(graph.set_initial(r, a));
    assert!(graph.set_initial(b, b1));
    let mut edges = EdgeTable::new();
    edges.add_edge(Edge::new(a, Some(b2), Trigger::OnEvent(Y)));
    edges.add_edge(Edge::new(r, Some(z), Trigger::OnEvent(X)));
    edges.add_edge(Edge::new(z, Some(r), Trigger::OnEvent(X)));
    let mut chart = started(graph, edges, root);

    send(&mut chart, Y, root);
    assert_eq!(chart.machine.active_leaves, set_of(&[b2]));
    send(&mut chart, X, root);
    assert_eq!(chart.machine.active_leaves, set_of(&[z]));
    assert_eq!(chart.history.get(r).map(|s| s.0.clone()), Some(set_of(&[b])));

    let back = send(&mut chart, X, root);
    assert!(chart.machine.is_active(&b), "the remembered child is active again");
    assert_eq!(
        chart.machine.active_leaves,
        set_of(&[b1]),
        "below the remembered child the initial child is entered"
    );
    assert_eq!(back[back.len() - 3..], [enter(r), enter(b), enter(b1)]);
}

#[test]
fn phase_events_are_delivered_around_the_transition() {
    let (graph, root, a, a1, _a2, b) = nested();
    let mut edges = EdgeTable::new();
    let e = edges.add_edge(Edge::new(a, Some(b), Trigger::OnEvent(X)));
    let mut chart = started(graph, edges, root);
    let event = Event {
        kind: X,
        target: root,
        phases: PhaseEvents { exit: Some(10), effect: Some(20), entry: Some(30) },
    };
    chart.submit(Stimulus::Event(event));
    let out = chart.run(LIMIT);
    assert_eq!(
        out,
        vec![
            Notification::ExitEvent { target: a, event: 10 },
            Notification::ExitEvent { target: a1, event: 10 },
            exit(a1),
            exit(a),
            actions(Via::Edge(e)),
            Notification::EffectEvent { via: Via::Edge(e), event: 20 },
            enter(b),
            Notification::EntryEvent { target: b, event: 30 },
        ]
    );
}

#[test]
fn guarded_edge_is_skipped_and_the_next_one_fires() {
    let mut graph = StateGraph::new();
    let root = graph.add_root();
    let s = child(&mut graph, root);
    let t1 = child(&mut graph, root);
    let t2 = child(&mut graph, root);
    assert!(graph.set_initial(root, s));
    let mut edges = EdgeTable::new();
    let mut first = Edge::new(s, Some(t1), Trigger::OnEvent(X));
    first.guards = Guards::init(vec!["closed"]);
    edges.add_edge(first);
    edges.add_edge(Edge::new(s, Some(t2), Trigger::OnEvent(X)));
    let mut chart = started(graph, edges, root);
    send(&mut chart, X, root);
    assert_eq!(chart.machine.active_leaves, set_of(&[t2]));
}

#[test]
fn always_edge_chain_runs_to_a_stable_state() {
    let mut graph = StateGraph::new();
    let root = graph.add_root();
    let s = child(&mut graph, root);
    let t = child(&mut graph, root);
    let u = child(&mut graph, root);
    assert!(graph.set_initial(root, s));
    let mut edges = EdgeTable::new();
    edges.add_edge(Edge::new(s, None, Trigger::Always));
    let mut delayed = Edge::new(s, Some(u), Trigger::Always);
    delayed.after = Some(After::new(5));
    edges.add_edge(delayed);
    let first = edges.add_edge(Edge::new(s, Some(t), Trigger::Always));
    let second = edges.add_edge(Edge::new(t, Some(u), Trigger::Always));
    let mut chart = Chart::new(graph, edges, root);
    let out = chart.run(LIMIT);
    assert!(chart.is_idle());
    assert_eq!(
        out,
        vec![
            enter(root),
            enter(s),
            exit(s),
            actions(Via::Edge(first)),
            enter(t),
            exit(t),
            actions(Via::Edge(second)),
            enter(u),
        ]
    );
    assert_eq!(chart.machine.active_leaves, set_of(&[u]));
    assert!(chart.timers.timer(1).is_none(), "the exit of s cancelled its delayed edge");
}

#[test]
fn run_stops_at_its_limit_and_goes_on_later() {
    let (graph, root, a, a1, _a2, _b) = nested();
    let mut chart = Chart::new(graph, EdgeTable::new(), root);
    assert!(!chart.is_idle());
    assert_eq!(chart.run(0), vec![]);
    assert_eq!(chart.run(1), vec![enter(root), enter(a), enter(a1)]);
    assert!(!chart.is_idle(), "the entries still wait to be worked off");
    assert_eq!(chart.run(LIMIT), vec![]);
    assert!(chart.is_idle());
    assert_eq!(chart.step(), None);
}

#[test]
fn of_two_matching_edges_the_first_is_taken() {
    let mut graph = StateGraph::new();
    let root = graph.add_root();
    let s = child(&mut graph, root);
    let t1 = child(&mut graph, root);
    let t2 = child(&mut graph, root);
    assert!(graph.set_initial(root, s));
    let mut edges = EdgeTable::new();
    let first = edges.add_edge(Edge::new(s, Some(t1), Trigger::OnEvent(X)));
    edges.add_edge(Edge::new(s, Some(t2), Trigger::OnEvent(X)));
    let mut chart = started(graph, edges, root);
    assert_eq!(chart.machine.active_leaves, set_of(&[s]));

    let out = send(&mut chart, X, root);
    assert_eq!(out, vec![exit(s), actions(Via::Edge(first)), enter(t1)]);
    assert_eq!(chart.machine.active_leaves, set_of(&[t1]));
    assert_eq!(chart.machine.active, set_of(&[root, t1]));
}

#[test]
fn deep_history_there_and_back() {
    let mut graph = StateGraph::new();
    let root = graph.add_root();
    let a = child(&mut graph, root);
    assert!(graph.set_history(a, Some(History::Deep)));
    let a1 = child(&mut graph, a);
    let z = child(&mut graph, root);
    assert!(graph.set_initial(root, a));
    assert!(graph.set_initial(a, a1));
    let mut edges = EdgeTable::new();
    edges.add_edge(Edge::new(a, Some(z), Trigger::OnEvent(X)));
    edges.add_edge(Edge::new(root, Some(a), Trigger::OnEvent(Y)));
    let mut chart = started(graph, edges, root);
    assert_eq!(chart.machine.active_leaves, set_of(&[a1]));

    send(&mut chart, X, root);
    assert_eq!(chart.machine.active_leaves, set_of(&[z]));

    send(&mut chart, Y, root);
    assert_eq!(chart.machine.active_leaves, set_of(&[a1]));
}
