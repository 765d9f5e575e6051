//! Resets: of the data of subtrees when a transition's actions run, and of a
//! whole machine.
use crate::edges::{edge_at, EdgeTable, EdgeTableView, ResetEdge, ResetScope};
use crate::engine::{fire, fire_outcome};
use crate::events::{
    Notification, PhaseEvents, Reset, ResetRegion, Transition, TransitionActions, Via,
};
use crate::graph::{is_ancestor, StateGraph, StateNode};
use crate::history::HistoryStore;
use crate::machine::StateMachine;
use crate::sets::ascending;
use vstd::prelude::*;

verus! {

/// The states that lie properly below `top`, in ascending order.
pub open spec fn subtree_below(g: Seq<StateNode>, top: usize) -> Seq<usize> {
    ascending(Set::new(|d: usize| is_ancestor(g, top, d)), 0, g.len() as usize)
}

/// The states that a transition from `source` to `target` resets.
pub open spec fn reset_list(g: Seq<StateNode>, scope: ResetScope, source: usize, target: usize) -> Seq<
    usize,
> {
    match scope {
        ResetScope::Source => seq![source] + subtree_below(g, source),
        ResetScope::Target => seq![target] + subtree_below(g, target),
        ResetScope::Both => seq![source, target] + subtree_below(g, source) + subtree_below(
            g,
            target,
        ),
    }
}

/// The reset notices that the actions of a transition give: none unless the
/// transition goes through an edge that is marked for reset and has a
/// target.
pub open spec fn resets_of(g: Seq<StateNode>, t: EdgeTableView, actions: TransitionActions) -> Seq<
    Reset,
> {
    match actions.target {
        Via::Edge(e) => match edge_at(t, e) {
            Some(edge) => match (edge.reset, edge.target) {
                (Some(r), Some(target)) => reset_list(g, r.0, edge.source, target).map_values(
                    |s: usize| Reset { target: s },
                ),
                _ => Seq::empty(),
            },
            None => Seq::empty(),
        },
        Via::State(_) => Seq::empty(),
    }
}

/// The states that lie properly below `top`, in ascending order.
pub fn find_subtree_below(graph: &StateGraph, top: usize) -> (below: Vec<usize>)
    ensures
        below@ == subtree_below(graph@, top),
{
    proof {
        use_type_invariant(graph);
    }
    let n = graph.len();
    let ghost wanted = Set::new(|d: usize| is_ancestor(graph@, top, d));
    let mut below: Vec<usize> = Vec::new();
    let mut d: usize = 0;
    while d < n
        invariant
            graph.wf(),
            n == graph@.len(),
            d <= n,
            wanted == Set::new(|d: usize| is_ancestor(graph@, top, d)),
            below@ == ascending(wanted, 0, d),
        decreases n - d,
    {
        if graph.is_ancestor(top, d) {
            below.push(d);
        }
        d = d + 1;
    }
    below
}

fn push_resets(out: &mut Vec<Reset>, ids: &Vec<usize>)
    ensures
        final(out)@ == old(out)@ + ids@.map_values(|s: usize| Reset { target: s }),
{
    let ghost f = |s: usize| Reset { target: s };
    let mut i: usize = 0;
    while i < ids.len()
        invariant
            i <= ids.len(),
            f == (|s: usize| Reset { target: s }),
            out@ == old(out)@ + ids@.take(i as int).map_values(f),
        decreases ids.len() - i,
    {
        out.push(Reset::new(ids[i]));
        proof {
            assert(ids@.take(i + 1) == ids@.take(i as int).push(ids@[i as int]));
            assert(ids@.take(i + 1).map_values(f) =~= ids@.take(i as int).map_values(f).push(
                f(ids@[i as int]),
            ));
            assert(out@ == old(out)@ + ids@.take(i + 1).map_values(f));
        }
        i = i + 1;
    }
    proof {
        assert(ids@.take(ids@.len() as int) == ids@);
    }
}

/// When the actions of a transition run: the reset notices for the
/// subtrees that the transition's edge asks to reset.
pub fn reset_on_transition_actions(
    transition_action: &TransitionActions,
    graph: &StateGraph,
    edges: &EdgeTable,
) -> (resets: Vec<Reset>)
    ensures
        resets@ == resets_of(graph@, edges@, *transition_action),
{
    proof {
        use_type_invariant(graph);
    }
    let mut out: Vec<Reset> = Vec::new();
    let edge = match transition_action.target {
        Via::Edge(e) => e,
        Via::State(_) => {
            return out;
        },
    };
    let (scope, source, target) = match edges.get(edge) {
        Some(e) => match (e.reset, e.target) {
            (Some(ResetEdge(scope)), Some(target)) => (scope, e.source, target),
            _ => {
                return out;
            },
        },
        None => {
            return out;
        },
    };
    let ghost f = |s: usize| Reset { target: s };
    let ghost g = graph@;
    match scope {
        ResetScope::Source => {
            out.push(Reset::new(source));
            let below = find_subtree_below(graph, source);
            push_resets(&mut out, &below);
            proof {
                assert(out@ =~= (seq![source] + subtree_below(g, source)).map_values(f));
            }
        },
        ResetScope::Target => {
            out.push(Reset::new(target));
            let below = find_subtree_below(graph, target);
            push_resets(&mut out, &below);
            proof {
                assert(out@ =~= (seq![target] + subtree_below(g, target)).map_values(f));
            }
        },
        ResetScope::Both => {
            out.push(Reset::new(source));
            out.push(Reset::new(target));
            let below_source = find_subtree_below(graph, source);
            push_resets(&mut out, &below_source);
            let below_target = find_subtree_below(graph, target);
            push_resets(&mut out, &below_target);
            proof {
                assert(out@ =~= (seq![source, target] + subtree_below(g, source) + subtree_below(
                    g,
                    target,
                )).map_values(f));
            }
        },
    }
    out
}

/// The transition that initializes the machine rooted at `root`: it enters
/// the root and drills down from it.
pub open spec fn initial_transition(root: usize) -> Transition {
    Transition {
        machine: root,
        source: root,
        edge: Via::State(root),
        payload: PhaseEvents { exit: None, effect: None, entry: None },
    }
}

/// The request that initializes the machine rooted at `root`.
pub fn initialize_state_machine(root: usize) -> (t: Transition)
    ensures
        t == initial_transition(root),
{
    Transition { machine: root, source: root, edge: Via::State(root), payload: PhaseEvents::none() }
}

/// Resets the machine when `reset_region` names its root: every state
/// becomes inactive, and the machine is initialized again from its root.
/// Snapshots and timers stay. A request for another state does nothing.
pub fn reset_state_region(
    reset_region: &ResetRegion,
    graph: &StateGraph,
    edges: &EdgeTable,
    history: &mut HistoryStore,
    machine: &mut StateMachine,
) -> (out: Vec<Notification>)
    ensures
        final(machine).root == old(machine).root,
        reset_region.target != old(machine).root ==> {
            &&& out@.len() == 0
            &&& final(machine).leaf_set() == old(machine).leaf_set()
            &&& final(machine).active_set() == old(machine).active_set()
            &&& final(history)@ == old(history)@
        },
        reset_region.target == old(machine).root ==> final(machine).closed_over(graph@) && match fire_outcome(
            graph@,
            edges@,
            old(history)@,
            Set::<usize>::empty(),
            Set::<usize>::empty().insert(old(machine).root),
            old(machine).root,
            initial_transition(old(machine).root),
        ) {
            Some(o) => {
                &&& out@ == o.notifications
                &&& final(machine).leaf_set() == o.leaves
                &&& final(history)@ == o.history
            },
            None => {
                &&& out@.len() == 0
                &&& final(machine).leaf_set() == Set::<usize>::empty()
                &&& final(history)@ == old(history)@
            },
        },
{
    proof {
        use_type_invariant(graph);
    }
    let root = machine.root;
    if reset_region.target != root {
        return Vec::new();
    }
    *machine = StateMachine::new(root);
    proof {
        assert(machine.closed_over(graph@));
    }
    let start = initialize_state_machine(root);
    fire(graph, edges, history, machine, &start)
}

} // verus!
