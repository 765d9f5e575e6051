//! Laws of the engine: what holds of every chart.
use crate::chart::{
    blank, fires, react, react_event, react_exited, run_of, sends, ChartView, Stimulus,
};
use crate::deferral::{
    after_defer, buffers_of, defer_in, defers, emptied, held, readdressed, DeferEvent,
};
use crate::dispatch::{
    always_choice, always_ready, branch_walk, dispatch_at, edge_valid, event_choice, event_ready,
    first_match, heard, lemma_first_match, listen_leaf, listen_leaves, region_root, ListenState,
};
use crate::drill::{
    deep_enters, drill_enters, drill_enters_all, drill_here, drill_leaf_here, drill_leaves,
    drill_leaves_all, drill_pushes,
};
use crate::dispatch::{queue_after, request, Dispatch};
use crate::edges::{edge_at, listed, EdgeKind, EdgeTableView};
use crate::graph::root_of;
use crate::engine::{
    effect_events, fire_outcome, lemma_closure_empty, outcome_running, phase_events, resolve,
};
use crate::events::{
    enter_all, exit_all, EnterState, Event, ExitState, Notification, Transition,
    TransitionActions, Via,
};
use crate::graph::{
    ancestors, children_of, climb, descent, descent_below, graph_wf, history_of, initial_of,
    is_ancestor, is_descendant_or_self, lemma_ancestor_transitive, lemma_ancestors_smaller,
    node_wf, parallel_at, parent_of, path_to_root, History, StateNode,
};
use crate::history::{
    deep_snapshot, history_after, history_wf, lemma_child_below, lemma_history_stays_wf,
    shallow_snapshot, snapshot_of,
};
use crate::machine::closure;
use crate::plan::{
    append_new, common_suffix_len, entry_lca, entry_path, exit_list, leaf_exits, leaves_under,
    lemma_common_suffix_bound, parallel_exits, prefix_through, sequential_exits,
};
use crate::sets::{ascending, lemma_ascending_contains};
use crate::timers::{pending_of, ticked, timer_of, EdgeTimer, TimersView};
use crate::timing::{
    delayed, delayed_always, event_tick, recheck, tick_edges, tick_sources,
};
use vstd::prelude::*;

verus! {

/// The closure invariant: the active states are the root, the active leaves
/// and the ancestors of the active leaves.
pub open spec fn closed(c: ChartView) -> bool {
    c.active == closure(c.g, c.leaves).insert(c.root)
}

/// The closure invariant is kept by every reaction of a chart, whatever the
/// stimulus.
pub proof fn law_closure_invariant(c: ChartView, s: Stimulus)
    requires
        closed(c),
    ensures
        closed(react(c, s).next),
{
    reveal(react);
    match s {
        Stimulus::Fire(tr) => {},
        Stimulus::Reset(r) => {
            if r.target == c.root {
                lemma_closure_empty(c.g);
                assert(closed(blank(c)));
            }
        },
        _ => {},
    }
}

/// The closure invariant holds after any number of steps of a chart that
/// starts with it.
pub proof fn law_closure_invariant_run(c: ChartView, pending: Seq<Stimulus>, fuel: nat)
    requires
        closed(c),
    ensures
        closed(run_of(c, pending, fuel).0),
    decreases fuel,
{
    if fuel > 0 && pending.len() > 0 {
        let r = react(c, pending.last());
        law_closure_invariant(c, pending.last());
        law_closure_invariant_run(
            r.next,
            pending.drop_last() + r.raised.reverse(),
            (fuel - 1) as nat,
        );
    }
}

/// Priority: of two edges of one source that are both ready for an event,
/// the one that comes later in the source's list is not the one selected;
/// the edge selected is ready and no edge before it in the list is.
pub proof fn law_priority(t: EdgeTableView, source: usize, kind: u64, i: int, j: int)
    requires
        0 <= i < j < listed(t, source).len(),
        event_ready(t, listed(t, source)[i], kind),
        event_ready(t, listed(t, source)[j], kind),
        forall|m: int| 0 <= m <= i ==> #[trigger] listed(t, source)[m] != listed(t, source)[j],
    ensures
        event_choice(t, source, kind) is Some,
        event_choice(t, source, kind) != Some(listed(t, source)[j]),
        exists|k: int|
            0 <= k <= i && #[trigger] listed(t, source)[k] == event_choice(t, source, kind)->0
                && event_ready(t, listed(t, source)[k], kind) && forall|m: int|
                0 <= m < k ==> !event_ready(t, #[trigger] listed(t, source)[m], kind),
{
    let list = listed(t, source);
    let pred = |e: usize| event_ready(t, e, kind);
    lemma_first_match(list, pred);
    assert(pred(list[i]));
    match first_match(list, pred) {
        Some(e) => {
            let k = choose|k: int|
                0 <= k < list.len() && #[trigger] list[k] == e && pred(e) && forall|m: int|
                    0 <= m < k ==> !pred(#[trigger] list[m]);
            if k > i {
                assert(!pred(list[i]));
            }
            assert(0 <= k <= i && list[k] == e && event_ready(t, list[k], kind) && forall|m: int|
                0 <= m < k ==> !event_ready(t, #[trigger] list[m], kind)) by {
                assert forall|m: int| 0 <= m < k implies !event_ready(t, #[trigger] list[m], kind) by {
                    assert(!pred(list[m]));
                }
            }
            if e == list[j] {
                assert(list[k] != list[j]);
            }
        },
        None => {
            assert(!pred(list[i]));
        },
    }
}

/// The first ready edge in a list is the one selected.
pub proof fn lemma_first_ready_is_choice(t: EdgeTableView, source: usize, kind: u64, i: int)
    requires
        0 <= i < listed(t, source).len(),
        event_ready(t, listed(t, source)[i], kind),
        forall|m: int| 0 <= m < i ==> !event_ready(t, #[trigger] listed(t, source)[m], kind),
    ensures
        event_choice(t, source, kind) == Some(listed(t, source)[i]),
{
    let list = listed(t, source);
    let pred = |e: usize| event_ready(t, e, kind);
    lemma_first_match(list, pred);
    assert(pred(list[i]));
    match first_match(list, pred) {
        Some(e) => {
            let k = choose|k: int|
                0 <= k < list.len() && #[trigger] list[k] == e && pred(e) && forall|m: int|
                    0 <= m < k ==> !pred(#[trigger] list[m]);
            if k < i {
                assert(!event_ready(t, list[k], kind));
            }
            if i < k {
                assert(!pred(list[i]));
            }
        },
        None => {
            assert(!pred(list[i]));
        },
    }
}

/// A set of one state lists that state.
pub proof fn lemma_ascending_single(s: Set<usize>, n: usize, x: usize)
    requires
        x < n,
        s == Set::<usize>::empty().insert(x),
    ensures
        ascending(s, 0, n) == seq![x],
{
    lemma_ascending_trim(s, 0, (x + 1) as usize, n);
    lemma_ascending_trim(s, 0, 0, x);
    assert(ascending(s, 0, 0) == Seq::<usize>::empty());
    assert(ascending(s, 0, (x + 1) as usize) == ascending(s, 0, x).push(x));
    assert(ascending(s, 0, n) =~= seq![x]);
}

proof fn lemma_append_new_keeps(acc: Seq<usize>, xs: Seq<usize>, x: usize)
    requires
        acc.contains(x) || xs.contains(x),
    ensures
        append_new(acc, xs).contains(x),
    decreases xs.len(),
{
    if xs.len() > 0 {
        let a = append_new(acc, xs.drop_last());
        if acc.contains(x) || xs.drop_last().contains(x) {
            lemma_append_new_keeps(acc, xs.drop_last(), x);
            if !a.contains(xs.last()) {
                let k = choose|k: int| 0 <= k < a.len() && a[k] == x;
                assert(a.push(xs.last())[k] == x);
            }
        } else {
            let k = choose|k: int| 0 <= k < xs.len() && xs[k] == x;
            if k < xs.len() - 1 {
                assert(xs.drop_last()[k] == x);
            }
            assert(xs.last() == x);
            if !a.contains(x) {
                assert(a.push(x)[a.len() as int] == x);
            }
        }
    }
}

/// Priority, heard at the root: when `s` is the only active leaf, does not
/// hold the event back, and the edge at position `i` of its list is the
/// first that is ready for the event and is not delayed, an event sent to
/// the root leads to exactly one transition: from `s` through that edge.
/// No edge after it in the list fires.
pub proof fn law_first_edge_fires_alone(c: ChartView, ev: Event, s: usize, i: int)
    requires
        ev.target == c.root,
        s < c.g.len(),
        c.g.len() <= usize::MAX,
        c.leaves == Set::<usize>::empty().insert(s),
        !(defers(buffers_of(c.q, s), ev.kind) && c.active.contains(s)),
        0 <= i < listed(c.t, s).len(),
        event_ready(c.t, listed(c.t, s)[i], ev.kind),
        forall|m: int| 0 <= m < i ==> !event_ready(c.t, #[trigger] listed(c.t, s)[m], ev.kind),
        c.t.edges[listed(c.t, s)[i] as int].after is None,
    ensures
        ({
            let h = heard(c.g, c.t, c.q, c.v, c.leaves, c.active, c.root, ev);
            &&& h.transitions == seq![request(c.g, s, listed(c.t, s)[i], ev.phases)]
            &&& h.queue == c.q
            &&& h.timers == c.v
        }),
{
    let e1 = listed(c.t, s)[i];
    lemma_first_ready_is_choice(c.t, s, ev.kind, i);
    lemma_ascending_single(c.leaves, c.g.len() as usize, s);
    let order = seq![s];
    let start = ListenState {
        visited: Set::empty(),
        fired: Set::empty(),
        held: false,
        queue: c.q,
        timers: c.v,
        transitions: Seq::empty(),
    };
    assert(order.drop_last() =~= Seq::<usize>::empty());
    assert(order.last() == s);
    let st0 = listen_leaves(c.g, c.t, c.active, c.root, ev, start, Seq::<usize>::empty());
    assert(st0 == start);
    let st1 = listen_leaves(c.g, c.t, c.active, c.root, ev, start, order);
    assert(st1 == listen_leaf(c.g, c.t, c.active, c.root, ev, st0, s));
    let d = dispatch_at(c.g, c.t, c.q, c.active, s, ev);
    assert(d == Dispatch::Fire(request(c.g, s, e1, ev.phases)));
    let o = branch_walk(c.g, c.t, c.active, c.root, ev, s, start.visited, start.queue, start.timers);
    assert(o.result == d);
    assert(st1.transitions =~= seq![request(c.g, s, e1, ev.phases)]);
    assert(st1.fired.contains(region_root(c.g, s)));
    assert(st1.fired != Set::<usize>::empty());
}

/// Priority, after the transition: under the conditions of
/// `law_first_edge_fires_alone`, when the first ready edge is external, its
/// source lies in the machine, and its target `t1` is a plain state of the
/// graph (no history, no regions, no initial child), then after the
/// transition `t1` is the only active leaf, and a state `t2` that is neither
/// the root nor `t1` nor above `t1` is not active, whatever later edge of
/// the list leads to it.
pub proof fn law_first_target_active_alone(c: ChartView, ev: Event, s: usize, i: int, t2: usize)
    requires
        graph_wf(c.g),
        ev.target == c.root,
        s < c.g.len(),
        c.g.len() <= usize::MAX,
        root_of(c.g, s) == c.root,
        c.leaves == Set::<usize>::empty().insert(s),
        0 <= i < listed(c.t, s).len(),
        event_ready(c.t, listed(c.t, s)[i], ev.kind),
        c.t.edges[listed(c.t, s)[i] as int].kind == EdgeKind::External,
        c.t.edges[listed(c.t, s)[i] as int].target->0 < c.g.len(),
        ({
            let t1 = c.t.edges[listed(c.t, s)[i] as int].target->0;
            &&& history_of(c.g, t1) is None
            &&& !(parallel_at(c.g, t1) && children_of(c.g, t1).len() > 0)
            &&& initial_of(c.g, t1) is None
            &&& t2 != c.root
            &&& !path_to_root(c.g, t1).contains(t2)
        }),
    ensures
        ({
            let e1 = listed(c.t, s)[i];
            let t1 = c.t.edges[e1 as int].target->0;
            let tr = request(c.g, s, e1, ev.phases);
            let o = fire_outcome(c.g, c.t, c.h, c.leaves, c.active, c.root, tr);
            &&& o is Some
            &&& o->0.leaves == Set::<usize>::empty().insert(t1)
            &&& closure(c.g, o->0.leaves).insert(c.root).contains(t1)
            &&& !closure(c.g, o->0.leaves).insert(c.root).contains(t2)
        }),
{
    let g = c.g;
    let e1 = listed(c.t, s)[i];
    let t1 = c.t.edges[e1 as int].target->0;
    let tr = request(g, s, e1, ev.phases);
    assert(resolve(c.t, tr.edge) == Some((t1, false)));
    let below = c.leaves.filter(|l: usize| is_descendant_or_self(g, l, s));
    assert(below =~= c.leaves);
    lemma_ascending_single(below, g.len() as usize, s);
    let under = leaves_under(g, c.leaves, s);
    assert(under == seq![s]);
    assert(under.drop_last() =~= Seq::<usize>::empty());
    assert(under.last() == s);
    let p = path_to_root(g, s);
    let exits = exit_list(g, c.leaves, s, t1, false);
    assert(exits.contains(s)) by {
        if parallel_at(g, s) {
            let pe = prefix_through(p, s);
            assert(pe =~= seq![s]);
            assert(pe[0] == s);
            lemma_append_new_keeps(parallel_exits(g, under.drop_last(), s), pe, s);
        } else {
            lemma_common_suffix_bound(p, path_to_root(g, t1));
            let le = leaf_exits(g, s, s, t1, false);
            assert(le.len() >= 1);
            assert(le[0] == s);
            lemma_append_new_keeps(sequential_exits(g, under.drop_last(), s, t1, false), le, s);
        }
    }
    let o = outcome_running(g, c.h, c.leaves, c.active, c.root, tr, t1, false);
    assert(drill_pushes(g, o.history, t1) == Seq::<usize>::empty());
    assert(drill_leaves_all(g, o.history, t1, Seq::<usize>::empty()) == Set::<usize>::empty());
    assert(drill_leaves(g, o.history, t1) =~= Set::<usize>::empty().insert(t1));
    assert(o.leaves =~= Set::<usize>::empty().insert(t1));
    assert(path_to_root(g, t1)[0] == t1);
    assert(o.leaves.contains(t1) && path_to_root(g, t1).contains(t1));
    if closure(g, o.leaves).contains(t2) {
        let l = choose|l: usize| o.leaves.contains(l) && #[trigger] path_to_root(g, l).contains(t2);
        assert(l == t1);
    }
}

/// An edge without a target is inert: a transition through it does nothing,
/// no stimulus selects it, and neither changed guards nor passing time make
/// it fire.
pub proof fn law_no_target_inert(
    g: Seq<StateNode>,
    t: EdgeTableView,
    h: Map<usize, Set<usize>>,
    v: TimersView,
    leaves: Set<usize>,
    active: Set<usize>,
    root: usize,
    e: usize,
    tr: Transition,
    source: usize,
    kind: u64,
    delta: u64,
)
    requires
        match edge_at(t, e) {
            Some(edge) => edge.target is None,
            None => true,
        },
        tr.edge == Via::Edge(e),
    ensures
        fire_outcome(g, t, h, leaves, active, root, tr) is None,
        always_choice(t, source) != Some(e),
        event_choice(t, source, kind) != Some(e),
        recheck(g, t, active, e) is Nothing,
        forall|x: usize| recheck(g, t, active, x) is Fire ==> recheck(g, t, active, x)->Fire_0.edge
            != Via::Edge(e),
        tick_edges(t, v.timers, listed(t, source), delta).1 != Some(e),
        !(event_tick(g, t, active, v, e, delta) is Fired),
{
    assert(resolve(t, tr.edge) is None);
    assert forall|x: usize| recheck(g, t, active, x) is Fire implies recheck(
        g,
        t,
        active,
        x,
    )->Fire_0.edge != Via::Edge(e) by {
        let s = edge_at(t, x)->0.source;
        lemma_first_match(listed(t, s), |y: usize| always_ready(t, y));
    }
    lemma_first_match(listed(t, source), |x: usize| always_ready(t, x));
    lemma_first_match(listed(t, source), |x: usize| event_ready(t, x, kind));
    lemma_tick_edges_fires_valid(t, v.timers, listed(t, source), delta);
}

/// An edge that fires because its time has come had a timer and is valid.
pub proof fn lemma_tick_edges_fires_valid(
    t: EdgeTableView,
    timers: Map<usize, EdgeTimer>,
    list: Seq<usize>,
    delta: u64,
)
    ensures
        match tick_edges(t, timers, list, delta).1 {
            Some(e) => timers.dom().contains(e) && list.contains(e) && match edge_at(t, e) {
                Some(edge) => edge.valid(),
                None => false,
            },
            None => true,
        },
    decreases list.len(),
{
    if list.len() > 0 {
        let e = list[0];
        let rest = list.skip(1);
        let next = if delayed_always(t, e) && timers.dom().contains(e) {
            let tk = ticked(timers[e], delta);
            if !tk.just_finished {
                timers.insert(e, tk)
            } else {
                timers.remove(e)
            }
        } else {
            timers
        };
        lemma_tick_edges_fires_valid(t, next, rest, delta);
        match tick_edges(t, timers, list, delta).1 {
            Some(f) => {
                if f != e {
                    assert(rest.contains(f));
                    let k = choose|k: int| 0 <= k < rest.len() && rest[k] == f;
                    assert(list[k + 1] == f);
                } else {
                    assert(list[0] == f);
                    if !(delayed_always(t, e) && timers.dom().contains(e)
                        && ticked(timers[e], delta).just_finished
                        && edge_valid(t, e)) {
                        assert(next.dom().contains(f) ==> timers.dom().contains(f));
                    }
                }
            },
            None => {},
        }
    }
}

/// Deferral of an event sent to a state: an event for an active state that
/// holds events of its type back is not dispatched. No transition is raised, no timer changes, and
/// afterwards every buffer of the state for this type holds the event.
pub proof fn law_deferred_not_dispatched(c: ChartView, ev: Event)
    requires
        ev.target != c.root,
        defers(buffers_of(c.q, ev.target), ev.kind),
        c.active.contains(ev.target),
    ensures
        dispatch_at(c.g, c.t, c.q, c.active, ev.target, ev) is Deferred,
        react_event(c, ev).raised.len() == 0,
        react_event(c, ev).out.len() == 0,
        react_event(c, ev).next.v == c.v,
        react_event(c, ev).next.leaves == c.leaves,
        react_event(c, ev).next.active == c.active,
        buffers_of(react_event(c, ev).next.q, ev.target) == after_defer(
            buffers_of(c.q, ev.target),
            ev,
        ),
        forall|i: int|
            0 <= i < buffers_of(c.q, ev.target).len() && (#[trigger] buffers_of(
                c.q,
                ev.target,
            )[i]).kind == ev.kind ==> buffers_of(react_event(c, ev).next.q, ev.target)[i].deferred
                == Some(ev),
{
    let bufs = buffers_of(c.q, ev.target);
    let i = choose|i: int| 0 <= i < bufs.len() && (#[trigger] bufs[i]).kind == ev.kind;
    assert(ev.target < c.q.len());
}

/// Held back on the branch: a state that has not been tried, is active and
/// holds events of this type back ends the walk. The event is captured in
/// every buffer of the state for its type; no state above is tried, no edge
/// fires and no timer changes.
pub proof fn law_held_back_ends_walk(
    g: Seq<StateNode>,
    t: EdgeTableView,
    active: Set<usize>,
    root: usize,
    ev: Event,
    s: usize,
    visited: Set<usize>,
    q: Seq<Seq<DeferEvent>>,
    v: TimersView,
)
    requires
        !visited.contains(s),
        defers(buffers_of(q, s), ev.kind),
        active.contains(s),
    ensures
        ({
            let o = branch_walk(g, t, active, root, ev, s, visited, q, v);
            &&& o.result is Deferred
            &&& o.visited == visited.insert(s)
            &&& o.queue == defer_in(q, s, ev)
            &&& o.timers == v
            &&& buffers_of(o.queue, s) == after_defer(buffers_of(q, s), ev)
            &&& forall|i: int|
                0 <= i < buffers_of(q, s).len() && (#[trigger] buffers_of(q, s)[i]).kind == ev.kind
                    ==> buffers_of(o.queue, s)[i].deferred == Some(ev)
        }),
{
    let bufs = buffers_of(q, s);
    let i = choose|i: int| 0 <= i < bufs.len() && (#[trigger] bufs[i]).kind == ev.kind;
    assert(s < q.len());
}

/// Once a state holds the event back, trying further leaves changes
/// nothing.
pub proof fn lemma_held_stays(
    g: Seq<StateNode>,
    t: EdgeTableView,
    active: Set<usize>,
    root: usize,
    event: Event,
    st: ListenState,
    leaves: Seq<usize>,
    i: int,
    j: int,
)
    requires
        0 <= i <= j <= leaves.len(),
        listen_leaves(g, t, active, root, event, st, leaves.take(i)).held,
    ensures
        listen_leaves(g, t, active, root, event, st, leaves.take(j)) == listen_leaves(
            g,
            t,
            active,
            root,
            event,
            st,
            leaves.take(i),
        ),
    decreases j - i,
{
    if i < j {
        lemma_held_stays(g, t, active, root, event, st, leaves, i, j - 1);
        assert(leaves.take(j).drop_last() == leaves.take(j - 1));
    }
}

/// Held back means heard no further: when, for an event sent to the root,
/// a state holds the event back during the walk of one of the first `k`
/// active leaves, then no later leaf is tried and the event is not
/// dispatched at the root. What the event leads to is what the walks up to
/// there have done: the edges that took it on branches tried before stand,
/// and nothing is added to them.
pub proof fn law_held_back_ends_listening(c: ChartView, ev: Event, k: int)
    requires
        ev.target == c.root,
        0 <= k <= ascending(c.leaves, 0, c.g.len() as usize).len(),
        listen_leaves(
            c.g,
            c.t,
            c.active,
            c.root,
            ev,
            ListenState {
                visited: Set::empty(),
                fired: Set::empty(),
                held: false,
                queue: c.q,
                timers: c.v,
                transitions: Seq::empty(),
            },
            ascending(c.leaves, 0, c.g.len() as usize).take(k),
        ).held,
    ensures
        ({
            let start = ListenState {
                visited: Set::empty(),
                fired: Set::empty(),
                held: false,
                queue: c.q,
                timers: c.v,
                transitions: Seq::empty(),
            };
            let st = listen_leaves(
                c.g,
                c.t,
                c.active,
                c.root,
                ev,
                start,
                ascending(c.leaves, 0, c.g.len() as usize).take(k),
            );
            let h = heard(c.g, c.t, c.q, c.v, c.leaves, c.active, c.root, ev);
            &&& h.transitions == st.transitions
            &&& h.queue == st.queue
            &&& h.timers == st.timers
            &&& react_event(c, ev).raised == fires(st.transitions)
        }),
{
    let order = ascending(c.leaves, 0, c.g.len() as usize);
    let start = ListenState {
        visited: Set::empty(),
        fired: Set::empty(),
        held: false,
        queue: c.q,
        timers: c.v,
        transitions: Seq::empty(),
    };
    lemma_held_stays(c.g, c.t, c.active, c.root, ev, start, order, k, order.len() as int);
    assert(order.take(order.len() as int) == order);
}

/// Deferral of an event sent to the root: when the first active leaf holds
/// events of this type back, the event is captured in the leaf's buffers
/// and goes nowhere else. No edge fires, on the leaf, on a state above it or
/// on another branch, no timer is armed, and nothing else is held back.
pub proof fn law_deferred_at_leaf_not_dispatched(c: ChartView, ev: Event)
    requires
        ev.target == c.root,
        ascending(c.leaves, 0, c.g.len() as usize).len() > 0,
        defers(buffers_of(c.q, ascending(c.leaves, 0, c.g.len() as usize)[0]), ev.kind),
        c.active.contains(ascending(c.leaves, 0, c.g.len() as usize)[0]),
    ensures
        ({
            let s = ascending(c.leaves, 0, c.g.len() as usize)[0];
            let r = react_event(c, ev);
            &&& r.raised.len() == 0
            &&& r.out.len() == 0
            &&& r.next.v == c.v
            &&& r.next.q == defer_in(c.q, s, ev)
            &&& r.next.leaves == c.leaves
            &&& r.next.active == c.active
            &&& forall|i: int|
                0 <= i < buffers_of(c.q, s).len() && (#[trigger] buffers_of(c.q, s)[i]).kind
                    == ev.kind ==> buffers_of(r.next.q, s)[i].deferred == Some(ev)
        }),
{
    let order = ascending(c.leaves, 0, c.g.len() as usize);
    let s = order[0];
    let start = ListenState {
        visited: Set::empty(),
        fired: Set::empty(),
        held: false,
        queue: c.q,
        timers: c.v,
        transitions: Seq::empty(),
    };
    law_held_back_ends_walk(c.g, c.t, c.active, c.root, ev, s, start.visited, c.q, c.v);
    assert(order.take(1).drop_last() =~= Seq::<usize>::empty());
    assert(order.take(1).last() == s);
    let st0 = listen_leaves(c.g, c.t, c.active, c.root, ev, start, Seq::<usize>::empty());
    assert(st0 == start);
    let st1 = listen_leaves(c.g, c.t, c.active, c.root, ev, start, order.take(1));
    assert(st1 == listen_leaf(c.g, c.t, c.active, c.root, ev, st0, s));
    assert(st1.held);
    assert(st1.transitions =~= Seq::<Transition>::empty());
    law_held_back_ends_listening(c, ev, 1);
}

/// The events that emptied buffers hold back: none.
pub proof fn lemma_emptied_holds_nothing(bufs: Seq<DeferEvent>)
    ensures
        held(emptied(bufs)).len() == 0,
    decreases bufs.len(),
{
    if bufs.len() > 0 {
        assert(emptied(bufs).drop_last() =~= emptied(bufs.drop_last()));
        lemma_emptied_holds_nothing(bufs.drop_last());
    }
}

/// Replay: when a state is exited, every event it held back is sent again,
/// addressed to the root, and afterwards the state holds nothing back, so
/// that each event is sent again exactly once.
pub proof fn law_exit_replays_once(c: ChartView, ex: ExitState)
    ensures
        react_exited(c, ex).raised == sends(
            readdressed(held(buffers_of(c.q, ex.target)), c.root),
        ),
        react_exited(c, ex).raised.len() == held(buffers_of(c.q, ex.target)).len(),
        forall|i: int|
            0 <= i < react_exited(c, ex).raised.len() ==> #[trigger] react_exited(c, ex).raised[i]
                == Stimulus::Event(
                Event { target: c.root, ..held(buffers_of(c.q, ex.target))[i] },
            ),
        held(buffers_of(react_exited(c, ex).next.q, ex.target)).len() == 0,
        react_exited(react_exited(c, ex).next, ex).raised.len() == 0,
{
    let bufs = buffers_of(c.q, ex.target);
    lemma_emptied_holds_nothing(bufs);
    let q2 = react_exited(c, ex).next.q;
    if ex.target < c.q.len() {
        assert(buffers_of(q2, ex.target) == emptied(bufs));
    } else {
        assert(buffers_of(q2, ex.target) =~= emptied(bufs));
    }
}

/// Cancellation: when the source of an edge is exited, a timer on the edge
/// is taken off if the edge is delayed, and an event that waits on the edge
/// is dropped with its timer. An edge without a waiting event never fires
/// from passing time, however much time passes.
pub proof fn law_exit_cancels(c: ChartView, ex: ExitState, e: usize, delta: u64)
    requires
        listed(c.t, ex.target).contains(e),
    ensures
        delayed(c.t, e) ==> timer_of(react_exited(c, ex).next.v, e) is None,
        pending_of(react_exited(c, ex).next.v, e) is None,
        pending_of(c.v, e) is Some ==> timer_of(react_exited(c, ex).next.v, e) is None,
        event_tick(c.g, c.t, c.active, react_exited(c, ex).next.v, e, delta) is Idle,
{
}

/// An inactive source never fires from passing time: the waiting event of
/// an edge whose source is not active is dropped, however much time has
/// passed, and the delayed always-edges that fire all leave from active
/// states.
pub proof fn law_inactive_source_never_fires(
    g: Seq<StateNode>,
    t: EdgeTableView,
    active: Set<usize>,
    v: TimersView,
    e: usize,
    delta: u64,
    hi: usize,
)
    ensures
        edge_at(t, e) is Some && !active.contains(edge_at(t, e)->0.source) ==> !(event_tick(
            g,
            t,
            active,
            v,
            e,
            delta,
        ) is Fired),
        forall|i: int|
            0 <= i < tick_sources(g, t, active, v.timers, delta, hi).1.len() ==> active.contains(
                (#[trigger] tick_sources(g, t, active, v.timers, delta, hi).1[i]).source,
            ),
    decreases hi,
{
    if hi > 0 {
        law_inactive_source_never_fires(g, t, active, v, e, delta, (hi - 1) as usize);
    }
}

/// An edge on which no event waits is left alone by passing time.
pub proof fn law_nothing_waits_nothing_fires(
    g: Seq<StateNode>,
    t: EdgeTableView,
    active: Set<usize>,
    v: TimersView,
    e: usize,
    delta: u64,
)
    requires
        timer_of(v, e) is None || pending_of(v, e) is None,
    ensures
        event_tick(g, t, active, v, e, delta) is Idle,
{
}

proof fn lemma_concat_contains(a: Seq<usize>, b: Seq<usize>, x: usize)
    ensures
        (a + b).contains(x) <==> (a.contains(x) || b.contains(x)),
{
    if (a + b).contains(x) {
        let k = choose|k: int| 0 <= k < (a + b).len() && (a + b)[k] == x;
        if k < a.len() {
            assert(a[k] == x);
        } else {
            assert(b[k - a.len()] == x);
        }
    }
    if a.contains(x) {
        let k = choose|k: int| 0 <= k < a.len() && a[k] == x;
        assert((a + b)[k] == x);
    }
    if b.contains(x) {
        let k = choose|k: int| 0 <= k < b.len() && b[k] == x;
        assert((a + b)[a.len() + k] == x);
    }
}

/// The way up from a state below `top` stays below `top` and starts at the
/// state.
pub proof fn lemma_climb_below(g: Seq<StateNode>, s: usize, top: usize)
    requires
        graph_wf(g),
        is_ancestor(g, top, s),
    ensures
        climb(g, s, top).len() >= 1,
        climb(g, s, top)[0] == s,
        forall|x: usize| climb(g, s, top).contains(x) ==> is_ancestor(g, top, x),
    decreases s,
{
    match parent_of(g, s) {
        Some(p) => {
            if p < s {
                assert(ancestors(g, s) == seq![p] + ancestors(g, p));
                if p != top {
                    lemma_concat_contains(seq![p], ancestors(g, p), top);
                    assert(!seq![p].contains(top)) by {
                        if seq![p].contains(top) {
                            let k = choose|k: int| 0 <= k < seq![p].len() && seq![p][k] == top;
                        }
                    }
                    lemma_climb_below(g, p, top);
                    assert forall|x: usize| climb(g, s, top).contains(x) implies is_ancestor(
                        g,
                        top,
                        x,
                    ) by {
                        lemma_concat_contains(seq![s], climb(g, p, top), x);
                        if seq![s].contains(x) {
                            let k = choose|k: int| 0 <= k < seq![s].len() && seq![s][k] == x;
                        }
                    }
                } else {
                    assert forall|x: usize| climb(g, s, top).contains(x) implies is_ancestor(
                        g,
                        top,
                        x,
                    ) by {
                        let k = choose|k: int|
                            0 <= k < climb(g, s, top).len() && climb(g, s, top)[k] == x;
                    }
                }
            }
        },
        None => {},
    }
}

proof fn lemma_reverse_contains(a: Seq<usize>, x: usize)
    ensures
        a.reverse().contains(x) <==> a.contains(x),
{
    if a.reverse().contains(x) {
        let k = choose|k: int| 0 <= k < a.reverse().len() && a.reverse()[k] == x;
        assert(a[a.len() - 1 - k] == x);
    }
    if a.contains(x) {
        let k = choose|k: int| 0 <= k < a.len() && a[k] == x;
        assert(a.reverse()[a.len() - 1 - k] == x);
    }
}

proof fn lemma_deep_enters_below(g: Seq<StateNode>, top: usize, saved: Seq<usize>)
    requires
        graph_wf(g),
        forall|k: int| 0 <= k < saved.len() ==> is_descendant_or_self(g, #[trigger] saved[k], top),
    ensures
        forall|x: usize| deep_enters(g, top, saved).contains(x) ==> is_ancestor(g, top, x),
    decreases saved.len(),
{
    if saved.len() > 0 {
        let rest = saved.drop_last();
        assert forall|k: int| 0 <= k < rest.len() implies is_descendant_or_self(
            g,
            #[trigger] rest[k],
            top,
        ) by {
            assert(rest[k] == saved[k]);
        }
        lemma_deep_enters_below(g, top, rest);
        let s = saved.last();
        assert(is_descendant_or_self(g, saved[saved.len() - 1], top));
        assert forall|x: usize| deep_enters(g, top, saved).contains(x) implies is_ancestor(
            g,
            top,
            x,
        ) by {
            lemma_concat_contains(deep_enters(g, top, rest), descent_below(g, top, s), x);
            if descent_below(g, top, s).contains(x) {
                assert(s != top);
                lemma_climb_below(g, s, top);
                lemma_reverse_contains(climb(g, s, top), x);
            }
        }
    }
}

/// What the visit of a state enters lies below the state, and the leaves
/// it finds lie at or below it.
proof fn lemma_here_below(g: Seq<StateNode>, h: Map<usize, Set<usize>>, e: usize)
    requires
        graph_wf(g),
        history_wf(g, h),
        g.len() <= usize::MAX,
    ensures
        forall|x: usize| drill_here(g, h, e).contains(x) ==> is_ancestor(g, e, x),
        forall|l: usize| drill_leaf_here(g, h, e).contains(l) ==> is_descendant_or_self(g, l, e),
        forall|k: int|
            0 <= k < drill_pushes(g, h, e).len() ==> is_ancestor(
                g,
                e,
                #[trigger] drill_pushes(g, h, e)[k],
            ),
{
    let n = g.len() as usize;
    if e < g.len() {
        assert(node_wf(g, e));
    }
    match (history_of(g, e), snapshot_of(h, e)) {
        (Some(History::Shallow), Some(snap)) => {
            let saved = ascending(snap, (e + 1) as usize, n);
            assert forall|x: usize| saved.contains(x) implies is_ancestor(g, e, x) by {
                lemma_ascending_contains(snap, (e + 1) as usize, n, x);
                assert(h[e].contains(x));
            }
            assert forall|k: int| 0 <= k < saved.len() implies is_ancestor(
                g,
                e,
                #[trigger] saved[k],
            ) by {
                assert(saved.contains(saved[k]));
            }
        },
        (Some(History::Deep), Some(snap)) => {
            let saved = ascending(snap, 0, n);
            assert forall|k: int| 0 <= k < saved.len() implies is_descendant_or_self(
                g,
                #[trigger] saved[k],
                e,
            ) by {
                assert(saved.contains(saved[k]));
                lemma_ascending_contains(snap, 0, n, saved[k]);
                assert(h[e].contains(saved[k]));
            }
            lemma_deep_enters_below(g, e, saved);
            assert forall|l: usize| drill_leaf_here(g, h, e).contains(l)
                implies is_descendant_or_self(g, l, e) by {
                assert(saved.contains(l));
                let k = choose|k: int| 0 <= k < saved.len() && saved[k] == l;
            }
        },
        _ => {
            if parallel_at(g, e) && children_of(g, e).len() > 0 {
                let cs = children_of(g, e);
                assert forall|k: int| 0 <= k < cs.len() implies is_ancestor(g, e, #[trigger] cs[k]) by {
                    assert(cs[k] == g[e as int].children@[k]);
                    lemma_child_below(g, cs[k], e);
                }
                assert forall|x: usize| cs.contains(x) implies is_ancestor(g, e, x) by {
                    let k = choose|k: int| 0 <= k < cs.len() && cs[k] == x;
                }
            } else {
                match initial_of(g, e) {
                    Some(c) => {
                        lemma_climb_below(g, c, e);
                        assert forall|x: usize| descent(g, e, c).contains(x) implies is_ancestor(
                            g,
                            e,
                            x,
                        ) by {
                            lemma_reverse_contains(climb(g, c, e), x);
                        }
                    },
                    None => {},
                }
            }
        },
    }
}

/// The drill-down stays below its start: every state it enters lies below
/// the start, and every leaf it finds lies at or below the start.
pub proof fn lemma_drill_below(g: Seq<StateNode>, h: Map<usize, Set<usize>>, e: usize)
    requires
        graph_wf(g),
        history_wf(g, h),
        g.len() <= usize::MAX,
    ensures
        forall|x: usize| drill_enters(g, h, e).contains(x) ==> is_ancestor(g, e, x),
        forall|l: usize| drill_leaves(g, h, e).contains(l) ==> is_descendant_or_self(g, l, e),
    decreases g.len() - e, 1int, 0int,
{
    lemma_here_below(g, h, e);
    lemma_drill_all_below(g, h, e, drill_pushes(g, h, e));
    assert forall|x: usize| drill_enters(g, h, e).contains(x) implies is_ancestor(g, e, x) by {
        lemma_concat_contains(
            drill_here(g, h, e),
            drill_enters_all(g, h, e, drill_pushes(g, h, e)),
            x,
        );
    }
}

proof fn lemma_drill_all_below(
    g: Seq<StateNode>,
    h: Map<usize, Set<usize>>,
    bound: usize,
    s: Seq<usize>,
)
    requires
        graph_wf(g),
        history_wf(g, h),
        g.len() <= usize::MAX,
        forall|k: int| 0 <= k < s.len() ==> is_ancestor(g, bound, #[trigger] s[k]),
    ensures
        forall|x: usize| drill_enters_all(g, h, bound, s).contains(x) ==> is_ancestor(g, bound, x),
        forall|l: usize| drill_leaves_all(g, h, bound, s).contains(l) ==> is_ancestor(g, bound, l),
    decreases g.len() - bound, 0int, s.len(),
{
    if s.len() > 0 {
        let top = s.last();
        let rest = s.drop_last();
        assert forall|k: int| 0 <= k < rest.len() implies is_ancestor(g, bound, #[trigger] rest[k]) by {
            assert(rest[k] == s[k]);
        }
        lemma_drill_all_below(g, h, bound, rest);
        assert(is_ancestor(g, bound, s[s.len() - 1]));
        if bound < top && top < g.len() {
            lemma_drill_below(g, h, top);
        }
        assert forall|x: usize| drill_enters_all(g, h, bound, s).contains(x) implies is_ancestor(
            g,
            bound,
            x,
        ) by {
            let first = if bound < top && top < g.len() {
                drill_enters(g, h, top)
            } else {
                Seq::empty()
            };
            lemma_concat_contains(first, drill_enters_all(g, h, bound, rest), x);
            if first.contains(x) {
                lemma_ancestor_transitive(g, bound, top, x);
            }
        }
        assert forall|l: usize| drill_leaves_all(g, h, bound, s).contains(l) implies is_ancestor(
            g,
            bound,
            l,
        ) by {
            if bound < top && top < g.len() && drill_leaves(g, h, top).contains(l) {
                assert(is_descendant_or_self(g, l, top));
                if l != top {
                    lemma_ancestor_transitive(g, bound, top, l);
                }
            }
        }
    }
}

/// The drill-down from a state never enters the state itself.
pub proof fn law_drill_never_reenters(g: Seq<StateNode>, h: Map<usize, Set<usize>>, e: usize)
    requires
        graph_wf(g),
        history_wf(g, h),
        g.len() <= usize::MAX,
    ensures
        !drill_enters(g, h, e).contains(e),
{
    lemma_drill_below(g, h, e);
    if drill_enters(g, h, e).contains(e) {
        lemma_ancestors_smaller(g, e, e);
    }
}

proof fn lemma_append_new_contains(acc: Seq<usize>, xs: Seq<usize>, x: usize)
    ensures
        append_new(acc, xs).contains(x) ==> acc.contains(x) || xs.contains(x),
    decreases xs.len(),
{
    if xs.len() > 0 {
        let a = append_new(acc, xs.drop_last());
        lemma_append_new_contains(acc, xs.drop_last(), x);
        if append_new(acc, xs).contains(x) {
            if a.contains(x) {
                if xs.drop_last().contains(x) {
                    let k = choose|k: int| 0 <= k < xs.drop_last().len() && xs.drop_last()[k] == x;
                    assert(xs[k] == x);
                }
            } else {
                let k = choose|k: int|
                    0 <= k < append_new(acc, xs).len() && append_new(acc, xs)[k] == x;
                assert(append_new(acc, xs) == a.push(xs.last()));
                if k < a.len() {
                    assert(a[k] == x);
                }
                assert(xs[xs.len() - 1] == x);
            }
        }
    }
}

proof fn lemma_prefix_through_contains(p: Seq<usize>, s: usize, x: usize)
    ensures
        prefix_through(p, s).contains(x) ==> p.contains(x),
    decreases p.len(),
{
    if p.len() > 0 && prefix_through(p, s).contains(x) {
        if p[0] == s {
            let k = choose|k: int| 0 <= k < seq![s].len() && seq![s][k] == x;
            assert(p[0] == x);
        } else {
            lemma_concat_contains(seq![p[0]], prefix_through(p.skip(1), s), x);
            if seq![p[0]].contains(x) {
                let k = choose|k: int| 0 <= k < seq![p[0]].len() && seq![p[0]][k] == x;
                assert(p[0] == x);
            } else {
                lemma_prefix_through_contains(p.skip(1), s, x);
                let k = choose|k: int| 0 <= k < p.skip(1).len() && p.skip(1)[k] == x;
                assert(p[k + 1] == x);
            }
        }
    }
}

proof fn lemma_exits_on_paths(
    g: Seq<StateNode>,
    under: Seq<usize>,
    source: usize,
    target: usize,
    internal: bool,
    x: usize,
)
    ensures
        sequential_exits(g, under, source, target, internal).contains(x) ==> exists|k: int|
            0 <= k < under.len() && path_to_root(g, #[trigger] under[k]).contains(x),
        parallel_exits(g, under, source).contains(x) ==> exists|k: int|
            0 <= k < under.len() && path_to_root(g, #[trigger] under[k]).contains(x),
    decreases under.len(),
{
    if under.len() > 0 {
        let rest = under.drop_last();
        let last = under.last();
        lemma_exits_on_paths(g, rest, source, target, internal, x);
        let p = path_to_root(g, last);
        if sequential_exits(g, under, source, target, internal).contains(x) {
            let le = leaf_exits(g, last, source, target, internal);
            lemma_append_new_contains(sequential_exits(g, rest, source, target, internal), le, x);
            if le.contains(x) {
                lemma_common_suffix_bound(p, path_to_root(g, target));
                let k = choose|k: int| 0 <= k < le.len() && le[k] == x;
                assert(p[k] == x);
                assert(path_to_root(g, under[under.len() - 1]).contains(x));
            } else {
                let k = choose|k: int|
                    0 <= k < rest.len() && path_to_root(g, #[trigger] rest[k]).contains(x);
                assert(path_to_root(g, under[k]).contains(x));
            }
        }
        if parallel_exits(g, under, source).contains(x) {
            let pe = prefix_through(p, source);
            lemma_append_new_contains(parallel_exits(g, rest, source), pe, x);
            if pe.contains(x) {
                lemma_prefix_through_contains(p, source, x);
                assert(path_to_root(g, under[under.len() - 1]).contains(x));
            } else {
                let k = choose|k: int|
                    0 <= k < rest.len() && path_to_root(g, #[trigger] rest[k]).contains(x);
                assert(path_to_root(g, under[k]).contains(x));
            }
        }
    }
}

/// A transition exits only states that were active: every state it exits
/// is an active leaf or an ancestor of one.
pub proof fn law_exits_were_active(
    g: Seq<StateNode>,
    leaves: Set<usize>,
    source: usize,
    target: usize,
    internal: bool,
    x: usize,
)
    requires
        exit_list(g, leaves, source, target, internal).contains(x),
    ensures
        closure(g, leaves).contains(x),
{
    let under = leaves_under(g, leaves, source);
    lemma_exits_on_paths(g, under, source, target, internal, x);
    let k = choose|k: int| 0 <= k < under.len() && path_to_root(g, #[trigger] under[k]).contains(x);
    assert(under.contains(under[k]));
    lemma_ascending_contains(
        leaves.filter(|l: usize| is_descendant_or_self(g, l, source)),
        0,
        g.len() as usize,
        under[k],
    );
    assert(leaves.contains(under[k]));
}

/// Two equal paths share all their states.
pub proof fn lemma_common_suffix_self(p: Seq<usize>)
    ensures
        common_suffix_len(p, p) == p.len(),
    decreases p.len(),
{
    if p.len() > 0 {
        lemma_common_suffix_self(p.drop_last());
    }
}

/// Self-loops: when `s` is the only active leaf at or below itself and is
/// not parallel, an external transition from `s` to `s` exits `s` and
/// enters `s`, and an internal one exits nothing and enters nothing on the
/// way to its target.
pub proof fn law_self_loop(g: Seq<StateNode>, leaves: Set<usize>, s: usize, internal: bool)
    requires
        !parallel_at(g, s),
        leaves_under(g, leaves, s) == seq![s],
    ensures
        !internal ==> exit_list(g, leaves, s, s, internal) == seq![s] && entry_path(
            g,
            s,
            entry_lca(g, leaves, s, s, internal),
        ) == seq![s],
        internal ==> exit_list(g, leaves, s, s, internal).len() == 0 && entry_path(
            g,
            s,
            entry_lca(g, leaves, s, s, internal),
        ).len() == 0,
{
    let p = path_to_root(g, s);
    let under = seq![s];
    lemma_common_suffix_self(p);
    assert(under.drop_last() == Seq::<usize>::empty());
    assert(under.last() == s);
    let le = leaf_exits(g, s, s, s, internal);
    assert(sequential_exits(g, under.drop_last(), s, s, internal) == Seq::<usize>::empty());
    if internal {
        assert(le =~= Seq::<usize>::empty());
        assert(append_new(Seq::empty(), le) == Seq::<usize>::empty());
        assert(entry_path(g, s, entry_lca(g, leaves, s, s, internal)) =~= Seq::<usize>::empty());
    } else {
        assert(le =~= seq![s]);
        assert(le.drop_last() == Seq::<usize>::empty());
        assert(append_new(Seq::empty(), le.drop_last()) == Seq::<usize>::empty());
        assert(append_new(Seq::empty(), le) =~= seq![s]);
        assert(p.take(1) =~= seq![s]);
        assert(p.take(1).reverse() =~= seq![s]);
    }
}

/// Self-loops, as the host sees them: under the conditions of
/// `law_self_loop`, an external transition from `s` to `s` gives an exit
/// notification for `s`, then the actions, then an entry notification for
/// `s`; an internal one gives the actions only, between the phase events and
/// the entries of the drill-down, which never enters `s`.
pub proof fn law_self_loop_notified(
    g: Seq<StateNode>,
    h: Map<usize, Set<usize>>,
    leaves: Set<usize>,
    active: Set<usize>,
    root: usize,
    tr: Transition,
    internal: bool,
)
    requires
        graph_wf(g),
        history_wf(g, h),
        g.len() <= usize::MAX,
        !parallel_at(g, tr.source),
        leaves_under(g, leaves, tr.source) == seq![tr.source],
    ensures
        ({
            let s = tr.source;
            let o = outcome_running(g, h, leaves, active, root, tr, s, internal);
            let acts = seq![Notification::Actions(TransitionActions { target: tr.edge })];
            let before = phase_events(g, active, s, tr.payload.exit, false);
            let after = phase_events(
                g,
                closure(g, o.leaves).insert(root),
                s,
                tr.payload.entry,
                true,
            );
            let down = enter_all(drill_enters(g, o.history, s));
            &&& !drill_enters(g, o.history, s).contains(s)
            &&& !internal ==> o.notifications == before + seq![
                Notification::Exit(ExitState { target: s }),
            ] + acts + effect_events(tr.edge, tr.payload.effect) + seq![
                Notification::Enter(EnterState { target: s }),
            ] + down + after
            &&& internal ==> o.notifications == before + acts + effect_events(
                tr.edge,
                tr.payload.effect,
            ) + down + after
        }),
{
    let s = tr.source;
    law_self_loop(g, leaves, s, internal);
    let o = outcome_running(g, h, leaves, active, root, tr, s, internal);
    lemma_history_stays_wf(g, h, leaves, exit_list(g, leaves, s, s, internal));
    law_drill_never_reenters(g, o.history, s);
    let before = phase_events(g, active, s, tr.payload.exit, false);
    if internal {
        assert(exit_all(Seq::<usize>::empty()) =~= Seq::<Notification>::empty());
        assert(enter_all(Seq::<usize>::empty()) =~= Seq::<Notification>::empty());
        assert(exit_list(g, leaves, s, s, internal) =~= Seq::<usize>::empty());
        assert(entry_path(g, s, entry_lca(g, leaves, s, s, internal)) =~= Seq::<usize>::empty());
        assert(before + Seq::<Notification>::empty() == before);
        let acts = seq![Notification::Actions(TransitionActions { target: tr.edge })];
        let mid = before + acts + effect_events(tr.edge, tr.payload.effect);
        assert(mid + Seq::<Notification>::empty() == mid);
    } else {
        assert(exit_all(seq![s]) =~= seq![Notification::Exit(ExitState { target: s })]);
        assert(enter_all(seq![s]) =~= seq![Notification::Enter(EnterState { target: s })]);
    }
}

/// The target becomes active: after a transition of a running machine that
/// does something, the target is active whenever the drill-down from it
/// finds a leaf.
pub proof fn law_target_active(
    g: Seq<StateNode>,
    h: Map<usize, Set<usize>>,
    leaves: Set<usize>,
    active: Set<usize>,
    root: usize,
    tr: Transition,
    target: usize,
    internal: bool,
)
    requires
        graph_wf(g),
        history_wf(g, h),
        g.len() <= usize::MAX,
    ensures
        ({
            let o = outcome_running(g, h, leaves, active, root, tr, target, internal);
            (exists|l: usize| drill_leaves(g, o.history, target).contains(l)) ==> closure(
                g,
                o.leaves,
            ).contains(target)
        }),
{
    let o = outcome_running(g, h, leaves, active, root, tr, target, internal);
    lemma_history_stays_wf(g, h, leaves, exit_list(g, leaves, tr.source, target, internal));
    lemma_drill_below(g, o.history, target);
    if exists|l: usize| drill_leaves(g, o.history, target).contains(l) {
        let l = choose|l: usize| drill_leaves(g, o.history, target).contains(l);
        assert(o.leaves.contains(l));
        assert(is_descendant_or_self(g, l, target));
        lemma_concat_contains(seq![l], ancestors(g, l), target);
        if l == target {
            assert(seq![l][0] == target);
        }
        assert(path_to_root(g, l).contains(target));
    }
}

/// Deep history restores exactly: the drill-down from a deep history state
/// with a snapshot finds the remembered states of the graph as leaves, and
/// nothing else.
pub proof fn law_deep_restores(g: Seq<StateNode>, h: Map<usize, Set<usize>>, r: usize)
    requires
        history_of(g, r) == Some(History::Deep),
        snapshot_of(h, r) is Some,
        g.len() <= usize::MAX,
    ensures
        drill_leaves(g, h, r) == snapshot_of(h, r)->0.filter(|s: usize| s < g.len()),
{
    let snap = snapshot_of(h, r)->0;
    let n = g.len() as usize;
    let saved = ascending(snap, 0, n);
    assert(drill_pushes(g, h, r) == Seq::<usize>::empty());
    assert(drill_leaves_all(g, h, r, Seq::<usize>::empty()) == Set::<usize>::empty());
    let want = snap.filter(|s: usize| s < g.len());
    assert forall|x: usize| drill_leaves(g, h, r).contains(x) <==> want.contains(x) by {
        lemma_ascending_contains(snap, 0, n, x);
    }
    assert(drill_leaves(g, h, r) =~= want);
}

/// Deep history, there and back: after a transition has exited a deep
/// history state, the drill-down from that state finds exactly the leaves
/// that were active at or below it before the transition.
pub proof fn law_deep_round_trip(
    g: Seq<StateNode>,
    h: Map<usize, Set<usize>>,
    leaves: Set<usize>,
    exits: Seq<usize>,
    r: usize,
)
    requires
        history_of(g, r) == Some(History::Deep),
        exits.contains(r),
        g.len() <= usize::MAX,
    ensures
        drill_leaves(g, history_after(g, h, leaves, exits), r) == deep_snapshot(g, leaves, r),
{
    let h2 = history_after(g, h, leaves, exits);
    assert(snapshot_of(h2, r) == Some(deep_snapshot(g, leaves, r)));
    law_deep_restores(g, h2, r);
    assert(deep_snapshot(g, leaves, r).filter(|s: usize| s < g.len()) =~= deep_snapshot(
        g,
        leaves,
        r,
    ));
}

/// The leaves found from a state on the stack are among the leaves found
/// from the whole stack.
proof fn lemma_leaves_all_includes(
    g: Seq<StateNode>,
    h: Map<usize, Set<usize>>,
    bound: usize,
    s: Seq<usize>,
    k: int,
)
    requires
        0 <= k < s.len(),
        bound < s[k],
        s[k] < g.len(),
    ensures
        drill_leaves(g, h, s[k]).subset_of(drill_leaves_all(g, h, bound, s)),
    decreases s.len(),
{
    if k < s.len() - 1 {
        assert(s.drop_last()[k] == s[k]);
        lemma_leaves_all_includes(g, h, bound, s.drop_last(), k);
    }
}

/// Shallow history restores the remembered children: the drill-down from a
/// shallow history state with a snapshot enters every remembered child and
/// goes on from it, so that the child is active again whenever the
/// drill-down from the child finds a leaf.
pub proof fn law_shallow_restores(g: Seq<StateNode>, h: Map<usize, Set<usize>>, r: usize, a: usize)
    requires
        graph_wf(g),
        history_wf(g, h),
        g.len() <= usize::MAX,
        history_of(g, r) == Some(History::Shallow),
        snapshot_of(h, r) is Some,
        snapshot_of(h, r)->0.contains(a),
        r < a < g.len(),
    ensures
        drill_enters(g, h, r).contains(a),
        drill_leaves(g, h, a).subset_of(drill_leaves(g, h, r)),
        (exists|l: usize| drill_leaves(g, h, a).contains(l)) ==> closure(
            g,
            drill_leaves(g, h, r),
        ).contains(a),
{
    let snap = snapshot_of(h, r)->0;
    let n = g.len() as usize;
    let saved = ascending(snap, (r + 1) as usize, n);
    lemma_ascending_contains(snap, (r + 1) as usize, n, a);
    assert(saved.contains(a));
    lemma_concat_contains(saved, drill_enters_all(g, h, r, saved), a);
    let k = choose|k: int| 0 <= k < saved.len() && saved[k] == a;
    lemma_leaves_all_includes(g, h, r, saved, k);
    lemma_drill_below(g, h, a);
    if exists|l: usize| drill_leaves(g, h, a).contains(l) {
        let l = choose|l: usize| drill_leaves(g, h, a).contains(l);
        assert(drill_leaves(g, h, r).contains(l));
        assert(is_descendant_or_self(g, l, a));
        lemma_concat_contains(seq![l], ancestors(g, l), a);
        if l == a {
            assert(seq![l][0] == a);
        }
        assert(path_to_root(g, l).contains(a));
    }
}

/// Shallow history remembers the active children: when a transition exits
/// a shallow history state, the snapshot it stores holds every child of the
/// state that had an active leaf at or below it.
pub proof fn law_shallow_remembers(
    g: Seq<StateNode>,
    h: Map<usize, Set<usize>>,
    leaves: Set<usize>,
    exits: Seq<usize>,
    r: usize,
    a: usize,
    l: usize,
)
    requires
        history_of(g, r) == Some(History::Shallow),
        exits.contains(r),
        parent_of(g, a) == Some(r),
        leaves.contains(l),
        is_descendant_or_self(g, l, a),
    ensures
        snapshot_of(history_after(g, h, leaves, exits), r) == Some(shallow_snapshot(g, leaves, r)),
        shallow_snapshot(g, leaves, r).contains(a),
{
}

/// What a walk tries and where it fires: the walk from `state` tries only
/// states on the way from `state` to the root, in addition to those tried
/// before, and the source of an edge that it fires is such a state, one
/// that had not been tried before.
pub proof fn lemma_walk_fires_on_branch(
    g: Seq<StateNode>,
    t: EdgeTableView,
    active: Set<usize>,
    root: usize,
    ev: Event,
    state: usize,
    visited: Set<usize>,
    q: Seq<Seq<DeferEvent>>,
    v: TimersView,
)
    ensures
        ({
            let o = branch_walk(g, t, active, root, ev, state, visited, q, v);
            &&& visited.subset_of(o.visited)
            &&& o.result is Fire ==> {
                let source = o.result->Fire_0.source;
                &&& path_to_root(g, state).contains(source)
                &&& !visited.contains(source)
                &&& o.visited.contains(source)
            }
        }),
    decreases state,
{
    let d = if visited.contains(state) {
        Dispatch::Ignored
    } else {
        dispatch_at(g, t, q, active, state, ev)
    };
    let o = branch_walk(g, t, active, root, ev, state, visited, q, v);
    assert(path_to_root(g, state)[0] == state);
    if d.taken() {
    } else if state == root {
    } else {
        match parent_of(g, state) {
            Some(p) => {
                if p < state {
                    let visited2 = visited.insert(state);
                    let q2 = queue_after(q, d, state, ev);
                    lemma_walk_fires_on_branch(g, t, active, root, ev, p, visited2, q2, v);
                    if o.result is Fire {
                        let source = o.result->Fire_0.source;
                        assert(ancestors(g, state) == seq![p] + ancestors(g, p));
                        assert(path_to_root(g, state) =~= seq![state] + path_to_root(g, p));
                        lemma_concat_contains(seq![state], path_to_root(g, p), source);
                    }
                }
            },
            None => {},
        }
    }
}

/// The active leaves whose walks fired an edge, in the order in which they
/// were tried.
pub open spec fn firing_leaves(
    g: Seq<StateNode>,
    t: EdgeTableView,
    active: Set<usize>,
    root: usize,
    event: Event,
    st: ListenState,
    leaves: Seq<usize>,
) -> Seq<usize>
    decreases leaves.len(),
{
    if leaves.len() == 0 {
        Seq::empty()
    } else {
        let before = listen_leaves(g, t, active, root, event, st, leaves.drop_last());
        let after = listen_leaf(g, t, active, root, event, before, leaves.last());
        let earlier = firing_leaves(g, t, active, root, event, st, leaves.drop_last());
        if after.transitions.len() > before.transitions.len() {
            earlier.push(leaves.last())
        } else {
            earlier
        }
    }
}

/// The listening so far, when it started with nothing tried: every
/// transition was fired by the walk of one leaf, from a state on that leaf's
/// way to the root; the firing leaves lie in pairwise different regions, all
/// of which count as fired; and the sources are pairwise different states,
/// all of which count as tried.
pub open spec fn one_edge_per_region(
    g: Seq<StateNode>,
    st: ListenState,
    from: Seq<usize>,
) -> bool {
    &&& from.len() == st.transitions.len()
    &&& forall|i: int|
        0 <= i < from.len() ==> {
            &&& path_to_root(g, #[trigger] from[i]).contains(st.transitions[i].source)
            &&& st.visited.contains(st.transitions[i].source)
            &&& st.fired.contains(region_root(g, from[i]))
        }
    &&& forall|i: int, j: int|
        0 <= i < j < from.len() ==> region_root(g, #[trigger] from[i]) != region_root(
            g,
            #[trigger] from[j],
        )
    &&& forall|i: int, j: int|
        0 <= i < j < st.transitions.len() ==> (#[trigger] st.transitions[i]).source != (
        #[trigger] st.transitions[j]).source
}

proof fn lemma_one_edge_per_region(
    g: Seq<StateNode>,
    t: EdgeTableView,
    active: Set<usize>,
    root: usize,
    ev: Event,
    q: Seq<Seq<DeferEvent>>,
    v: TimersView,
    leaves: Seq<usize>,
)
    ensures
        ({
            let start = ListenState {
                visited: Set::empty(),
                fired: Set::empty(),
                held: false,
                queue: q,
                timers: v,
                transitions: Seq::empty(),
            };
            one_edge_per_region(
                g,
                listen_leaves(g, t, active, root, ev, start, leaves),
                firing_leaves(g, t, active, root, ev, start, leaves),
            )
        }),
    decreases leaves.len(),
{
    let start = ListenState {
        visited: Set::empty(),
        fired: Set::empty(),
        held: false,
        queue: q,
        timers: v,
        transitions: Seq::empty(),
    };
    if leaves.len() > 0 {
        lemma_one_edge_per_region(g, t, active, root, ev, q, v, leaves.drop_last());
        let before = listen_leaves(g, t, active, root, ev, start, leaves.drop_last());
        let earlier = firing_leaves(g, t, active, root, ev, start, leaves.drop_last());
        let leaf = leaves.last();
        let after = listen_leaf(g, t, active, root, ev, before, leaf);
        let from = firing_leaves(g, t, active, root, ev, start, leaves);
        assert(after == listen_leaves(g, t, active, root, ev, start, leaves));
        let region = region_root(g, leaf);
        if before.held || before.fired.contains(region) {
            assert(after == before);
            assert(from == earlier);
        } else {
            let o = branch_walk(g, t, active, root, ev, leaf, before.visited, before.queue, before.timers);
            lemma_walk_fires_on_branch(
                g,
                t,
                active,
                root,
                ev,
                leaf,
                before.visited,
                before.queue,
                before.timers,
            );
            if o.result is Fire {
                let tr = o.result->Fire_0;
                assert(after.transitions == before.transitions.push(tr));
                assert(from == earlier.push(leaf));
                let n = earlier.len() as int;
                assert forall|i: int| 0 <= i < from.len() implies {
                    &&& path_to_root(g, #[trigger] from[i]).contains(after.transitions[i].source)
                    &&& after.visited.contains(after.transitions[i].source)
                    &&& after.fired.contains(region_root(g, from[i]))
                } by {
                    if i < n {
                        assert(from[i] == earlier[i]);
                        assert(after.transitions[i] == before.transitions[i]);
                        assert(path_to_root(g, earlier[i]).contains(before.transitions[i].source));
                        assert(before.visited.contains(before.transitions[i].source));
                    }
                }
                assert forall|i: int, j: int| 0 <= i < j < from.len() implies region_root(
                    g,
                    #[trigger] from[i],
                ) != region_root(g, #[trigger] from[j]) by {
                    assert(from[i] == earlier[i]);
                    if j < n {
                        assert(from[j] == earlier[j]);
                    } else {
                        assert(before.fired.contains(region_root(g, earlier[i])));
                    }
                }
                assert forall|i: int, j: int|
                    0 <= i < j < after.transitions.len() implies (#[trigger] after.transitions[i]).source
                    != (#[trigger] after.transitions[j]).source by {
                    assert(after.transitions[i] == before.transitions[i]);
                    if j < n {
                        assert(after.transitions[j] == before.transitions[j]);
                    } else {
                        assert(path_to_root(g, earlier[i]).contains(before.transitions[i].source));
                        assert(before.visited.contains(before.transitions[i].source));
                    }
                }
            } else {
                assert(after.transitions == before.transitions);
                assert(from == earlier);
                assert forall|i: int| 0 <= i < from.len() implies {
                    &&& path_to_root(g, #[trigger] from[i]).contains(after.transitions[i].source)
                    &&& after.visited.contains(after.transitions[i].source)
                    &&& after.fired.contains(region_root(g, from[i]))
                } by {
                    assert(path_to_root(g, earlier[i]).contains(before.transitions[i].source));
                    assert(before.visited.contains(before.transitions[i].source));
                    assert(before.fired.contains(region_root(g, earlier[i])));
                }
            }
        }
    }
}

/// One edge per region, in general: for an event sent to the root, every
/// transition comes from the walk of one active leaf and leaves from a state
/// on that leaf's way to the root; no two transitions come from leaves of
/// the same region; and no two transitions leave from the same state, since
/// a state that lies on several branches is tried once. When no walk fired
/// or held the event, at most the one transition of the root is added.
pub proof fn law_at_most_one_edge_per_region(c: ChartView, ev: Event)
    requires
        ev.target == c.root,
    ensures
        ({
            let start = ListenState {
                visited: Set::empty(),
                fired: Set::empty(),
                held: false,
                queue: c.q,
                timers: c.v,
                transitions: Seq::empty(),
            };
            let order = ascending(c.leaves, 0, c.g.len() as usize);
            let st = listen_leaves(c.g, c.t, c.active, c.root, ev, start, order);
            let from = firing_leaves(c.g, c.t, c.active, c.root, ev, start, order);
            let h = heard(c.g, c.t, c.q, c.v, c.leaves, c.active, c.root, ev);
            &&& one_edge_per_region(c.g, st, from)
            &&& forall|i: int| 0 <= i < from.len() ==> order.contains(#[trigger] from[i])
            &&& st.transitions.len() > 0 ==> h.transitions == st.transitions
            &&& st.transitions.len() == 0 ==> h.transitions.len() <= 1 && forall|i: int|
                0 <= i < h.transitions.len() ==> (#[trigger] h.transitions[i]).source == c.root
            &&& forall|i: int, j: int|
                0 <= i < j < h.transitions.len() ==> (#[trigger] h.transitions[i]).source != (
                #[trigger] h.transitions[j]).source
        }),
{
    let start = ListenState {
        visited: Set::empty(),
        fired: Set::empty(),
        held: false,
        queue: c.q,
        timers: c.v,
        transitions: Seq::empty(),
    };
    let order = ascending(c.leaves, 0, c.g.len() as usize);
    lemma_one_edge_per_region(c.g, c.t, c.active, c.root, ev, c.q, c.v, order);
    lemma_firing_leaves_tried(c.g, c.t, c.active, c.root, ev, start, order);
    let st = listen_leaves(c.g, c.t, c.active, c.root, ev, start, order);
    let from = firing_leaves(c.g, c.t, c.active, c.root, ev, start, order);
    if st.transitions.len() > 0 {
        assert(from[0] == from[0]);
        assert(st.fired.contains(region_root(c.g, from[0])));
        assert(st.fired != Set::<usize>::empty());
    }
}

proof fn lemma_firing_leaves_tried(
    g: Seq<StateNode>,
    t: EdgeTableView,
    active: Set<usize>,
    root: usize,
    ev: Event,
    st: ListenState,
    leaves: Seq<usize>,
)
    ensures
        forall|i: int|
            0 <= i < firing_leaves(g, t, active, root, ev, st, leaves).len() ==> leaves.contains(
                #[trigger] firing_leaves(g, t, active, root, ev, st, leaves)[i],
            ),
    decreases leaves.len(),
{
    if leaves.len() > 0 {
        lemma_firing_leaves_tried(g, t, active, root, ev, st, leaves.drop_last());
        let earlier = firing_leaves(g, t, active, root, ev, st, leaves.drop_last());
        let from = firing_leaves(g, t, active, root, ev, st, leaves);
        assert forall|i: int| 0 <= i < from.len() implies leaves.contains(#[trigger] from[i]) by {
            if i < earlier.len() {
                assert(from[i] == earlier[i]);
                let k = choose|k: int|
                    0 <= k < leaves.drop_last().len() && leaves.drop_last()[k] == earlier[i];
                assert(leaves[k] == earlier[i]);
            } else {
                assert(from[i] == leaves[leaves.len() - 1]);
            }
        }
    }
}

/// While the leaves are tried, the set of regions that have fired only
/// grows.
pub proof fn lemma_fired_grows(
    g: Seq<StateNode>,
    t: EdgeTableView,
    active: Set<usize>,
    root: usize,
    event: Event,
    st: ListenState,
    leaves: Seq<usize>,
    i: int,
    j: int,
)
    requires
        0 <= i <= j <= leaves.len(),
    ensures
        listen_leaves(g, t, active, root, event, st, leaves.take(i)).fired.subset_of(
            listen_leaves(g, t, active, root, event, st, leaves.take(j)).fired,
        ),
    decreases j - i,
{
    if i < j {
        lemma_fired_grows(g, t, active, root, event, st, leaves, i, j - 1);
        assert(leaves.take(j).drop_last() == leaves.take(j - 1));
    }
}

/// One edge per region: once an edge has taken the event in a parallel
/// region, every later active leaf of the same region is passed over, so
/// that a region fires at most one edge for an event.
pub proof fn law_one_per_region(
    g: Seq<StateNode>,
    t: EdgeTableView,
    active: Set<usize>,
    root: usize,
    event: Event,
    st: ListenState,
    leaves: Seq<usize>,
    i: int,
    j: int,
)
    requires
        0 <= i < j < leaves.len(),
        region_root(g, leaves[i]) == region_root(g, leaves[j]),
        listen_leaves(g, t, active, root, event, st, leaves.take(i + 1)).fired.contains(
            region_root(g, leaves[i]),
        ),
    ensures
        listen_leaves(g, t, active, root, event, st, leaves.take(j + 1)) == listen_leaves(
            g,
            t,
            active,
            root,
            event,
            st,
            leaves.take(j),
        ),
{
    lemma_fired_grows(g, t, active, root, event, st, leaves, i + 1, j);
    assert(leaves.take(j + 1).drop_last() == leaves.take(j));
    assert(leaves.take(j + 1).last() == leaves[j]);
}

/// The state of the listening after the first `k` leaves, when every leaf
/// fires an edge of its own and no two leaves share a region: nothing is
/// held back or armed, exactly the leaves have been tried, and each has
/// fired its edge.
proof fn lemma_each_leaf_fires(c: ChartView, ev: Event, order: Seq<usize>, k: int)
    requires
        0 <= k <= order.len(),
        forall|i: int|
            0 <= i < order.len() ==> dispatch_at(c.g, c.t, c.q, c.active, #[trigger] order[i], ev) is Fire,
        forall|i: int, j: int|
            0 <= i < j < order.len() ==> region_root(c.g, #[trigger] order[i]) != region_root(
                c.g,
                #[trigger] order[j],
            ),
    ensures
        ({
            let start = ListenState {
                visited: Set::empty(),
                fired: Set::empty(),
                held: false,
                queue: c.q,
                timers: c.v,
                transitions: Seq::empty(),
            };
            let st = listen_leaves(c.g, c.t, c.active, c.root, ev, start, order.take(k));
            &&& st.queue == c.q
            &&& st.timers == c.v
            &&& !st.held
            &&& st.transitions.len() == k
            &&& forall|i: int|
                0 <= i < k ==> #[trigger] st.transitions[i] == dispatch_at(
                    c.g,
                    c.t,
                    c.q,
                    c.active,
                    order[i],
                    ev,
                )->Fire_0
            &&& forall|x: usize|
                st.visited.contains(x) <==> exists|i: int| 0 <= i < k && #[trigger] order[i] == x
            &&& forall|x: usize|
                st.fired.contains(x) <==> exists|i: int|
                    0 <= i < k && region_root(c.g, #[trigger] order[i]) == x
        }),
    decreases k,
{
    let start = ListenState {
        visited: Set::empty(),
        fired: Set::empty(),
        held: false,
        queue: c.q,
        timers: c.v,
        transitions: Seq::empty(),
    };
    if k > 0 {
        lemma_each_leaf_fires(c, ev, order, k - 1);
        let before = listen_leaves(c.g, c.t, c.active, c.root, ev, start, order.take(k - 1));
        let leaf = order[k - 1];
        assert(order.take(k).drop_last() == order.take(k - 1));
        assert(order.take(k).last() == leaf);
        let st = listen_leaves(c.g, c.t, c.active, c.root, ev, start, order.take(k));
        assert(st == listen_leaf(c.g, c.t, c.active, c.root, ev, before, leaf));
        let region = region_root(c.g, leaf);
        if before.fired.contains(region) {
            let i = choose|i: int| 0 <= i < k - 1 && region_root(c.g, #[trigger] order[i]) == region;
            assert(region_root(c.g, order[i]) != region_root(c.g, order[k - 1]));
        }
        if before.visited.contains(leaf) {
            let i = choose|i: int| 0 <= i < k - 1 && #[trigger] order[i] == leaf;
            assert(region_root(c.g, order[i]) != region_root(c.g, order[k - 1]));
        }
        let d = dispatch_at(c.g, c.t, c.q, c.active, leaf, ev);
        let o = branch_walk(
            c.g,
            c.t,
            c.active,
            c.root,
            ev,
            leaf,
            before.visited,
            before.queue,
            before.timers,
        );
        assert(o.result == d);
        assert(st.transitions == before.transitions.push(d->Fire_0));
        assert forall|x: usize|
            st.visited.contains(x) <==> exists|i: int| 0 <= i < k && #[trigger] order[i] == x by {
            if st.visited.contains(x) {
                if x == leaf {
                    assert(order[k - 1] == x);
                } else {
                    let i = choose|i: int| 0 <= i < k - 1 && #[trigger] order[i] == x;
                    assert(0 <= i < k && order[i] == x);
                }
            }
            if exists|i: int| 0 <= i < k && #[trigger] order[i] == x {
                let i = choose|i: int| 0 <= i < k && #[trigger] order[i] == x;
                if i < k - 1 {
                    assert(before.visited.contains(x));
                }
            }
        }
        assert forall|x: usize|
            st.fired.contains(x) <==> exists|i: int|
                0 <= i < k && region_root(c.g, #[trigger] order[i]) == x by {
            if st.fired.contains(x) {
                if x == region {
                    assert(region_root(c.g, order[k - 1]) == x);
                } else {
                    let i = choose|i: int|
                        0 <= i < k - 1 && region_root(c.g, #[trigger] order[i]) == x;
                    assert(0 <= i < k && region_root(c.g, order[i]) == x);
                }
            }
            if exists|i: int| 0 <= i < k && region_root(c.g, #[trigger] order[i]) == x {
                let i = choose|i: int| 0 <= i < k && region_root(c.g, #[trigger] order[i]) == x;
                if i < k - 1 {
                    assert(before.fired.contains(x));
                }
            }
        }
    } else {
        assert(order.take(0) =~= Seq::<usize>::empty());
    }
}

/// Parallel independence: when every active leaf has an edge that fires for
/// the event and no two active leaves lie in the same region, an event for
/// the root fires the edge of every leaf, in ascending order of the leaves,
/// and nothing is held back or armed.
pub proof fn law_every_region_fires(c: ChartView, ev: Event)
    requires
        ev.target == c.root,
        ascending(c.leaves, 0, c.g.len() as usize).len() > 0,
        forall|i: int|
            0 <= i < ascending(c.leaves, 0, c.g.len() as usize).len() ==> dispatch_at(
                c.g,
                c.t,
                c.q,
                c.active,
                #[trigger] ascending(c.leaves, 0, c.g.len() as usize)[i],
                ev,
            ) is Fire,
        forall|i: int, j: int|
            0 <= i < j < ascending(c.leaves, 0, c.g.len() as usize).len() ==> region_root(
                c.g,
                #[trigger] ascending(c.leaves, 0, c.g.len() as usize)[i],
            ) != region_root(c.g, #[trigger] ascending(c.leaves, 0, c.g.len() as usize)[j]),
    ensures
        ({
            let order = ascending(c.leaves, 0, c.g.len() as usize);
            let h = heard(c.g, c.t, c.q, c.v, c.leaves, c.active, c.root, ev);
            &&& h.queue == c.q
            &&& h.timers == c.v
            &&& h.transitions.len() == order.len()
            &&& forall|i: int|
                0 <= i < order.len() ==> #[trigger] h.transitions[i] == dispatch_at(
                    c.g,
                    c.t,
                    c.q,
                    c.active,
                    order[i],
                    ev,
                )->Fire_0
        }),
{
    let order = ascending(c.leaves, 0, c.g.len() as usize);
    lemma_each_leaf_fires(c, ev, order, order.len() as int);
    assert(order.take(order.len() as int) == order);
    let start = ListenState {
        visited: Set::empty(),
        fired: Set::empty(),
        held: false,
        queue: c.q,
        timers: c.v,
        transitions: Seq::empty(),
    };
    let st = listen_leaves(c.g, c.t, c.active, c.root, ev, start, order);
    assert(region_root(c.g, order[0]) == region_root(c.g, order[0]));
    assert(st.fired.contains(region_root(c.g, order[0])));
    assert(st.fired != Set::<usize>::empty());
}

/// Past its last member a set lists nothing more.
pub proof fn lemma_ascending_trim(s: Set<usize>, lo: usize, hi: usize, hi2: usize)
    requires
        hi <= hi2,
        forall|x: usize| hi <= x < hi2 ==> !s.contains(x),
    ensures
        ascending(s, lo, hi2) == ascending(s, lo, hi),
    decreases hi2 - hi,
{
    if hi < hi2 {
        lemma_ascending_trim(s, lo, hi, (hi2 - 1) as usize);
        if lo >= hi2 {
            assert(ascending(s, lo, hi) == Seq::<usize>::empty());
        }
    }
}

/// A set of two states lists the smaller one first.
pub proof fn lemma_ascending_pair(s: Set<usize>, n: usize, l1: usize, l2: usize)
    requires
        l1 < l2 < n,
        s == Set::<usize>::empty().insert(l1).insert(l2),
    ensures
        ascending(s, 0, n) == seq![l1, l2],
{
    lemma_ascending_trim(s, 0, (l2 + 1) as usize, n);
    lemma_ascending_trim(s, 0, (l1 + 1) as usize, l2);
    lemma_ascending_trim(s, 0, 0, l1);
    assert(ascending(s, 0, 0) == Seq::<usize>::empty());
    assert(ascending(s, 0, (l1 + 1) as usize) == ascending(s, 0, l1).push(l1));
    assert(ascending(s, 0, (l2 + 1) as usize) == ascending(s, 0, l2).push(l2));
    assert(ascending(s, 0, n) =~= seq![l1, l2]);
}

/// Parallel independence: when the active leaves are two states of
/// different regions and each has an edge that fires for the event, an
/// event for the root fires both edges, the one of the smaller leaf first.
pub proof fn law_regions_fire_independently(c: ChartView, ev: Event, l1: usize, l2: usize)
    requires
        ev.target == c.root,
        l1 < l2 < c.g.len(),
        c.g.len() <= usize::MAX,
        c.leaves == Set::<usize>::empty().insert(l1).insert(l2),
        region_root(c.g, l1) != region_root(c.g, l2),
        dispatch_at(c.g, c.t, c.q, c.active, l1, ev) is Fire,
        dispatch_at(c.g, c.t, c.q, c.active, l2, ev) is Fire,
    ensures
        heard(c.g, c.t, c.q, c.v, c.leaves, c.active, c.root, ev).transitions == seq![
            dispatch_at(c.g, c.t, c.q, c.active, l1, ev)->Fire_0,
            dispatch_at(c.g, c.t, c.q, c.active, l2, ev)->Fire_0,
        ],
        heard(c.g, c.t, c.q, c.v, c.leaves, c.active, c.root, ev).queue == c.q,
        heard(c.g, c.t, c.q, c.v, c.leaves, c.active, c.root, ev).timers == c.v,
{
    let n = c.g.len() as usize;
    lemma_ascending_pair(c.leaves, n, l1, l2);
    let order = seq![l1, l2];
    let start = ListenState {
        visited: Set::empty(),
        fired: Set::empty(),
        held: false,
        queue: c.q,
        timers: c.v,
        transitions: Seq::empty(),
    };
    assert(order.drop_last() =~= seq![l1]);
    assert(order.last() == l2);
    assert(seq![l1].drop_last() =~= Seq::<usize>::empty());
    assert(seq![l1].last() == l1);
    let st0 = listen_leaves(c.g, c.t, c.active, c.root, ev, start, Seq::<usize>::empty());
    assert(st0 == start);
    let st1 = listen_leaves(c.g, c.t, c.active, c.root, ev, start, seq![l1]);
    assert(st1 == listen_leaf(c.g, c.t, c.active, c.root, ev, st0, l1));
    let d1 = dispatch_at(c.g, c.t, c.q, c.active, l1, ev);
    let d2 = dispatch_at(c.g, c.t, c.q, c.active, l2, ev);
    let o1 = branch_walk(c.g, c.t, c.active, c.root, ev, l1, start.visited, start.queue, start.timers);
    assert(o1.result == d1);
    assert(st1.transitions =~= seq![d1->Fire_0]);
    assert(st1.queue == c.q);
    assert(st1.timers == c.v);
    assert(st1.visited == Set::<usize>::empty().insert(l1));
    assert(st1.fired == Set::<usize>::empty().insert(region_root(c.g, l1)));
    let st2 = listen_leaves(c.g, c.t, c.active, c.root, ev, start, order);
    assert(st2 == listen_leaf(c.g, c.t, c.active, c.root, ev, st1, l2));
    let o2 = branch_walk(c.g, c.t, c.active, c.root, ev, l2, st1.visited, st1.queue, st1.timers);
    assert(o2.result == d2);
    assert(st2.transitions =~= seq![d1->Fire_0, d2->Fire_0]);
    assert(st2.fired.contains(region_root(c.g, l1)));
    assert(st2.fired != Set::<usize>::empty());
}

} // verus!
