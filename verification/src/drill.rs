//! The drill-down: from a state that is entered to the leaves that become
//! active below it.
//!
//! A state with a history mode and a stored snapshot restores what it
//! remembers; otherwise a parallel state fans out into all its children;
//! otherwise a state with an initial child continues there; otherwise the
//! state is itself a leaf. The search keeps the states still to visit on a
//! stack, so of several states pushed together the last is visited first.
use crate::events::{enter_all, EnterState, Notification};
use crate::graph::{
    children_of, descent, descent_below, graph_wf, history_of, initial_of, lemma_ancestors_smaller, node_wf,
    parallel_at, History, StateGraph, StateNode,
};
use crate::history::{snapshot_of, HistoryStore};
use crate::sets::{
    ascending, id_members, id_set_insert, id_set_new, lemma_ascending_contains, members_ascending,
    IdSet,
};
use vstd::prelude::*;

verus! {

/// The entries that restore a deep snapshot below `top`: for each remembered
/// state in turn, the way down to it.
pub open spec fn deep_enters(g: Seq<StateNode>, top: usize, saved: Seq<usize>) -> Seq<usize>
    decreases saved.len(),
{
    if saved.len() == 0 {
        Seq::empty()
    } else {
        deep_enters(g, top, saved.drop_last()) + descent_below(g, top, saved.last())
    }
}

/// The states that the visit of `e` pushes on the stack, in push order.
pub open spec fn drill_pushes(g: Seq<StateNode>, h: Map<usize, Set<usize>>, e: usize) -> Seq<
    usize,
> {
    match (history_of(g, e), snapshot_of(h, e)) {
        (Some(History::Shallow), Some(snap)) => ascending(snap, (e + 1) as usize, g.len() as usize),
        (Some(History::Deep), Some(_)) => Seq::empty(),
        _ => if parallel_at(g, e) && children_of(g, e).len() > 0 {
            children_of(g, e)
        } else {
            match initial_of(g, e) {
                Some(c) => seq![c],
                None => Seq::empty(),
            }
        },
    }
}

/// The states that are entered when `e` is visited, in order.
pub open spec fn drill_here(g: Seq<StateNode>, h: Map<usize, Set<usize>>, e: usize) -> Seq<usize> {
    match (history_of(g, e), snapshot_of(h, e)) {
        (Some(History::Shallow), Some(snap)) => ascending(snap, (e + 1) as usize, g.len() as usize),
        (Some(History::Deep), Some(snap)) => deep_enters(
            g,
            e,
            ascending(snap, 0, g.len() as usize),
        ),
        _ => if parallel_at(g, e) && children_of(g, e).len() > 0 {
            children_of(g, e)
        } else {
            match initial_of(g, e) {
                Some(c) => descent(g, e, c),
                None => Seq::empty(),
            }
        },
    }
}

/// The leaves that the visit of `e` itself finds.
pub open spec fn drill_leaf_here(g: Seq<StateNode>, h: Map<usize, Set<usize>>, e: usize) -> Set<
    usize,
> {
    match (history_of(g, e), snapshot_of(h, e)) {
        (Some(History::Shallow), Some(_)) => Set::empty(),
        (Some(History::Deep), Some(snap)) => ascending(snap, 0, g.len() as usize).to_set(),
        _ => if parallel_at(g, e) && children_of(g, e).len() > 0 {
            Set::empty()
        } else {
            match initial_of(g, e) {
                Some(_) => Set::empty(),
                None => Set::empty().insert(e),
            }
        },
    }
}

/// The states entered by the drill-down from `e`, in order (`e` itself is
/// entered by the caller).
pub open spec fn drill_enters(g: Seq<StateNode>, h: Map<usize, Set<usize>>, e: usize) -> Seq<
    usize,
>
    decreases g.len() - e, 1int, 0int,
{
    drill_here(g, h, e) + drill_enters_all(g, h, e, drill_pushes(g, h, e))
}

/// The states entered by the drill-down from the states of `s`, all of which
/// lie below `bound`, the last of them first.
pub open spec fn drill_enters_all(
    g: Seq<StateNode>,
    h: Map<usize, Set<usize>>,
    bound: usize,
    s: Seq<usize>,
) -> Seq<usize>
    decreases g.len() - bound, 0int, s.len(),
{
    if s.len() == 0 {
        Seq::empty()
    } else {
        let top = s.last();
        let first = if bound < top && top < g.len() {
            drill_enters(g, h, top)
        } else {
            Seq::empty()
        };
        first + drill_enters_all(g, h, bound, s.drop_last())
    }
}

/// The leaves that become active by the drill-down from `e`.
pub open spec fn drill_leaves(g: Seq<StateNode>, h: Map<usize, Set<usize>>, e: usize) -> Set<
    usize,
>
    decreases g.len() - e, 1int, 0int,
{
    drill_leaf_here(g, h, e).union(drill_leaves_all(g, h, e, drill_pushes(g, h, e)))
}

/// The leaves that become active by the drill-down from the states of `s`,
/// all of which lie below `bound`.
pub open spec fn drill_leaves_all(
    g: Seq<StateNode>,
    h: Map<usize, Set<usize>>,
    bound: usize,
    s: Seq<usize>,
) -> Set<usize>
    decreases g.len() - bound, 0int, s.len(),
{
    if s.len() == 0 {
        Set::empty()
    } else {
        let top = s.last();
        let first = if bound < top && top < g.len() {
            drill_leaves(g, h, top)
        } else {
            Set::empty()
        };
        first.union(drill_leaves_all(g, h, bound, s.drop_last()))
    }
}

/// What is still to be entered for a stack of states to visit.
pub open spec fn pending_enters(g: Seq<StateNode>, h: Map<usize, Set<usize>>, stack: Seq<usize>) -> Seq<
    usize,
>
    decreases stack.len(),
{
    if stack.len() == 0 {
        Seq::empty()
    } else {
        drill_enters(g, h, stack.last()) + pending_enters(g, h, stack.drop_last())
    }
}

/// The leaves still to be found for a stack of states to visit.
pub open spec fn pending_leaves(g: Seq<StateNode>, h: Map<usize, Set<usize>>, stack: Seq<usize>) -> Set<
    usize,
>
    decreases stack.len(),
{
    if stack.len() == 0 {
        Set::empty()
    } else {
        drill_leaves(g, h, stack.last()).union(pending_leaves(g, h, stack.drop_last()))
    }
}

/// Every state of `s` lies strictly between `bound` and `n`.
pub open spec fn all_between(s: Seq<usize>, bound: usize, n: nat) -> bool {
    forall|k: int| 0 <= k < s.len() ==> bound < #[trigger] s[k] && s[k] < n
}

proof fn lemma_all_is_pending(
    g: Seq<StateNode>,
    h: Map<usize, Set<usize>>,
    bound: usize,
    s: Seq<usize>,
)
    requires
        all_between(s, bound, g.len()),
    ensures
        drill_enters_all(g, h, bound, s) == pending_enters(g, h, s),
        drill_leaves_all(g, h, bound, s) == pending_leaves(g, h, s),
    decreases s.len(),
{
    if s.len() > 0 {
        assert(bound < s[s.len() - 1] && s[s.len() - 1] < g.len());
        assert forall|k: int| 0 <= k < s.drop_last().len() implies bound < #[trigger] s.drop_last()[k]
            && s.drop_last()[k] < g.len() by {
            assert(s.drop_last()[k] == s[k]);
        }
        lemma_all_is_pending(g, h, bound, s.drop_last());
    }
}

proof fn lemma_pending_concat(
    g: Seq<StateNode>,
    h: Map<usize, Set<usize>>,
    a: Seq<usize>,
    b: Seq<usize>,
)
    ensures
        pending_enters(g, h, a + b) == pending_enters(g, h, b) + pending_enters(g, h, a),
        pending_leaves(g, h, a + b) == pending_leaves(g, h, b).union(pending_leaves(g, h, a)),
    decreases b.len(),
{
    if b.len() == 0 {
        assert(a + b == a);
        assert(pending_enters(g, h, b) + pending_enters(g, h, a) == pending_enters(g, h, a));
        assert(pending_leaves(g, h, b).union(pending_leaves(g, h, a)) =~= pending_leaves(g, h, a));
    } else {
        assert((a + b).drop_last() == a + b.drop_last());
        assert((a + b).last() == b.last());
        lemma_pending_concat(g, h, a, b.drop_last());
        let d = drill_enters(g, h, b.last());
        let pb = pending_enters(g, h, b.drop_last());
        let pa = pending_enters(g, h, a);
        assert(d + (pb + pa) == (d + pb) + pa);
        assert(pending_leaves(g, h, a + b) =~= pending_leaves(g, h, b).union(
            pending_leaves(g, h, a),
        ));
    }
}

/// In a sound graph, what the visit of a state pushes lies below the state,
/// and every pushed state has been entered.
pub proof fn lemma_pushes_below(g: Seq<StateNode>, h: Map<usize, Set<usize>>, e: usize)
    requires
        graph_wf(g),
        g.len() <= usize::MAX,
    ensures
        all_between(drill_pushes(g, h, e), e, g.len()),
        drill_pushes(g, h, e).len() <= drill_here(g, h, e).len(),
{
    let p = drill_pushes(g, h, e);
    if e < g.len() {
        assert(node_wf(g, e));
    }
    assert forall|k: int| 0 <= k < p.len() implies e < #[trigger] p[k] && p[k] < g.len() by {
        match (history_of(g, e), snapshot_of(h, e)) {
            (Some(History::Shallow), Some(snap)) => {
                assert(p.contains(p[k]));
                lemma_ascending_contains(snap, (e + 1) as usize, g.len() as usize, p[k]);
            },
            (Some(History::Deep), Some(_)) => {},
            _ => {
                if parallel_at(g, e) && children_of(g, e).len() > 0 {
                    assert(p[k] == g[e as int].children@[k]);
                } else {
                    match initial_of(g, e) {
                        Some(c) => {
                            lemma_ancestors_smaller(g, c, e);
                        },
                        None => {},
                    }
                }
            },
        }
    }
}

fn append_all(dst: &mut Vec<usize>, src: &Vec<usize>)
    ensures
        final(dst)@ == old(dst)@ + src@,
{
    let mut i: usize = 0;
    while i < src.len()
        invariant
            i <= src.len(),
            dst@ == old(dst)@ + src@.take(i as int),
        decreases src.len() - i,
    {
        dst.push(src[i]);
        proof {
            assert(src@.take(i + 1) == src@.take(i as int).push(src@[i as int]));
            assert(dst@ == old(dst)@ + src@.take(i + 1));
        }
        i = i + 1;
    }
    proof {
        assert(src@.take(src@.len() as int) == src@);
    }
}

/// Appends the items of `src` to `dst`, the last of them first.
pub(crate) fn append_reversed(dst: &mut Vec<usize>, src: &Vec<usize>)
    ensures
        final(dst)@ == old(dst)@ + src@.reverse(),
{
    let n = src.len();
    let mut i: usize = 0;
    while i < n
        invariant
            n == src.len(),
            i <= n,
            dst@ == old(dst)@ + src@.reverse().take(i as int),
        decreases n - i,
    {
        dst.push(src[n - 1 - i]);
        proof {
            let r = src@.reverse();
            assert(r[i as int] == src@[n - 1 - i]);
            assert(r.take(i + 1) == r.take(i as int).push(r[i as int]));
            assert(dst@ == old(dst)@ + r.take(i + 1));
        }
        i = i + 1;
    }
    proof {
        assert(src@.reverse().take(n as int) == src@.reverse());
    }
}

/// Visits one state of the drill-down: enters what it leads to, pushes the
/// states to continue from, and records the leaves found.
fn visit(
    graph: &StateGraph,
    history: &HistoryStore,
    e: usize,
    enters: &mut Vec<usize>,
    stack: &mut Vec<usize>,
    leaves: &mut IdSet,
)
    ensures
        final(enters)@ == old(enters)@ + drill_here(graph@, history@, e),
        final(stack)@ == old(stack)@ + drill_pushes(graph@, history@, e),
        id_members(*final(leaves)) == id_members(*old(leaves)).union(
            drill_leaf_here(graph@, history@, e),
        ),
{
    proof {
        use_type_invariant(graph);
    }
    let n = graph.len();
    let mode = graph.history_mode(e);
    let snapshot = history.get(e);
    if mode.is_some() && snapshot.is_some() {
        let snap = snapshot.unwrap();
        match mode.unwrap() {
            History::Shallow => {
                let saved = members_ascending(&snap.0, e + 1, n);
                append_all(enters, &saved);
                append_all(stack, &saved);
                proof {
                    assert(id_members(*leaves) =~= id_members(*old(leaves)).union(
                        Set::<usize>::empty(),
                    ));
                }
            },
            History::Deep => {
                let saved = members_ascending(&snap.0, 0, n);
                let mut i: usize = 0;
                while i < saved.len()
                    invariant
                        graph.wf(),
                        i <= saved.len(),
                        enters@ == old(enters)@ + deep_enters(graph@, e, saved@.take(i as int)),
                        id_members(*leaves) == id_members(*old(leaves)).union(
                            saved@.take(i as int).to_set(),
                        ),
                    decreases saved.len() - i,
                {
                    let s = saved[i];
                    if s != e {
                        let way = graph.climb(s, e);
                        append_reversed(enters, &way);
                    }
                    let _ = id_set_insert(leaves, s);
                    proof {
                        let t0 = saved@.take(i as int);
                        let t1 = saved@.take(i + 1);
                        assert(t1 == t0.push(s));
                        assert(t1.drop_last() == t0);
                        assert(t1.last() == s);
                        t0.lemma_push_to_set_commute(s);
                        assert(id_members(*leaves) =~= id_members(*old(leaves)).union(t1.to_set()));
                        assert(old(enters)@ + deep_enters(graph@, e, t0) + descent_below(
                            graph@,
                            e,
                            s,
                        ) == old(enters)@ + (deep_enters(graph@, e, t0) + descent_below(
                            graph@,
                            e,
                            s,
                        )));
                    }
                    i = i + 1;
                }
                proof {
                    assert(saved@.take(saved@.len() as int) == saved@);
                    assert(stack@ == old(stack)@ + Seq::<usize>::empty());
                }
            },
        }
    } else if graph.is_parallel(e) && graph.child_count(e) > 0 {
        let count = graph.child_count(e);
        let mut k: usize = 0;
        while k < count
            invariant
                count == children_of(graph@, e).len(),
                k <= count,
                enters@ == old(enters)@ + children_of(graph@, e).take(k as int),
                stack@ == old(stack)@ + children_of(graph@, e).take(k as int),
            decreases count - k,
        {
            let c = graph.child_at(e, k);
            enters.push(c);
            stack.push(c);
            proof {
                let cs = children_of(graph@, e);
                assert(cs.take(k + 1) == cs.take(k as int).push(c));
                assert(enters@ == old(enters)@ + cs.take(k + 1));
                assert(stack@ == old(stack)@ + cs.take(k + 1));
            }
            k = k + 1;
        }
        proof {
            let cs = children_of(graph@, e);
            assert(cs.take(cs.len() as int) == cs);
            assert(id_members(*leaves) =~= id_members(*old(leaves)).union(Set::<usize>::empty()));
        }
    } else {
        match graph.initial_child(e) {
            Some(c) => {
                let way = graph.climb(c, e);
                append_reversed(enters, &way);
                stack.push(c);
                proof {
                    assert(stack@ == old(stack)@ + seq![c]);
                    assert(id_members(*leaves) =~= id_members(*old(leaves)).union(
                        Set::<usize>::empty(),
                    ));
                }
            },
            None => {
                let _ = id_set_insert(leaves, e);
                proof {
                    assert(enters@ == old(enters)@ + Seq::<usize>::empty());
                    assert(stack@ == old(stack)@ + Seq::<usize>::empty());
                    assert(id_members(*leaves) =~= id_members(*old(leaves)).union(
                        Set::<usize>::empty().insert(e),
                    ));
                }
            },
        }
    }
}

/// The drill-down from `start`: the states entered below it, in order, and
/// the leaves that become active.
pub fn drill(graph: &StateGraph, history: &HistoryStore, start: usize) -> (r: (Vec<usize>, IdSet))
    ensures
        r.0@ == drill_enters(graph@, history@, start),
        id_members(r.1) == drill_leaves(graph@, history@, start),
{
    proof {
        use_type_invariant(graph);
    }
    let mut enters: Vec<usize> = Vec::new();
    let mut leaves = id_set_new();
    let mut stack: Vec<usize> = Vec::new();
    let n = graph.len();
    stack.push(start);
    proof {
        let g = graph@;
        let h = history@;
        assert(stack@.drop_last() == Seq::<usize>::empty());
        assert(stack@.last() == start);
        assert(pending_enters(g, h, Seq::<usize>::empty()) == Seq::<usize>::empty());
        assert(pending_leaves(g, h, Seq::<usize>::empty()) == Set::<usize>::empty());
        assert(pending_enters(g, h, stack@) == drill_enters(g, h, start) + Seq::<usize>::empty());
        assert(pending_leaves(g, h, stack@) =~= drill_leaves(g, h, start));
        assert(id_members(leaves).union(pending_leaves(g, h, stack@)) =~= drill_leaves(g, h, start));
    }
    while stack.len() > 0
        invariant
            graph.wf(),
            n == graph@.len(),
            enters@ + pending_enters(graph@, history@, stack@) == drill_enters(
                graph@,
                history@,
                start,
            ),
            id_members(leaves).union(pending_leaves(graph@, history@, stack@)) == drill_leaves(
                graph@,
                history@,
                start,
            ),
        decreases pending_enters(graph@, history@, stack@).len() + stack@.len(),
    {
        let ghost g = graph@;
        let ghost h = history@;
        let ghost before = stack@;
        let ghost entered = enters@;
        let ghost found = id_members(leaves);
        let e = stack.pop().unwrap();
        let ghost rest = stack@;
        visit(graph, history, e, &mut enters, &mut stack, &mut leaves);
        proof {
            let pushes = drill_pushes(g, h, e);
            let here = drill_here(g, h, e);
            assert(before.drop_last() == rest);
            assert(before.last() == e);
            lemma_pushes_below(g, h, e);
            lemma_all_is_pending(g, h, e, pushes);
            lemma_pending_concat(g, h, rest, pushes);
            let pp = pending_enters(g, h, pushes);
            let pr = pending_enters(g, h, rest);
            assert(pending_enters(g, h, before) == (here + pp) + pr);
            assert(pending_enters(g, h, stack@) == pp + pr);
            assert(entered + ((here + pp) + pr) == (entered + here) + (pp + pr));
            assert(found.union(pending_leaves(g, h, before)) =~= id_members(leaves).union(
                pending_leaves(g, h, stack@),
            ));
        }
    }
    proof {
        assert(enters@ + Seq::<usize>::empty() == enters@);
        assert(id_members(leaves).union(Set::<usize>::empty()) =~= id_members(leaves));
    }
    (enters, leaves)
}

/// Finds the leaves that become active when `start_node` is entered, and
/// appends an entry notification for every state entered on the way down.
pub fn get_all_leaf_states(
    start_node: usize,
    graph: &StateGraph,
    history: &HistoryStore,
    commands: &mut Vec<Notification>,
) -> (leaves: IdSet)
    ensures
        final(commands)@ == old(commands)@ + enter_all(
            drill_enters(graph@, history@, start_node),
        ),
        id_members(leaves) == drill_leaves(graph@, history@, start_node),
{
    proof {
        use_type_invariant(graph);
    }
    let (enters, leaves) = drill(graph, history, start_node);
    push_enters(commands, &enters);
    leaves
}

/// Appends an entry notification for each state of `ids`.
pub(crate) fn push_enters(commands: &mut Vec<Notification>, ids: &Vec<usize>)
    ensures
        final(commands)@ == old(commands)@ + enter_all(ids@),
{
    let mut i: usize = 0;
    while i < ids.len()
        invariant
            i <= ids.len(),
            commands@ == old(commands)@ + enter_all(ids@.take(i as int)),
        decreases ids.len() - i,
    {
        commands.push(Notification::Enter(EnterState { target: ids[i] }));
        proof {
            assert(ids@.take(i + 1) == ids@.take(i as int).push(ids@[i as int]));
            assert(enter_all(ids@.take(i + 1)) =~= enter_all(ids@.take(i as int)).push(
                Notification::Enter(EnterState { target: ids@[i as int] }),
            ));
            assert(commands@ == old(commands)@ + enter_all(ids@.take(i + 1)));
        }
        i = i + 1;
    }
    proof {
        assert(ids@.take(ids@.len() as int) == ids@);
    }
}

} // verus!
