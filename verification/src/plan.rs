//! Exit and entry paths of a transition.
//!
//! A transition leaves from a source state and leads to a target state. Every
//! active leaf at or below the source is exited, together with its ancestors
//! up to the least common ancestor of leaf and target; the target is then
//! entered from that ancestor downwards.
use crate::graph::{
    is_descendant_or_self, parallel_at, path_to_root, StateGraph, StateNode,
};
use crate::sets::{ascending, id_members, id_set_contains, id_set_insert, id_set_new, IdSet};
use vstd::prelude::*;

verus! {

/// The number of states that two paths to the root share at their upper
/// ends.
pub open spec fn common_suffix_len(a: Seq<usize>, b: Seq<usize>) -> nat
    decreases a.len(),
{
    if a.len() > 0 && b.len() > 0 && a.last() == b.last() {
        1 + common_suffix_len(a.drop_last(), b.drop_last())
    } else {
        0
    }
}

/// The shared upper end is no longer than either path.
pub proof fn lemma_common_suffix_bound(a: Seq<usize>, b: Seq<usize>)
    ensures
        common_suffix_len(a, b) <= a.len(),
        common_suffix_len(a, b) <= b.len(),
    decreases a.len(),
{
    if a.len() > 0 && b.len() > 0 && a.last() == b.last() {
        lemma_common_suffix_bound(a.drop_last(), b.drop_last());
    }
}

/// `acc`, followed by the items of `xs` that are not yet in it, each once
/// and in order.
pub open spec fn append_new(acc: Seq<usize>, xs: Seq<usize>) -> Seq<usize>
    decreases xs.len(),
{
    if xs.len() == 0 {
        acc
    } else {
        let a = append_new(acc, xs.drop_last());
        if a.contains(xs.last()) {
            a
        } else {
            a.push(xs.last())
        }
    }
}

/// The start of `p` up to and including the first `x` (all of `p` when `x`
/// is not in it).
pub open spec fn prefix_through(p: Seq<usize>, x: usize) -> Seq<usize>
    decreases p.len(),
{
    if p.len() == 0 {
        Seq::empty()
    } else if p[0] == x {
        seq![x]
    } else {
        seq![p[0]] + prefix_through(p.skip(1), x)
    }
}

/// The active leaves at or below `source`, in ascending order.
pub open spec fn leaves_under(g: Seq<StateNode>, leaves: Set<usize>, source: usize) -> Seq<usize> {
    ascending(leaves.filter(|l: usize| is_descendant_or_self(g, l, source)), 0, g.len() as usize)
}

/// How many states at the upper end of the path of `leaf` stay untouched by
/// a transition from `source` to `target`: the states that leaf and target
/// share, less one when an external transition returns to the leaf or has the
/// source as the deepest shared state, so that this state is left and entered
/// again.
pub open spec fn leaf_lca(
    g: Seq<StateNode>,
    leaf: usize,
    source: usize,
    target: usize,
    internal: bool,
) -> nat {
    let p = path_to_root(g, leaf);
    let d = common_suffix_len(p, path_to_root(g, target));
    if !internal && d > 0 && (target == leaf || p[p.len() - d] == source) {
        (d - 1) as nat
    } else {
        d
    }
}

/// The states that `leaf` exits, bottom-up.
pub open spec fn leaf_exits(
    g: Seq<StateNode>,
    leaf: usize,
    source: usize,
    target: usize,
    internal: bool,
) -> Seq<usize> {
    let p = path_to_root(g, leaf);
    p.take(p.len() - leaf_lca(g, leaf, source, target, internal))
}

/// The states that the leaves of `under` exit, each once, in the order of
/// the leaves (source not parallel).
pub open spec fn sequential_exits(
    g: Seq<StateNode>,
    under: Seq<usize>,
    source: usize,
    target: usize,
    internal: bool,
) -> Seq<usize>
    decreases under.len(),
{
    if under.len() == 0 {
        Seq::empty()
    } else {
        append_new(
            sequential_exits(g, under.drop_last(), source, target, internal),
            leaf_exits(g, under.last(), source, target, internal),
        )
    }
}

/// The smallest `leaf_lca` among the leaves of `under` (0 for no leaves).
pub open spec fn min_lca(
    g: Seq<StateNode>,
    under: Seq<usize>,
    source: usize,
    target: usize,
    internal: bool,
) -> nat
    decreases under.len(),
{
    if under.len() == 0 {
        0
    } else if under.len() == 1 {
        leaf_lca(g, under[0], source, target, internal)
    } else {
        let m = min_lca(g, under.drop_last(), source, target, internal);
        let d = leaf_lca(g, under.last(), source, target, internal);
        if d < m {
            d
        } else {
            m
        }
    }
}

/// The states that the leaves of `under` exit when the source is parallel:
/// each leaf's path up to and including the source.
pub open spec fn parallel_exits(g: Seq<StateNode>, under: Seq<usize>, source: usize) -> Seq<usize>
    decreases under.len(),
{
    if under.len() == 0 {
        Seq::empty()
    } else {
        append_new(
            parallel_exits(g, under.drop_last(), source),
            prefix_through(path_to_root(g, under.last()), source),
        )
    }
}

/// How many states at the upper end of the target's path are not entered by
/// a transition from a parallel `source`.
pub open spec fn parallel_lca(g: Seq<StateNode>, source: usize, target: usize, internal: bool) -> nat {
    let p = path_to_root(g, source);
    let d = common_suffix_len(p, path_to_root(g, target));
    if !internal && d > 0 && p[p.len() - d] == source {
        (d - 1) as nat
    } else {
        d
    }
}

/// The states that a transition exits, in order.
pub open spec fn exit_list(
    g: Seq<StateNode>,
    leaves: Set<usize>,
    source: usize,
    target: usize,
    internal: bool,
) -> Seq<usize> {
    let under = leaves_under(g, leaves, source);
    if parallel_at(g, source) {
        parallel_exits(g, under, source)
    } else {
        sequential_exits(g, under, source, target, internal)
    }
}

/// How many states at the upper end of the target's path a transition does
/// not enter.
pub open spec fn entry_lca(
    g: Seq<StateNode>,
    leaves: Set<usize>,
    source: usize,
    target: usize,
    internal: bool,
) -> nat {
    if parallel_at(g, source) {
        parallel_lca(g, source, target, internal)
    } else {
        min_lca(g, leaves_under(g, leaves, source), source, target, internal)
    }
}

/// The states that a transition enters on the way to its target, top-down,
/// when `lca` states at the upper end of the target's path stay untouched.
pub open spec fn entry_path(g: Seq<StateNode>, target: usize, lca: nat) -> Seq<usize> {
    let q = path_to_root(g, target);
    q.take(q.len() - lca).reverse()
}

/// The number of states that two paths share at their upper ends.
pub(crate) fn lca_depth(a: &Vec<usize>, b: &Vec<usize>) -> (d: usize)
    ensures
        d == common_suffix_len(a@, b@),
        d <= a.len(),
        d <= b.len(),
{
    let mut d: usize = 0;
    proof {
        assert(a@.take(a@.len() as int) == a@);
        assert(b@.take(b@.len() as int) == b@);
    }
    loop
        invariant
            d <= a.len(),
            d <= b.len(),
            common_suffix_len(a@, b@) == d + common_suffix_len(
                a@.take(a.len() - d),
                b@.take(b.len() - d),
            ),
        decreases a.len() - d,
    {
        if d >= a.len() || d >= b.len() {
            return d;
        }
        if a[a.len() - 1 - d] != b[b.len() - 1 - d] {
            return d;
        }
        proof {
            let ta = a@.take(a.len() - d);
            let tb = b@.take(b.len() - d);
            assert(ta.last() == a@[a.len() - 1 - d]);
            assert(tb.last() == b@[b.len() - 1 - d]);
            assert(ta.drop_last() == a@.take(a.len() - d - 1));
            assert(tb.drop_last() == b@.take(b.len() - d - 1));
        }
        d = d + 1;
    }
}

/// The start of `path` up to and including the first `x`.
pub(crate) fn take_through(path: &Vec<usize>, x: usize) -> (r: Vec<usize>)
    ensures
        r@ == prefix_through(path@, x),
{
    let mut r: Vec<usize> = Vec::new();
    let mut i: usize = 0;
    proof {
        assert(path@.skip(0) == path@);
    }
    loop
        invariant
            i <= path.len(),
            r@ + prefix_through(path@.skip(i as int), x) == prefix_through(path@, x),
        decreases path.len() - i,
    {
        if i >= path.len() {
            proof {
                assert(r@ + Seq::<usize>::empty() == r@);
            }
            return r;
        }
        let ghost before = r@;
        let v = path[i];
        r.push(v);
        proof {
            let rest = path@.skip(i as int);
            assert(rest[0] == v);
            assert(rest.skip(1) == path@.skip(i + 1));
        }
        if v == x {
            proof {
                assert(before + seq![x] == r@);
            }
            return r;
        }
        proof {
            let tail = prefix_through(path@.skip(i + 1), x);
            assert(before + (seq![v] + tail) == r@ + tail);
        }
        i = i + 1;
    }
}

/// Appends to `out` the first `upto` items of `xs` that are not yet in it.
/// `seen` holds the items of `out`.
pub(crate) fn push_new(out: &mut Vec<usize>, seen: &mut IdSet, xs: &Vec<usize>, upto: usize)
    requires
        upto <= xs.len(),
        id_members(*old(seen)) == old(out)@.to_set(),
    ensures
        final(out)@ == append_new(old(out)@, xs@.take(upto as int)),
        id_members(*final(seen)) == final(out)@.to_set(),
{
    let mut i: usize = 0;
    proof {
        assert(xs@.take(upto as int).take(0).len() == 0);
    }
    while i < upto
        invariant
            i <= upto,
            upto <= xs.len(),
            out@ == append_new(old(out)@, xs@.take(upto as int).take(i as int)),
            id_members(*seen) == out@.to_set(),
        decreases upto - i,
    {
        let x = xs[i];
        let ghost before = out@;
        let fresh = id_set_insert(seen, x);
        if fresh {
            out.push(x);
            proof {
                before.lemma_push_to_set_commute(x);
            }
        } else {
            proof {
                assert(before.to_set().insert(x) =~= before.to_set());
            }
        }
        proof {
            let t = xs@.take(upto as int);
            assert(t.take(i + 1).drop_last() == t.take(i as int));
            assert(t.take(i + 1).last() == x);
            assert(before.contains(x) == before.to_set().contains(x));
        }
        i = i + 1;
    }
    proof {
        let t = xs@.take(upto as int);
        assert(t.take(upto as int) == t);
    }
}

/// The active leaves at or below `source`, in ascending order.
pub fn find_leaves_under(graph: &StateGraph, leaves: &IdSet, source: usize) -> (under: Vec<usize>)
    ensures
        under@ == leaves_under(graph@, id_members(*leaves), source),
{
    proof {
        use_type_invariant(graph);
    }
    let n = graph.len();
    let ghost below = id_members(*leaves).filter(
        |l: usize| is_descendant_or_self(graph@, l, source),
    );
    let mut under: Vec<usize> = Vec::new();
    let mut l: usize = 0;
    while l < n
        invariant
            graph.wf(),
            n == graph@.len(),
            l <= n,
            below == id_members(*leaves).filter(
                |l: usize| is_descendant_or_self(graph@, l, source),
            ),
            under@ == ascending(below, 0, l),
        decreases n - l,
    {
        if id_set_contains(leaves, l) && graph.is_descendant_or_self(l, source) {
            under.push(l);
        }
        l = l + 1;
    }
    under
}

/// The exits and the entry depth of a transition whose source is not
/// parallel.
pub fn plan_sequential(
    graph: &StateGraph,
    under: &Vec<usize>,
    source: usize,
    target: usize,
    internal: bool,
) -> (r: (Vec<usize>, usize))
    ensures
        r.0@ == sequential_exits(graph@, under@, source, target, internal),
        r.1 == min_lca(graph@, under@, source, target, internal),
        r.1 <= path_to_root(graph@, target).len(),
{
    proof {
        use_type_invariant(graph);
    }
    let enter_path = graph.path_to_root(target);
    let mut exits: Vec<usize> = Vec::new();
    let mut seen = id_set_new();
    let mut min_depth: usize = 0;
    let mut i: usize = 0;
    proof {
        assert(exits@.to_set() =~= Set::<usize>::empty());
    }
    while i < under.len()
        invariant
            graph.wf(),
            i <= under.len(),
            enter_path@ == path_to_root(graph@, target),
            exits@ == sequential_exits(graph@, under@.take(i as int), source, target, internal),
            id_members(seen) == exits@.to_set(),
            min_depth == min_lca(graph@, under@.take(i as int), source, target, internal),
            min_depth <= enter_path.len(),
        decreases under.len() - i,
    {
        let leaf = under[i];
        let exit_path = graph.path_to_root(leaf);
        let mut depth = lca_depth(&exit_path, &enter_path);
        if !internal && depth > 0 && (target == leaf || exit_path[exit_path.len() - depth]
            == source) {
            depth = depth - 1;
        }
        if i == 0 || depth < min_depth {
            min_depth = depth;
        }
        let upto = exit_path.len() - depth;
        push_new(&mut exits, &mut seen, &exit_path, upto);
        proof {
            let t0 = under@.take(i as int);
            let t1 = under@.take(i + 1);
            assert(t1.drop_last() == t0);
            assert(t1.last() == leaf);
            assert(t1[0] == under@[0]);
        }
        i = i + 1;
    }
    proof {
        assert(under@.take(under@.len() as int) == under@);
    }
    (exits, min_depth)
}

/// The exits and the entry depth of a transition whose source is parallel.
pub fn plan_parallel(
    graph: &StateGraph,
    under: &Vec<usize>,
    source: usize,
    target: usize,
    internal: bool,
) -> (r: (Vec<usize>, usize))
    ensures
        r.0@ == parallel_exits(graph@, under@, source),
        r.1 == parallel_lca(graph@, source, target, internal),
        r.1 <= path_to_root(graph@, target).len(),
{
    proof {
        use_type_invariant(graph);
    }
    let mut exits: Vec<usize> = Vec::new();
    let mut seen = id_set_new();
    let mut i: usize = 0;
    proof {
        assert(exits@.to_set() =~= Set::<usize>::empty());
    }
    while i < under.len()
        invariant
            graph.wf(),
            i <= under.len(),
            exits@ == parallel_exits(graph@, under@.take(i as int), source),
            id_members(seen) == exits@.to_set(),
        decreases under.len() - i,
    {
        let leaf = under[i];
        let path = graph.path_to_root(leaf);
        let part = take_through(&path, source);
        push_new(&mut exits, &mut seen, &part, part.len());
        proof {
            let t0 = under@.take(i as int);
            let t1 = under@.take(i + 1);
            assert(t1.drop_last() == t0);
            assert(t1.last() == leaf);
            assert(part@.take(part@.len() as int) == part@);
        }
        i = i + 1;
    }
    proof {
        assert(under@.take(under@.len() as int) == under@);
    }
    let exit_path = graph.path_to_root(source);
    let enter_path = graph.path_to_root(target);
    let mut depth = lca_depth(&exit_path, &enter_path);
    if !internal && depth > 0 && exit_path[exit_path.len() - depth] == source {
        depth = depth - 1;
    }
    (exits, depth)
}

} // verus!
