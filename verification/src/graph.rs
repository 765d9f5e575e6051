//! The state graph: an arena of state nodes with parent and child links.
//!
//! States are addressed by their index in the arena. A child is always added
//! after its parent, so every parent link points to a smaller index: walks
//! towards the root end, and walks towards the leaves only see larger indices.
use vstd::prelude::*;

verus! {

/// What a state remembers of its interior when it is exited.
#[derive(Clone, Copy, Debug, PartialEq, Eq, Structural)]
pub enum History {
    /// Remember the immediate children that were active.
    Shallow,
    /// Remember the leaves that were active.
    Deep,
}

impl Default for History {
    fn default() -> (h: History)
        ensures
            h == History::Shallow,
    {
        History::Shallow
    }
}

/// One state of the graph.
pub struct StateNode {
    /// The enclosing state, `None` for a root.
    pub parent: Option<usize>,
    /// The states directly below, in the order in which they were added.
    pub children: Vec<usize>,
    /// Whether the children are orthogonal regions that are active together.
    pub is_parallel: bool,
    /// The descendant that is entered when this state is entered.
    pub initial_child: Option<usize>,
    /// Whether and how the state restores its interior on re-entry.
    pub history_mode: Option<History>,
}

/// An arena of states.
pub struct StateGraph {
    nodes: Vec<StateNode>,
}

/// The parent of state `i`, `None` for a root and for an index outside the
/// graph.
pub open spec fn parent_of(g: Seq<StateNode>, i: usize) -> Option<usize> {
    if i < g.len() {
        g[i as int].parent
    } else {
        None
    }
}

/// The proper ancestors of state `i`, nearest first, ending with its root.
pub open spec fn ancestors(g: Seq<StateNode>, i: usize) -> Seq<usize>
    decreases i,
{
    match parent_of(g, i) {
        Some(p) => if p < i {
            seq![p] + ancestors(g, p)
        } else {
            Seq::empty()
        },
        None => Seq::empty(),
    }
}

/// State `i` followed by its ancestors up to the root.
pub open spec fn path_to_root(g: Seq<StateNode>, i: usize) -> Seq<usize> {
    seq![i] + ancestors(g, i)
}

/// Whether `a` is a proper ancestor of `d`.
pub open spec fn is_ancestor(g: Seq<StateNode>, a: usize, d: usize) -> bool {
    ancestors(g, d).contains(a)
}

/// Whether `d` is `a` or lies below it.
pub open spec fn is_descendant_or_self(g: Seq<StateNode>, d: usize, a: usize) -> bool {
    d == a || is_ancestor(g, a, d)
}

/// The root above state `i` (`i` itself when it has no parent).
pub open spec fn root_of(g: Seq<StateNode>, i: usize) -> usize {
    path_to_root(g, i).last()
}

/// State `s` and its ancestors, bottom-up, as far as the state just below
/// `top` (as far as the root when `top` is not above `s`).
pub open spec fn climb(g: Seq<StateNode>, s: usize, top: usize) -> Seq<usize>
    decreases s,
{
    match parent_of(g, s) {
        Some(p) => if p < s && p != top {
            seq![s] + climb(g, p, top)
        } else {
            seq![s]
        },
        None => seq![s],
    }
}

/// The states to enter on the way from `top` down to `s`: those just below
/// `top` first, `s` last.
pub open spec fn descent(g: Seq<StateNode>, top: usize, s: usize) -> Seq<usize> {
    climb(g, s, top).reverse()
}

/// The states to enter on the way from `top` down to the remembered state
/// `s`: nothing when `s` is `top` itself.
pub open spec fn descent_below(g: Seq<StateNode>, top: usize, s: usize) -> Seq<usize> {
    if s == top {
        Seq::empty()
    } else {
        descent(g, top, s)
    }
}

/// The children of state `i`, empty for an index outside the graph.
pub open spec fn children_of(g: Seq<StateNode>, i: usize) -> Seq<usize> {
    if i < g.len() {
        g[i as int].children@
    } else {
        Seq::empty()
    }
}

/// The initial child of state `i`, if it has one.
pub open spec fn initial_of(g: Seq<StateNode>, i: usize) -> Option<usize> {
    if i < g.len() {
        g[i as int].initial_child
    } else {
        None
    }
}

/// The history mode of state `i`, if it has one.
pub open spec fn history_of(g: Seq<StateNode>, i: usize) -> Option<History> {
    if i < g.len() {
        g[i as int].history_mode
    } else {
        None
    }
}

/// Whether state `i` is a parallel state.
pub open spec fn parallel_at(g: Seq<StateNode>, i: usize) -> bool {
    i < g.len() && g[i as int].is_parallel
}

/// The links of state `i` are sound: its parent comes before it, its children
/// come after it and name it as their parent, and its initial child lies
/// below it.
pub open spec fn node_wf(g: Seq<StateNode>, i: usize) -> bool {
    &&& i < g.len()
    &&& match g[i as int].parent {
        Some(p) => p < i,
        None => true,
    }
    &&& forall|k: int|
        0 <= k < g[i as int].children@.len() ==> {
            let c = #[trigger] g[i as int].children@[k];
            i < c && c < g.len() && g[c as int].parent == Some(i)
        }
    &&& match g[i as int].initial_child {
        Some(c) => c < g.len() && is_ancestor(g, i, c),
        None => true,
    }
}

/// Every state of the graph has sound links.
pub open spec fn graph_wf(g: Seq<StateNode>) -> bool {
    forall|i: usize| i < g.len() ==> #[trigger] node_wf(g, i)
}

/// Two graphs agree on the parent of every state up to and including `i`.
pub open spec fn same_parents_upto(g1: Seq<StateNode>, g2: Seq<StateNode>, i: usize) -> bool {
    forall|j: usize| j <= i ==> #[trigger] parent_of(g1, j) == parent_of(g2, j)
}

/// Ancestors depend only on the parent links at and below a state's index.
pub proof fn lemma_ancestors_same_parents(g1: Seq<StateNode>, g2: Seq<StateNode>, i: usize)
    requires
        same_parents_upto(g1, g2, i),
    ensures
        ancestors(g1, i) == ancestors(g2, i),
    decreases i,
{
    assert(parent_of(g1, i) == parent_of(g2, i));
    match parent_of(g1, i) {
        Some(p) => {
            if p < i {
                assert forall|j: usize| j <= p implies #[trigger] parent_of(g1, j) == parent_of(
                    g2,
                    j,
                ) by {}
                lemma_ancestors_same_parents(g1, g2, p);
            }
        },
        None => {},
    }
}

/// Every ancestor of a state has a smaller index than the state.
pub proof fn lemma_ancestors_smaller(g: Seq<StateNode>, i: usize, a: usize)
    requires
        is_ancestor(g, a, i),
    ensures
        a < i,
        a < g.len(),
    decreases i,
{
    match parent_of(g, i) {
        Some(p) => {
            if p < i {
                let rest = ancestors(g, p);
                assert(ancestors(g, i) == seq![p] + rest);
                let k = choose|k: int| 0 <= k < ancestors(g, i).len() && ancestors(g, i)[k] == a;
                if k == 0 {
                    assert(a == p);
                } else {
                    assert(rest[k - 1] == a);
                    lemma_ancestors_smaller(g, p, a);
                }
            }
        },
        None => {},
    }
}

/// The ancestors of an ancestor are ancestors.
pub proof fn lemma_ancestor_transitive(g: Seq<StateNode>, a: usize, b: usize, c: usize)
    requires
        is_ancestor(g, a, b),
        is_ancestor(g, b, c),
    ensures
        is_ancestor(g, a, c),
    decreases c,
{
    match parent_of(g, c) {
        Some(p) => {
            if p < c {
                let rest = ancestors(g, p);
                assert(ancestors(g, c) == seq![p] + rest);
                let k = choose|k: int| 0 <= k < ancestors(g, c).len() && ancestors(g, c)[k] == b;
                if k == 0 {
                    assert(b == p);
                    let j = choose|j: int| 0 <= j < rest.len() && rest[j] == a;
                    assert(ancestors(g, c)[j + 1] == a);
                } else {
                    assert(rest[k - 1] == b);
                    lemma_ancestor_transitive(g, a, b, p);
                    let j = choose|j: int| 0 <= j < rest.len() && rest[j] == a;
                    assert(ancestors(g, c)[j + 1] == a);
                }
            }
        },
        None => {},
    }
}

impl View for StateGraph {
    type V = Seq<StateNode>;

    closed spec fn view(&self) -> Seq<StateNode> {
        self.nodes@
    }
}

impl StateGraph {
    /// The graph's links are sound. This holds of every graph.
    #[verifier::type_invariant]
    pub open spec fn wf(&self) -> bool {
        graph_wf(self@)
    }

    /// A graph without states.
    pub fn new() -> (g: StateGraph)
        ensures
            g@.len() == 0,
            g.wf(),
    {
        StateGraph { nodes: Vec::new() }
    }

    /// The number of states.
    pub fn len(&self) -> (n: usize)
        ensures
            n == self@.len(),
    {
        self.nodes.len()
    }

    /// Adds a state without a parent and returns its index.
    pub fn add_root(&mut self) -> (id: usize)
        ensures
            final(self).wf(),
            id == old(self)@.len(),
            final(self)@ == old(self)@.push(final(self)@[id as int]),
            final(self)@[id as int].parent is None,
            final(self)@[id as int].children@.len() == 0,
            !final(self)@[id as int].is_parallel,
            final(self)@[id as int].initial_child is None,
            final(self)@[id as int].history_mode is None,
    {
        proof {
            use_type_invariant(&*self);
        }
        let mut nodes: Vec<StateNode> = Vec::new();
        core::mem::swap(&mut self.nodes, &mut nodes);
        let ghost g0 = nodes@;
        let id = nodes.len();
        nodes.push(
            StateNode {
                parent: None,
                children: Vec::new(),
                is_parallel: false,
                initial_child: None,
                history_mode: None,
            },
        );
        proof {
            let g1 = nodes@;
            assert forall|i: usize| i < g1.len() implies #[trigger] node_wf(g1, i) by {
                if i < g0.len() {
                    assert(node_wf(g0, i));
                    assert(g1[i as int] == g0[i as int]);
                    match g0[i as int].initial_child {
                        Some(c) => {
                            assert forall|j: usize| j <= c implies #[trigger] parent_of(g0, j)
                                == parent_of(g1, j) by {}
                            lemma_ancestors_same_parents(g0, g1, c);
                        },
                        None => {},
                    }
                }
            }
            assert(g1 =~= g0.push(g1[id as int]));
        }
        self.nodes = nodes;
        id
    }

    /// Adds a state below `parent` and returns its index, or returns `None`
    /// and leaves the graph as it is when `parent` is not a state of the graph.
    pub fn add_child(&mut self, parent: usize) -> (id: Option<usize>)
        ensures
            final(self).wf(),
            id is Some <==> parent < old(self)@.len(),
            id is None ==> final(self)@ == old(self)@,
            id is Some ==> {
                let c = id->0;
                &&& c == old(self)@.len()
                &&& final(self)@.len() == old(self)@.len() + 1
                &&& final(self)@[c as int].parent == Some(parent)
                &&& final(self)@[c as int].children@.len() == 0
                &&& !final(self)@[c as int].is_parallel
                &&& final(self)@[c as int].initial_child is None
                &&& final(self)@[c as int].history_mode is None
                &&& final(self)@[parent as int].children@ == old(self)@[parent as int].children@.push(c)
                &&& final(self)@[parent as int].parent == old(self)@[parent as int].parent
                &&& final(self)@[parent as int].is_parallel == old(self)@[parent as int].is_parallel
                &&& final(self)@[parent as int].initial_child == old(
                    self,
                )@[parent as int].initial_child
                &&& final(self)@[parent as int].history_mode == old(self)@[parent as int].history_mode
                &&& forall|i: int|
                    0 <= i < old(self)@.len() && i != parent ==> final(self)@[i] == old(self)@[i]
            },
    {
        proof {
            use_type_invariant(&*self);
        }
        if parent >= self.nodes.len() {
            return None;
        }
        let mut nodes: Vec<StateNode> = Vec::new();
        core::mem::swap(&mut self.nodes, &mut nodes);
        let ghost g0 = nodes@;
        let id = nodes.len();
        nodes.push(
            StateNode {
                parent: Some(parent),
                children: Vec::new(),
                is_parallel: false,
                initial_child: None,
                history_mode: None,
            },
        );
        let ghost g_mid = nodes@;
        nodes[parent].children.push(id);
        proof {
            let g1 = nodes@;
            assert(g1.len() == g0.len() + 1);
            assert forall|j: usize| j < g0.len() implies #[trigger] parent_of(g0, j) == parent_of(
                g1,
                j,
            ) by {
                assert(g_mid[j as int] == g0[j as int]);
            }
            assert forall|i: usize| i < g1.len() implies #[trigger] node_wf(g1, i) by {
                if i < g0.len() {
                    assert(node_wf(g0, i));
                    assert(g_mid[i as int] == g0[i as int]);
                    match g1[i as int].initial_child {
                        Some(c) => {
                            assert(g0[i as int].initial_child == Some(c));
                            assert forall|j: usize| j <= c implies #[trigger] parent_of(g0, j)
                                == parent_of(g1, j) by {}
                            lemma_ancestors_same_parents(g0, g1, c);
                        },
                        None => {},
                    }
                    assert forall|k: int| 0 <= k < g1[i as int].children@.len() implies {
                        let c = #[trigger] g1[i as int].children@[k];
                        i < c && c < g1.len() && g1[c as int].parent == Some(i)
                    } by {
                        if i == parent && k == g0[i as int].children@.len() {
                        } else {
                            let c = g0[i as int].children@[k];
                            assert(g_mid[c as int] == g0[c as int]);
                        }
                    }
                }
            }
        }
        self.nodes = nodes;
        Some(id)
    }

    /// Marks state `id` as parallel or not. Returns whether `id` is a state of
    /// the graph; if it is not, nothing changes.
    pub fn set_parallel(&mut self, id: usize, parallel: bool) -> (done: bool)
        ensures
            final(self).wf(),
            done == (id < old(self)@.len()),
            final(self)@.len() == old(self)@.len(),
            !done ==> final(self)@ == old(self)@,
            done ==> final(self)@[id as int].is_parallel == parallel,
            forall|i: usize| i < old(self)@.len() ==> same_links(old(self)@, final(self)@, i),
            forall|i: usize|
                i < old(self)@.len() ==> #[trigger] history_of(final(self)@, i) == history_of(
                    old(self)@,
                    i,
                ),
            forall|i: usize|
                i < old(self)@.len() && i != id ==> #[trigger] parallel_at(final(self)@, i)
                    == parallel_at(old(self)@, i),
    {
        proof {
            use_type_invariant(&*self);
        }
        if id >= self.nodes.len() {
            return false;
        }
        let mut nodes: Vec<StateNode> = Vec::new();
        core::mem::swap(&mut self.nodes, &mut nodes);
        let ghost g0 = nodes@;
        nodes[id].is_parallel = parallel;
        proof {
            lemma_wf_same_links(g0, nodes@);
        }
        self.nodes = nodes;
        true
    }

    /// Sets or clears the history mode of state `id`. Returns whether `id` is
    /// a state of the graph; if it is not, nothing changes.
    pub fn set_history(&mut self, id: usize, mode: Option<History>) -> (done: bool)
        ensures
            final(self).wf(),
            done == (id < old(self)@.len()),
            final(self)@.len() == old(self)@.len(),
            !done ==> final(self)@ == old(self)@,
            done ==> final(self)@[id as int].history_mode == mode,
            forall|i: usize| i < old(self)@.len() ==> same_links(old(self)@, final(self)@, i),
            forall|i: usize|
                i < old(self)@.len() ==> #[trigger] parallel_at(final(self)@, i) == parallel_at(
                    old(self)@,
                    i,
                ),
            forall|i: usize|
                i < old(self)@.len() && i != id ==> #[trigger] history_of(final(self)@, i)
                    == history_of(old(self)@, i),
    {
        proof {
            use_type_invariant(&*self);
        }
        if id >= self.nodes.len() {
            return false;
        }
        let mut nodes: Vec<StateNode> = Vec::new();
        core::mem::swap(&mut self.nodes, &mut nodes);
        let ghost g0 = nodes@;
        nodes[id].history_mode = mode;
        proof {
            lemma_wf_same_links(g0, nodes@);
        }
        self.nodes = nodes;
        true
    }

    /// Makes `initial` the initial child of state `id`. Returns whether this
    /// was done: `initial` must lie below `id`; otherwise nothing changes.
    pub fn set_initial(&mut self, id: usize, initial: usize) -> (done: bool)
        ensures
            final(self).wf(),
            done == (initial < old(self)@.len() && is_ancestor(old(self)@, id, initial)),
            final(self)@.len() == old(self)@.len(),
            !done ==> final(self)@ == old(self)@,
            done ==> final(self)@[id as int].initial_child == Some(initial),
            forall|i: usize|
                i < old(self)@.len() ==> {
                    &&& #[trigger] parent_of(final(self)@, i) == parent_of(old(self)@, i)
                    &&& children_of(final(self)@, i) == children_of(old(self)@, i)
                    &&& parallel_at(final(self)@, i) == parallel_at(old(self)@, i)
                    &&& history_of(final(self)@, i) == history_of(old(self)@, i)
                    &&& i != id ==> initial_of(final(self)@, i) == initial_of(old(self)@, i)
                },
    {
        proof {
            use_type_invariant(&*self);
        }
        if initial >= self.nodes.len() || !self.is_ancestor(id, initial) {
            return false;
        }
        proof {
            lemma_ancestors_smaller(self@, initial, id);
        }
        let mut nodes: Vec<StateNode> = Vec::new();
        core::mem::swap(&mut self.nodes, &mut nodes);
        let ghost g0 = nodes@;
        nodes[id].initial_child = Some(initial);
        proof {
            let g1 = nodes@;
            assert forall|j: usize| true implies #[trigger] parent_of(g0, j) == parent_of(g1, j) by {}
            assert forall|i: usize| i < g1.len() implies #[trigger] node_wf(g1, i) by {
                assert(node_wf(g0, i));
                match g1[i as int].initial_child {
                    Some(c) => {
                        lemma_ancestors_same_parents(g0, g1, c);
                    },
                    None => {},
                }
                assert forall|k: int| 0 <= k < g1[i as int].children@.len() implies {
                    let c = #[trigger] g1[i as int].children@[k];
                    i < c && c < g1.len() && g1[c as int].parent == Some(i)
                } by {
                    let c = g0[i as int].children@[k];
                    assert(i < c && c < g0.len() && g0[c as int].parent == Some(i));
                }
            }
        }
        self.nodes = nodes;
        true
    }

    /// The parent of state `id`.
    pub fn parent(&self, id: usize) -> (p: Option<usize>)
        ensures
            p == parent_of(self@, id),
    {
        if id < self.nodes.len() {
            self.nodes[id].parent
        } else {
            None
        }
    }

    /// The number of children of state `id`.
    pub fn child_count(&self, id: usize) -> (n: usize)
        ensures
            n == children_of(self@, id).len(),
    {
        if id < self.nodes.len() {
            self.nodes[id].children.len()
        } else {
            0
        }
    }

    /// The `k`-th child of state `id`, if it has that many.
    pub fn child(&self, id: usize, k: usize) -> (c: Option<usize>)
        ensures
            c == if k < children_of(self@, id).len() {
                Some(children_of(self@, id)[k as int])
            } else {
                None
            },
    {
        if id < self.nodes.len() && k < self.nodes[id].children.len() {
            Some(self.nodes[id].children[k])
        } else {
            None
        }
    }

    pub(crate) fn child_at(&self, id: usize, k: usize) -> (c: usize)
        requires
            k < children_of(self@, id).len(),
        ensures
            c == children_of(self@, id)[k as int],
    {
        self.nodes[id].children[k]
    }

    /// Whether state `id` is parallel.
    pub fn is_parallel(&self, id: usize) -> (b: bool)
        ensures
            b == parallel_at(self@, id),
    {
        id < self.nodes.len() && self.nodes[id].is_parallel
    }

    /// The initial child of state `id`.
    pub fn initial_child(&self, id: usize) -> (c: Option<usize>)
        ensures
            c == initial_of(self@, id),
    {
        if id < self.nodes.len() {
            self.nodes[id].initial_child
        } else {
            None
        }
    }

    /// The history mode of state `id`.
    pub fn history_mode(&self, id: usize) -> (h: Option<History>)
        ensures
            h == history_of(self@, id),
    {
        if id < self.nodes.len() {
            self.nodes[id].history_mode
        } else {
            None
        }
    }

    /// State `id` followed by its ancestors up to the root.
    pub fn path_to_root(&self, id: usize) -> (path: Vec<usize>)
        ensures
            path@ == path_to_root(self@, id),
    {
        proof {
            use_type_invariant(self);
        }
        let mut path: Vec<usize> = Vec::new();
        path.push(id);
        let mut cur: usize = id;
        loop
            invariant
                self.wf(),
                path@ + ancestors(self@, cur) == path_to_root(self@, id),
            decreases cur,
        {
            match self.parent(cur) {
                Some(p) => {
                    proof {
                        assert(node_wf(self@, cur));
                        assert(ancestors(self@, cur) == seq![p] + ancestors(self@, p));
                        assert(path@.push(p) + ancestors(self@, p) == path@ + (seq![p] + ancestors(
                            self@,
                            p,
                        )));
                    }
                    path.push(p);
                    cur = p;
                },
                None => {
                    proof {
                        assert(path@ + Seq::<usize>::empty() == path@);
                    }
                    return path;
                },
            }
        }
    }

    /// State `s` and its ancestors, bottom-up, as far as the state just
    /// below `top`.
    pub fn climb(&self, s: usize, top: usize) -> (path: Vec<usize>)
        ensures
            path@ == climb(self@, s, top),
    {
        proof {
            use_type_invariant(self);
        }
        let mut path: Vec<usize> = Vec::new();
        let mut cur: usize = s;
        loop
            invariant
                self.wf(),
                path@ + climb(self@, cur, top) == climb(self@, s, top),
            decreases cur,
        {
            let ghost before = path@;
            path.push(cur);
            match self.parent(cur) {
                Some(p) => {
                    proof {
                        assert(node_wf(self@, cur));
                    }
                    if p == top {
                        assert(before + seq![cur] == path@);
                        return path;
                    }
                    proof {
                        assert(climb(self@, cur, top) == seq![cur] + climb(self@, p, top));
                        assert(path@ + climb(self@, p, top) == before + (seq![cur] + climb(
                            self@,
                            p,
                            top,
                        )));
                    }
                    cur = p;
                },
                None => {
                    assert(before + seq![cur] == path@);
                    return path;
                },
            }
        }
    }

    /// The root above state `id`.
    pub fn root_ancestor(&self, id: usize) -> (root: usize)
        ensures
            root == root_of(self@, id),
    {
        proof {
            use_type_invariant(self);
        }
        let mut cur: usize = id;
        loop
            invariant
                self.wf(),
                root_of(self@, cur) == root_of(self@, id),
            decreases cur,
        {
            match self.parent(cur) {
                Some(p) => {
                    proof {
                        assert(node_wf(self@, cur));
                        assert(ancestors(self@, cur) == seq![p] + ancestors(self@, p));
                        assert(path_to_root(self@, cur).last() == path_to_root(self@, p).last());
                    }
                    cur = p;
                },
                None => {
                    return cur;
                },
            }
        }
    }

    /// Whether `a` is a proper ancestor of `d`.
    pub fn is_ancestor(&self, a: usize, d: usize) -> (b: bool)
        ensures
            b == is_ancestor(self@, a, d),
    {
        proof {
            use_type_invariant(self);
        }
        let mut cur: usize = d;
        loop
            invariant
                self.wf(),
                is_ancestor(self@, a, cur) == is_ancestor(self@, a, d),
            decreases cur,
        {
            match self.parent(cur) {
                Some(p) => {
                    proof {
                        assert(node_wf(self@, cur));
                        let rest = ancestors(self@, p);
                        assert(ancestors(self@, cur) == seq![p] + rest);
                        if p == a {
                            assert(ancestors(self@, cur)[0] == a);
                        } else if rest.contains(a) {
                            let j = choose|j: int| 0 <= j < rest.len() && rest[j] == a;
                            assert(ancestors(self@, cur)[j + 1] == a);
                        } else if ancestors(self@, cur).contains(a) {
                            let j = choose|j: int|
                                0 <= j < ancestors(self@, cur).len() && ancestors(self@, cur)[j]
                                    == a;
                            assert(rest[j - 1] == a);
                        }
                    }
                    if p == a {
                        return true;
                    }
                    cur = p;
                },
                None => {
                    return false;
                },
            }
        }
    }

    /// Whether `d` is `a` or lies below it.
    pub fn is_descendant_or_self(&self, d: usize, a: usize) -> (b: bool)
        ensures
            b == is_descendant_or_self(self@, d, a),
    {
        proof {
            use_type_invariant(self);
        }
        d == a || self.is_ancestor(a, d)
    }
}

/// State `i` has the same parent, children and initial child in both graphs.
pub open spec fn same_links(g1: Seq<StateNode>, g2: Seq<StateNode>, i: usize) -> bool {
    &&& parent_of(g1, i) == parent_of(g2, i)
    &&& children_of(g1, i) == children_of(g2, i)
    &&& initial_of(g1, i) == initial_of(g2, i)
}

/// A graph with the same links as a sound graph is sound.
pub proof fn lemma_wf_same_links(g0: Seq<StateNode>, g1: Seq<StateNode>)
    requires
        graph_wf(g0),
        g0.len() == g1.len(),
        forall|i: int|
            0 <= i < g0.len() ==> {
                &&& (#[trigger] g1[i]).parent == g0[i].parent
                &&& g1[i].children@ == g0[i].children@
                &&& g1[i].initial_child == g0[i].initial_child
            },
    ensures
        graph_wf(g1),
        forall|i: usize| i < g0.len() ==> same_links(g0, g1, i),
{
    assert forall|j: usize| true implies #[trigger] parent_of(g0, j) == parent_of(g1, j) by {}
    assert forall|i: usize| i < g1.len() implies #[trigger] node_wf(g1, i) by {
        assert(node_wf(g0, i));
        match g1[i as int].initial_child {
            Some(c) => {
                lemma_ancestors_same_parents(g0, g1, c);
            },
            None => {},
        }
        assert forall|k: int| 0 <= k < g1[i as int].children@.len() implies {
            let c = #[trigger] g1[i as int].children@[k];
            i < c && c < g1.len() && g1[c as int].parent == Some(i)
        } by {
            let c = g0[i as int].children@[k];
            assert(i < c && c < g0.len() && g0[c as int].parent == Some(i));
        }
    }
}

} // verus!
