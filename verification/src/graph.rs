//! A small graph library: nodes with an `i32` value and directed edges between them, and
//! subgraphs that can tell whether they contain a cycle.
//!
//! Nodes live in a `Graph` and are named by handles. A node has at most one edge to another
//! node. A node can belong to several subgraphs.
use vstd::prelude::*;

verus! {

/// Error for a graph operation that cannot be done: a handle that names no node of the graph.
#[derive(Debug)]
pub struct GraphError;

/// Handle to a node of a graph.
pub type NodeHandle = usize;

/// The nodes of a graph and their edges.
#[derive(Debug)]
pub struct Graph {
    values: Vec<i32>,
    edges: Vec<Vec<usize>>,
}

/// `s` holds no value twice.
pub open spec fn no_duplicates(s: Seq<usize>) -> bool {
    forall|i: int, j: int| 0 <= i < j < s.len() ==> s[i] != s[j]
}

impl Graph {
    /// The number of nodes.
    pub closed spec fn size(&self) -> nat {
        self.values@.len()
    }

    /// The value of node `v`.
    pub closed spec fn value(&self, v: NodeHandle) -> i32 {
        self.values@[v as int]
    }

    /// There is an edge from `u` to `w`.
    pub closed spec fn edge(&self, u: NodeHandle, w: NodeHandle) -> bool {
        u < self.edges@.len() && self.edges@[u as int]@.contains(w)
    }

    /// Every node has a list of edges, to nodes of the graph, with no edge twice.
    pub closed spec fn wf(&self) -> bool {
        &&& self.edges@.len() == self.values@.len()
        &&& forall|u: int| 0 <= u < self.edges@.len() ==> no_duplicates(#[trigger] self.edges@[u]@)
        &&& forall|u: int, k: int|
            0 <= u < self.edges@.len() && 0 <= k < self.edges@[u]@.len() ==> #[trigger] self.edges@[u]@[k]
                < self.values@.len()
    }

    /// An empty graph.
    pub fn new() -> (r: Self)
        ensures
            r.wf(),
            r.size() == 0,
    {
        Graph { values: Vec::new(), edges: Vec::new() }
    }

    /// Creates a node with value `value` and returns the handle to it.
    pub fn new_node(&mut self, value: i32) -> (r: NodeHandle)
        requires
            old(self).wf(),
        ensures
            final(self).wf(),
            r == old(self).size(),
            final(self).size() == old(self).size() + 1,
            final(self).value(r) == value,
            forall|v: NodeHandle| v < old(self).size() ==> final(self).value(v) == old(self).value(v),
            forall|u: NodeHandle, w: NodeHandle| #[trigger] final(self).edge(u, w) == old(self).edge(u, w),
    {
        let r = self.values.len();
        self.values.push(value);
        self.edges.push(Vec::new());
        proof {
            assert forall|u: NodeHandle, w: NodeHandle| #[trigger] self.edge(u, w) == old(self).edge(u, w) by {
                if u < old(self).edges@.len() {
                    assert(self.edges@[u as int] == old(self).edges@[u as int]);
                }
                if u == r {
                    assert(self.edges@[u as int]@ == Seq::<usize>::empty());
                }
            }
        }
        r
    }

    /// Adds an edge from `from` to `to`. Returns `Err(GraphError)` if either handle names no
    /// node, `Ok(true)` if the edge is added, and `Ok(false)` if it was already there.
    pub fn add_edge(&mut self, from: NodeHandle, to: NodeHandle) -> (r: Result<bool, GraphError>)
        requires
            old(self).wf(),
        ensures
            final(self).wf(),
            final(self).size() == old(self).size(),
            forall|v: NodeHandle| v < old(self).size() ==> final(self).value(v) == old(self).value(v),
            (r is Err) <==> (from >= old(self).size() || to >= old(self).size()),
            r matches Ok(added) ==> added == !old(self).edge(from, to),
            forall|u: NodeHandle, w: NodeHandle|
                #[trigger] final(self).edge(u, w) == (old(self).edge(u, w) || (r is Ok && u == from && w
                    == to)),
    {
        if from >= self.values.len() || to >= self.values.len() {
            return Err(GraphError);
        }
        let n = self.edges[from].len();
        let mut k: usize = 0;
        while k < n
            invariant
                n == self.edges@[from as int]@.len(),
                self.edges@ == old(self).edges@,
                self.values@ == old(self).values@,
                old(self).wf(),
                from < self.values@.len(),
                to < self.values@.len(),
                from < self.edges@.len(),
                k <= n,
                forall|j: int| 0 <= j < k ==> self.edges@[from as int]@[j] != to,
            decreases n - k,
        {
            if self.edges[from][k] == to {
                assert(self.edges@[from as int]@.contains(to));
                return Ok(false);
            }
            k = k + 1;
        }
        let ghost before = self.edges@;
        let mut list = Vec::new();
        std::mem::swap(&mut list, &mut self.edges[from]);
        list.push(to);
        self.edges.set(from, list);
        proof {
            assert(self.edges@[from as int]@ == before[from as int]@.push(to));
            assert forall|u: NodeHandle, w: NodeHandle| #[trigger] self.edge(u, w) == (old(self).edge(u, w) || (
            u == from && w == to)) by {
                if u == from {
                    if before[from as int]@.contains(w) {
                        let j = choose|j: int| 0 <= j < before[from as int]@.len() && before[from as int]@[j] == w;
                        assert(self.edges@[from as int]@[j] == w);
                    }
                    if self.edges@[from as int]@.contains(w) && w != to {
                        let j = choose|j: int| 0 <= j < self.edges@[from as int]@.len() && self.edges@[from as int]@[j] == w;
                        assert(before[from as int]@[j] == w);
                    }
                    if w == to {
                        assert(self.edges@[from as int]@[n as int] == w);
                    }
                } else if u < before.len() {
                    assert(self.edges@[u as int] == before[u as int]);
                }
            }
            assert forall|u: int| 0 <= u < self.edges@.len() implies no_duplicates(#[trigger] self.edges@[u]@) by {
                if u != from {
                    assert(self.edges@[u] == before[u]);
                }
            }
            assert forall|u: int, j: int|
                0 <= u < self.edges@.len() && 0 <= j < self.edges@[u]@.len() implies #[trigger] self.edges@[u]@[j]
                < self.values@.len() by {
                if u != from {
                    assert(self.edges@[u] == before[u]);
                } else if j < n {
                    assert(self.edges@[u]@[j] == before[u]@[j]);
                }
            }
        }
        Ok(true)
    }

    /// Removes the edge from `from` to `to`. Returns `Err(GraphError)` if `from` names no node,
    /// `Ok(true)` if the edge is removed, and `Ok(false)` if there was no such edge.
    pub fn remove_edge(&mut self, from: NodeHandle, to: NodeHandle) -> (r: Result<bool, GraphError>)
        requires
            old(self).wf(),
        ensures
            final(self).wf(),
            final(self).size() == old(self).size(),
            forall|v: NodeHandle| v < old(self).size() ==> final(self).value(v) == old(self).value(v),
            (r is Err) <==> from >= old(self).size(),
            r matches Ok(removed) ==> removed == old(self).edge(from, to),
            forall|u: NodeHandle, w: NodeHandle|
                #[trigger] final(self).edge(u, w) == (old(self).edge(u, w) && !(u == from && w == to)),
    {
        if from >= self.values.len() {
            return Err(GraphError);
        }
        let ghost before = self.edges@;
        let ghost old_list = before[from as int]@;
        let mut list = Vec::new();
        std::mem::swap(&mut list, &mut self.edges[from]);
        assert(list@ == old_list);
        let mut kept: Vec<usize> = Vec::new();
        let mut removed = false;
        let n = list.len();
        let mut k: usize = 0;
        while k < n
            invariant
                n == list@.len(),
                list@ == old_list,
                no_duplicates(old_list),
                k <= n,
                forall|j: int| 0 <= j < old_list.len() ==> old_list[j] < before.len(),
                forall|w: usize| #[trigger] kept@.contains(w) <==> (exists|j: int| 0 <= j < k && old_list[j] == w)
                    && w != to,
                removed <==> exists|j: int| 0 <= j < k && old_list[j] == to,
                no_duplicates(kept@),
                forall|j: int| 0 <= j < kept@.len() ==> #[trigger] kept@[j] < before.len(),
            decreases n - k,
        {
            let w = list[k];
            if w == to {
                removed = true;
            } else {
                let ghost kb = kept@;
                kept.push(w);
                proof {
                    assert forall|i: int, j: int| 0 <= i < j < kept@.len() implies kept@[i] != kept@[j] by {
                        if j == kb.len() && kept@[i] == w {
                            assert(kb.contains(w));
                            let t = choose|t: int| 0 <= t < k && old_list[t] == w;
                            assert(t != k as int);
                        }
                    }
                    assert forall|x: usize| #[trigger] kept@.contains(x) <==> (exists|j: int|
                        0 <= j < k + 1 && old_list[j] == x) && x != to by {
                        if kept@.contains(x) && x != w {
                            let i = choose|i: int| 0 <= i < kept@.len() && kept@[i] == x;
                            assert(kb[i] == x);
                        }
                        if kb.contains(x) {
                            let i = choose|i: int| 0 <= i < kb.len() && kb[i] == x;
                            assert(kept@[i] == x);
                        }
                        if x == w {
                            assert(kept@[kb.len() as int] == x);
                        }
                    }
                }
            }
            k = k + 1;
        }
        self.edges.set(from, kept);
        proof {
            assert forall|u: NodeHandle, w: NodeHandle| #[trigger] self.edge(u, w) == (old(self).edge(u, w) && !(
            u == from && w == to)) by {
                if u == from {
                    if old_list.contains(w) {
                        let j = choose|j: int| 0 <= j < old_list.len() && old_list[j] == w;
                        assert(exists|j: int| 0 <= j < n && old_list[j] == w);
                    }
                } else if u < before.len() {
                    assert(self.edges@[u as int] == before[u as int]);
                }
            }
            assert forall|u: int| 0 <= u < self.edges@.len() implies no_duplicates(#[trigger] self.edges@[u]@) by {
                if u != from {
                    assert(self.edges@[u] == before[u]);
                }
            }
            assert forall|u: int, j: int|
                0 <= u < self.edges@.len() && 0 <= j < self.edges@[u]@.len() implies #[trigger] self.edges@[u]@[j]
                < self.values@.len() by {
                if u != from {
                    assert(self.edges@[u] == before[u]);
                }
            }
            if removed {
                let j = choose|j: int| 0 <= j < n && old_list[j] == to;
                assert(old_list.contains(to));
            }
        }
        Ok(removed)
    }

    /// Removes every edge from `from`. Returns `Err(GraphError)` if `from` names no node.
    pub fn clear_edges(&mut self, from: NodeHandle) -> (r: Result<(), GraphError>)
        requires
            old(self).wf(),
        ensures
            final(self).wf(),
            final(self).size() == old(self).size(),
            forall|v: NodeHandle| v < old(self).size() ==> final(self).value(v) == old(self).value(v),
            (r is Err) <==> from >= old(self).size(),
            forall|u: NodeHandle, w: NodeHandle|
                #[trigger] final(self).edge(u, w) == (old(self).edge(u, w) && u != from),
    {
        if from >= self.values.len() {
            return Err(GraphError);
        }
        let ghost before = self.edges@;
        self.edges.set(from, Vec::new());
        proof {
            assert forall|u: NodeHandle, w: NodeHandle| #[trigger] self.edge(u, w) == (old(self).edge(u, w) && u
                != from) by {
                if u != from && u < before.len() {
                    assert(self.edges@[u as int] == before[u as int]);
                }
            }
            assert forall|u: int| 0 <= u < self.edges@.len() implies no_duplicates(#[trigger] self.edges@[u]@) by {
                if u != from {
                    assert(self.edges@[u] == before[u]);
                }
            }
            assert forall|u: int, j: int|
                0 <= u < self.edges@.len() && 0 <= j < self.edges@[u]@.len() implies #[trigger] self.edges@[u]@[j]
                < self.values@.len() by {
                if u != from {
                    assert(self.edges@[u] == before[u]);
                }
            }
        }
        Ok(())
    }
}

impl Default for Graph {
    fn default() -> (r: Self)
        ensures
            r.wf(),
            r.size() == 0,
    {
        Self::new()
    }
}

/// A set of nodes of a graph.
#[derive(Debug)]
pub struct SubGraph {
    nodes: Vec<NodeHandle>,
}

impl SubGraph {
    /// The nodes of the subgraph.
    pub closed spec fn view(&self) -> Set<NodeHandle> {
        self.nodes@.to_set()
    }

    /// No node is recorded twice.
    pub closed spec fn wf(&self) -> bool {
        no_duplicates(self.nodes@)
    }

    /// An empty subgraph.
    pub fn new() -> (r: Self)
        ensures
            r.wf(),
            r.view() == Set::<NodeHandle>::empty(),
    {
        let r = SubGraph { nodes: Vec::new() };
        assert(r.view() =~= Set::<NodeHandle>::empty());
        r
    }

    /// Adds a node to the subgraph. Returns whether it was not in it before.
    pub fn add_node(&mut self, node: NodeHandle) -> (r: bool)
        requires
            old(self).wf(),
        ensures
            final(self).wf(),
            r == !old(self).view().contains(node),
            final(self).view() == old(self).view().insert(node),
    {
        let n = self.nodes.len();
        let mut k: usize = 0;
        while k < n
            invariant
                n == self.nodes@.len(),
                self.nodes@ == old(self).nodes@,
                no_duplicates(self.nodes@),
                k <= n,
                forall|j: int| 0 <= j < k ==> self.nodes@[j] != node,
            decreases n - k,
        {
            if self.nodes[k] == node {
                assert(self.nodes@.to_set().contains(node));
                assert(self.view() =~= old(self).view().insert(node));
                return false;
            }
            k = k + 1;
        }
        let ghost before = self.nodes@;
        self.nodes.push(node);
        proof {
            assert(!before.contains(node));
            assert forall|x: NodeHandle| self.nodes@.contains(x) <==> before.contains(x) || x == node by {
                if self.nodes@.contains(x) && x != node {
                    let i = choose|i: int| 0 <= i < self.nodes@.len() && self.nodes@[i] == x;
                    assert(before[i] == x);
                }
                if before.contains(x) {
                    let i = choose|i: int| 0 <= i < before.len() && before[i] == x;
                    assert(self.nodes@[i] == x);
                }
                if x == node {
                    assert(self.nodes@[before.len() as int] == x);
                }
            }
            assert(self.view() =~= old(self).view().insert(node));
        }
        true
    }

    /// Removes a node from the subgraph. Returns whether it was in it.
    pub fn remove_node(&mut self, node: NodeHandle) -> (r: bool)
        requires
            old(self).wf(),
        ensures
            final(self).wf(),
            r == old(self).view().contains(node),
            final(self).view() == old(self).view().remove(node),
    {
        let n = self.nodes.len();
        let mut k: usize = 0;
        while k < n
            invariant
                n == self.nodes@.len(),
                self.nodes@ == old(self).nodes@,
                no_duplicates(self.nodes@),
                k <= n,
                forall|j: int| 0 <= j < k ==> self.nodes@[j] != node,
            decreases n - k,
        {
            if self.nodes[k] == node {
                let ghost before = self.nodes@;
                self.nodes.remove(k);
                proof {
                    assert(self.nodes@ == before.take(k as int) + before.skip(k + 1));
                    assert forall|x: NodeHandle| self.nodes@.contains(x) <==> before.contains(x) && x != node by {
                        if self.nodes@.contains(x) {
                            let i = choose|i: int| 0 <= i < self.nodes@.len() && self.nodes@[i] == x;
                            if i < k {
                                assert(before[i] == x);
                            } else {
                                assert(before[i + 1] == x);
                            }
                        }
                        if before.contains(x) && x != node {
                            let i = choose|i: int| 0 <= i < before.len() && before[i] == x;
                            if i < k {
                                assert(self.nodes@[i] == x);
                            } else {
                                assert(i != k);
                                assert(self.nodes@[i - 1] == x);
                            }
                        }
                    }
                    assert(self.view() =~= old(self).view().remove(node));
                    assert(before.contains(node));
                    assert forall|i: int, j: int| 0 <= i < j < self.nodes@.len() implies self.nodes@[i]
                        != self.nodes@[j] by {
                        let bi = if i < k { i } else { i + 1 };
                        let bj = if j < k { j } else { j + 1 };
                        assert(self.nodes@[i] == before[bi] && self.nodes@[j] == before[bj]);
                    }
                }
                return true;
            }
            k = k + 1;
        }
        assert(!self.nodes@.contains(node));
        assert(self.view() =~= old(self).view().remove(node));
        false
    }
}


impl Default for SubGraph {
    fn default() -> (r: Self)
        ensures
            r.wf(),
            r.view() == Set::<NodeHandle>::empty(),
    {
        Self::new()
    }
}

/// `p` is a walk in `g` through nodes of `s`: it is not empty, all its nodes are in `s`, and
/// each node has an edge to the next.
pub open spec fn is_walk(g: Graph, s: Set<NodeHandle>, p: Seq<NodeHandle>) -> bool {
    &&& p.len() > 0
    &&& forall|i: int| 0 <= i < p.len() ==> s.contains(#[trigger] p[i])
    &&& forall|i: int| 0 <= i < p.len() - 1 ==> g.edge(#[trigger] p[i], p[i + 1])
}

/// The nodes `s` of `g` hold a cycle: a walk through them whose last node has an edge back to
/// its first (a node with an edge to itself is a cycle).
pub open spec fn has_cycle(g: Graph, s: Set<NodeHandle>) -> bool {
    exists|p: Seq<NodeHandle>| #[trigger] is_walk(g, s, p) && g.edge(p.last(), p[0])
}

/// `w` can be reached from `v` by following at least one edge, through nodes of `s` only.
pub open spec fn reaches(g: Graph, s: Set<NodeHandle>, v: NodeHandle, w: NodeHandle) -> bool {
    exists|p: Seq<NodeHandle>| #[trigger] is_walk(g, s, p) && p[0] == v && g.edge(p.last(), w) && s.contains(w)
}

/// The number of entries of `m` that are `false`.
pub open spec fn unmarked(m: Seq<bool>) -> nat
    decreases m.len(),
{
    if m.len() == 0 {
        0
    } else {
        unmarked(m.drop_last()) + if m.last() {
            0nat
        } else {
            1nat
        }
    }
}

proof fn lemma_unmarked_update(m: Seq<bool>, i: int)
    requires
        0 <= i < m.len(),
        !m[i],
    ensures
        unmarked(m.update(i, true)) + 1 == unmarked(m),
    decreases m.len(),
{
    if i < m.len() - 1 {
        lemma_unmarked_update(m.drop_last(), i);
        assert(m.update(i, true).drop_last() == m.drop_last().update(i, true));
    } else {
        assert(m.update(i, true).drop_last() == m.drop_last());
    }
}

/// A walk from `v` followed by an edge to `w` in `s` gives `reaches(v, w)`; and if `v`
/// reaches `u`, which has an edge to `w` in `s`, then `v` reaches `w`.
proof fn lemma_reaches_step(g: Graph, s: Set<NodeHandle>, v: NodeHandle, u: NodeHandle, w: NodeHandle)
    requires
        reaches(g, s, v, u),
        g.edge(u, w),
        s.contains(w),
    ensures
        reaches(g, s, v, w),
{
    let p = choose|p: Seq<NodeHandle>| #[trigger] is_walk(g, s, p) && p[0] == v && g.edge(p.last(), u) && s.contains(u);
    let q = p.push(u);
    assert(is_walk(g, s, q)) by {
        assert forall|i: int| 0 <= i < q.len() - 1 implies g.edge(#[trigger] q[i], q[i + 1]) by {
            if i < p.len() - 1 {
                assert(q[i] == p[i] && q[i + 1] == p[i + 1]);
            } else {
                assert(q[i] == p.last());
            }
        }
        assert forall|i: int| 0 <= i < q.len() implies s.contains(#[trigger] q[i]) by {
            if i < p.len() {
                assert(q[i] == p[i]);
            }
        }
    }
    assert(q[0] == v);
    assert(q.last() == u);
}

/// Whatever `v` reaches is marked, when the successors in `s` of `v` and of every marked node
/// are marked.
proof fn lemma_reaches_marked(
    g: Graph,
    s: Set<NodeHandle>,
    v: NodeHandle,
    marked: Set<NodeHandle>,
    p: Seq<NodeHandle>,
    w: NodeHandle,
)
    requires
        forall|x: NodeHandle| g.edge(v, x) && s.contains(x) ==> #[trigger] marked.contains(x),
        forall|u: NodeHandle, x: NodeHandle|
            marked.contains(u) && #[trigger] g.edge(u, x) && s.contains(x) ==> marked.contains(x),
        is_walk(g, s, p),
        p[0] == v,
        g.edge(p.last(), w),
        s.contains(w),
    ensures
        marked.contains(w),
    decreases p.len(),
{
    if p.len() > 1 {
        let q = p.drop_last();
        assert(is_walk(g, s, q)) by {
            assert forall|i: int| 0 <= i < q.len() - 1 implies g.edge(#[trigger] q[i], q[i + 1]) by {
                assert(q[i] == p[i] && q[i + 1] == p[i + 1]);
            }
            assert forall|i: int| 0 <= i < q.len() implies s.contains(#[trigger] q[i]) by {
                assert(q[i] == p[i]);
            }
        }
        assert(g.edge(p[p.len() - 2], p[p.len() - 1]));
        assert(s.contains(p[p.len() - 1]));
        lemma_reaches_marked(g, s, v, marked, q, p.last());
    }
}

/// Marks every node of `s` (given by `in_s`) that `v` reaches.
fn reach_marks(g: &Graph, s: Ghost<Set<NodeHandle>>, in_s: &Vec<bool>, v: NodeHandle) -> (mark: Vec<bool>)
    requires
        g.wf(),
        v < g.size(),
        s@.contains(v),
        in_s@.len() == g.size(),
        forall|x: NodeHandle| x < g.size() ==> in_s@[x as int] == s@.contains(x),
    ensures
        mark@.len() == g.size(),
        forall|w: NodeHandle| w < g.size() ==> mark@[w as int] == reaches(*g, s@, v, w),
{
    let ghost s = s@;
    let n = g.values.len();
    let mut mark: Vec<bool> = Vec::new();
    let mut i: usize = 0;
    while i < n
        invariant
            i <= n,
            mark@.len() == i,
            forall|j: int| 0 <= j < i ==> !mark@[j],
        decreases n - i,
    {
        mark.push(false);
        i = i + 1;
    }
    let mut order: Vec<usize> = Vec::new();
    // The successors of `v`, then the successors of each marked node in turn.
    let mut h: usize = 0;
    let mut seeded = false;
    loop
        invariant
            g.wf(),
            n == g.size(),
            v < n,
            s.contains(v),
            in_s@.len() == n,
            forall|x: NodeHandle| x < n ==> in_s@[x as int] == s.contains(x),
            mark@.len() == n,
            h <= order@.len(),
            forall|j: int| 0 <= j < order@.len() ==> #[trigger] order@[j] < n,
            forall|x: NodeHandle| x < n ==> (mark@[x as int] <==> order@.contains(x)),
            forall|x: NodeHandle| x < n && #[trigger] mark@[x as int] ==> reaches(*g, s, v, x),
            seeded ==> forall|x: NodeHandle| #[trigger] g.edge(v, x) && s.contains(x) ==> x < n && mark@[x as int],
            !seeded ==> h == 0 && order@.len() == 0,
            forall|j: int, x: NodeHandle|
                0 <= j < h && #[trigger] g.edge(order@[j], x) && s.contains(x) ==> x < n && mark@[x as int],
        ensures
            seeded,
            h == order@.len(),
            forall|x: NodeHandle| #[trigger] g.edge(v, x) && s.contains(x) ==> x < n && mark@[x as int],
            forall|x: NodeHandle| x < n && #[trigger] mark@[x as int] ==> reaches(*g, s, v, x),
            forall|x: NodeHandle| x < n ==> (mark@[x as int] <==> order@.contains(x)),
            forall|j: int, x: NodeHandle|
                0 <= j < h && #[trigger] g.edge(order@[j], x) && s.contains(x) ==> x < n && mark@[x as int],
        decreases (if seeded { 0nat } else { 1nat }), unmarked(mark@), order@.len() - h,
    {
        if seeded && h >= order.len() {
            break;
        }
        let u = if seeded { order[h] } else { v };
        let ghost u_reached = seeded;
        let ghost mark0 = mark@;
        let ghost order0 = order@;
        let ghost h0 = h;
        proof {
            if seeded {
                assert(order@.contains(u));
                assert(mark@[u as int]);
            }
        }
        let m = g.edges[u].len();
        let mut k: usize = 0;
        while k < m
            invariant
                g.wf(),
                n == g.size(),
                u < n,
                s.contains(v),
                m == g.edges@[u as int]@.len(),
                k <= m,
                in_s@.len() == n,
                forall|x: NodeHandle| x < n ==> in_s@[x as int] == s.contains(x),
                mark@.len() == n,
                forall|j: int| 0 <= j < order@.len() ==> #[trigger] order@[j] < n,
                forall|x: NodeHandle| x < n ==> (mark@[x as int] <==> order@.contains(x)),
                u_reached ==> reaches(*g, s, v, u),
                !u_reached ==> u == v,
                forall|x: NodeHandle| x < n && #[trigger] mark@[x as int] ==> reaches(*g, s, v, x),
                order0.len() <= order@.len(),
                forall|j: int| 0 <= j < order0.len() ==> order@[j] == order0[j],
                mark0.len() == n,
                forall|x: NodeHandle| x < n && mark0[x as int] ==> #[trigger] mark@[x as int],
                unmarked(mark@) <= unmarked(mark0),
                order@.len() > order0.len() ==> unmarked(mark@) < unmarked(mark0),
                forall|j: int|
                    0 <= j < k && s.contains(#[trigger] g.edges@[u as int]@[j]) ==> mark@[g.edges@[u as int]@[j] as int],
            decreases m - k,
        {
            let w = g.edges[u][k];
            proof {
                assert(g.edges@[u as int]@[k as int] < n);
            }
            if in_s[w] && !mark[w] {
                proof {
                    assert(g.edge(u, w));
                    if u_reached {
                        lemma_reaches_step(*g, s, v, u, w);
                    } else {
                        let p = seq![v];
                        assert(p[0] == v);
                        assert(is_walk(*g, s, p));
                        assert(reaches(*g, s, v, w));
                    }
                    lemma_unmarked_update(mark@, w as int);
                }
                let ghost ob = order@;
                mark.set(w, true);
                order.push(w);
                proof {
                    assert forall|x: NodeHandle| x < n implies (mark@[x as int] <==> order@.contains(x)) by {
                        if order@.contains(x) && x != w {
                            let j = choose|j: int| 0 <= j < order@.len() && order@[j] == x;
                            assert(ob[j] == x);
                        }
                        if ob.contains(x) {
                            let j = choose|j: int| 0 <= j < ob.len() && ob[j] == x;
                            assert(order@[j] == x);
                        }
                        if x == w {
                            assert(order@[ob.len() as int] == x);
                        }
                    }
                }
            }
            k = k + 1;
        }
        proof {
            assert forall|x: NodeHandle| #[trigger] g.edge(u, x) && s.contains(x) implies x < n && mark@[x as int] by {
                let j = choose|j: int| 0 <= j < m && g.edges@[u as int]@[j] == x;
            }
        }
        proof {
            if u_reached {
                assert forall|j: int, x: NodeHandle|
                    0 <= j < h0 + 1 && #[trigger] g.edge(order@[j], x) && s.contains(x) implies x < n && mark@[x as int] by {
                    assert(order@[j] == order0[j]);
                    if j < h0 {
                        assert(g.edge(order0[j], x));
                        assert(mark0[x as int]);
                    }
                }
            } else {
                assert forall|x: NodeHandle| #[trigger] g.edge(v, x) && s.contains(x) implies x < n && mark@[x as int] by {
                    assert(g.edge(u, x));
                }
            }
        }
        if seeded {
            h = h + 1;
        } else {
            seeded = true;
        }
    }
    proof {
        let marked = Set::new(|x: NodeHandle| x < n && mark@[x as int]);
        assert forall|u: NodeHandle, x: NodeHandle| marked.contains(u) && #[trigger] g.edge(u, x) && s.contains(x) implies marked.contains(x) by {
            assert(order@.contains(u));
            let j = choose|j: int| 0 <= j < order@.len() && order@[j] == u;
            assert(g.edge(order@[j], x));
        }
        assert forall|w: NodeHandle| w < n implies mark@[w as int] == reaches(*g, s, v, w) by {
            if reaches(*g, s, v, w) {
                let p = choose|p: Seq<NodeHandle>| #[trigger] is_walk(*g, s, p) && p[0] == v && g.edge(p.last(), w) && s.contains(w);
                lemma_reaches_marked(*g, s, v, marked, p, w);
            }
        }
    }
    mark
}

impl SubGraph {
    /// Returns whether the nodes of the subgraph hold a cycle of `graph`. Edges to nodes outside
    /// the subgraph are ignored.
    pub fn detect_cycle(&self, graph: &Graph) -> (r: bool)
        requires
            self.wf(),
            graph.wf(),
        ensures
            r == has_cycle(*graph, self.view()),
    {
        let ghost s = self.view();
        let n = graph.values.len();
        let mut in_s: Vec<bool> = Vec::new();
        let mut i: usize = 0;
        while i < n
            invariant
                i <= n,
                in_s@.len() == i,
                forall|j: int| 0 <= j < i ==> !in_s@[j],
            decreases n - i,
        {
            in_s.push(false);
            i = i + 1;
        }
        let count = self.nodes.len();
        let mut t: usize = 0;
        while t < count
            invariant
                count == self.nodes@.len(),
                s == self.nodes@.to_set(),
                t <= count,
                in_s@.len() == n,
                forall|x: NodeHandle| x < n ==> (in_s@[x as int] <==> exists|j: int| 0 <= j < t && self.nodes@[j] == x),
            decreases count - t,
        {
            let v = self.nodes[t];
            if v < n {
                in_s.set(v, true);
            }
            t = t + 1;
        }
        assert forall|x: NodeHandle| x < n implies in_s@[x as int] == s.contains(x) by {
            if s.contains(x) {
                let j = choose|j: int| 0 <= j < count && self.nodes@[j] == x;
            }
        }
        let mut t: usize = 0;
        while t < count
            invariant
                graph.wf(),
                n == graph.size(),
                count == self.nodes@.len(),
                s == self.nodes@.to_set(),
                t <= count,
                in_s@.len() == n,
                forall|x: NodeHandle| x < n ==> in_s@[x as int] == s.contains(x),
                forall|j: int| 0 <= j < t ==> !reaches(*graph, s, #[trigger] self.nodes@[j], self.nodes@[j]),
            decreases count - t,
        {
            let v = self.nodes[t];
            if v < n {
                let mark = reach_marks(graph, Ghost(s), &in_s, v);
                if mark[v] {
                    proof {
                        let p = choose|p: Seq<NodeHandle>| #[trigger] is_walk(*graph, s, p) && p[0] == v && graph.edge(p.last(), v) && s.contains(v);
                    }
                    return true;
                }
            } else {
                proof {
                    if reaches(*graph, s, v, v) {
                        let p = choose|p: Seq<NodeHandle>| #[trigger] is_walk(*graph, s, p) && p[0] == v && graph.edge(p.last(), v) && s.contains(v);
                        if p.len() > 1 {
                            assert(graph.edge(p[0], p[1]));
                        }
                    }
                }
            }
            t = t + 1;
        }
        proof {
            if has_cycle(*graph, s) {
                let p = choose|p: Seq<NodeHandle>| #[trigger] is_walk(*graph, s, p) && graph.edge(p.last(), p[0]);
                assert(s.contains(p[0]));
                let j = choose|j: int| 0 <= j < count && self.nodes@[j] == p[0];
                assert(reaches(*graph, s, p[0], p[0]));
            }
        }
        false
    }
}

} // verus!
