//! A type-level dependency graph and the detection of its cycles.

use vstd::prelude::*;
use vstd::string::*;
use vstd::seq_lib::*;
use crate::text::same_text;

verus! {

/// The characters of each name in `v`.
pub open spec fn views_of(v: Seq<String>) -> Seq<Seq<char>> {
    v.map_values(|s: String| s@)
}

/// The index lists of `v`.
pub open spec fn lists_of(v: Seq<Vec<usize>>) -> Seq<Seq<usize>> {
    v.map_values(|d: Vec<usize>| d@)
}

/// A well-formed graph: one adjacency list per node, node names distinct,
/// and each list holds distinct node indices.
pub open spec fn graph_wf(names: Seq<Seq<char>>, adj: Seq<Seq<usize>>) -> bool {
    &&& names.len() == adj.len()
    &&& names.no_duplicates()
    &&& forall|i: int| 0 <= i < adj.len() ==> (#[trigger] adj[i]).no_duplicates()
    &&& forall|i: int, k: int|
        0 <= i < adj.len() && 0 <= k < adj[i].len() ==> (#[trigger] adj[i][k]) < names.len()
}

/// Whether type `a` depends on type `b`.
pub open spec fn has_edge(names: Seq<Seq<char>>, adj: Seq<Seq<usize>>, a: Seq<char>, b: Seq<char>) -> bool {
    exists|i: int, k: int|
        0 <= i < adj.len() && 0 <= k < adj[i].len() && names[i] == a && names[#[trigger] adj[i][k] as int]
            == b
}

/// The dependency pairs of a graph.
pub open spec fn edge_set(names: Seq<Seq<char>>, adj: Seq<Seq<usize>>) -> Set<(Seq<char>, Seq<char>)> {
    Set::new(|p: (Seq<char>, Seq<char>)| has_edge(names, adj, p.0, p.1))
}

/// The element after position `k` of `c`, wrapping around.
pub open spec fn next_in<A>(c: Seq<A>, k: int) -> A {
    if k + 1 < c.len() {
        c[k + 1]
    } else {
        c[0]
    }
}

/// Whether `c` is a cycle of `edges`: distinct types, each depending on
/// the next and the last on the first.
pub open spec fn is_cycle(edges: Set<(Seq<char>, Seq<char>)>, c: Seq<Seq<char>>) -> bool {
    &&& c.len() > 0
    &&& c.no_duplicates()
    &&& forall|k: int| 0 <= k < c.len() ==> edges.contains((c[k], #[trigger] next_in(c, k)))
}

/// Whether node `i` has an edge to node `j`.
pub open spec fn idx_edge(adj: Seq<Seq<usize>>, i: int, j: int) -> bool {
    adj[i].contains(j as usize)
}

/// Whether `c` is a cycle of node indices.
pub open spec fn is_idx_cycle(adj: Seq<Seq<usize>>, c: Seq<usize>) -> bool {
    &&& c.len() > 0
    &&& c.no_duplicates()
    &&& forall|k: int| 0 <= k < c.len() ==> #[trigger] c[k] < adj.len()
    &&& forall|k: int| 0 <= k < c.len() ==> idx_edge(adj, c[k] as int, #[trigger] next_in(c, k) as int)
}

/// The state of a depth-first search: the path is a chain of edges through
/// distinct nodes, exactly the nodes on it are on the stack, and those are
/// visited.
pub open spec fn path_ok(adj: Seq<Seq<usize>>, path: Seq<usize>, on_stack: Seq<bool>, visited: Seq<bool>) -> bool {
    &&& adj.len() <= usize::MAX
    &&& on_stack.len() == adj.len()
    &&& visited.len() == adj.len()
    &&& path.no_duplicates()
    &&& forall|k: int| 0 <= k < path.len() ==> #[trigger] path[k] < adj.len()
    &&& forall|k: int| 0 <= k < path.len() - 1 ==> idx_edge(adj, #[trigger] path[k] as int, path[k + 1] as int)
    &&& forall|x: int| 0 <= x < adj.len() ==> (#[trigger] on_stack[x] <==> path.contains(x as usize))
    &&& forall|x: int| 0 <= x < adj.len() ==> #[trigger] on_stack[x] ==> visited[x]
}

/// The cycles found so far are genuine and none is repeated.
pub open spec fn cycles_ok(adj: Seq<Seq<usize>>, cycles: Seq<Seq<usize>>) -> bool {
    &&& forall|c: int| 0 <= c < cycles.len() ==> is_idx_cycle(adj, #[trigger] cycles[c])
    &&& cycles.no_duplicates()
}

/// Number of unvisited nodes.
pub open spec fn unvisited(v: Seq<bool>) -> nat
    decreases v.len(),
{
    if v.len() == 0 {
        0
    } else {
        unvisited(v.drop_last()) + if v.last() {
            0nat
        } else {
            1nat
        }
    }
}

proof fn lemma_unvisited_mono(a: Seq<bool>, b: Seq<bool>, y: int)
    requires
        a.len() == b.len(),
        forall|x: int| 0 <= x < a.len() ==> #[trigger] a[x] ==> b[x],
    ensures
        unvisited(b) <= unvisited(a),
        0 <= y < a.len() && !a[y] && b[y] ==> unvisited(b) < unvisited(a),
    decreases a.len(),
{
    if a.len() > 0 {
        let (a1, b1) = (a.drop_last(), b.drop_last());
        assert forall|x: int| 0 <= x < a1.len() && #[trigger] a1[x] implies b1[x] by {
            assert(a1[x] == a[x] && b1[x] == b[x]);
        }
        lemma_unvisited_mono(a1, b1, y);
        assert(a.last() == a[a.len() - 1] && b.last() == b[b.len() - 1]);
    }
}


/// Where `x` stands in `v`.
fn position_in(v: &Vec<usize>, x: usize) -> (r: usize)
    requires
        v@.contains(x),
    ensures
        r < v@.len(),
        v@[r as int] == x,
{
    let mut i: usize = 0;
    while i < v.len()
        invariant
            v@.contains(x),
            i <= v@.len(),
            forall|k: int| 0 <= k < i ==> v@[k] != x,
        decreases v@.len() - i,
    {
        if v[i] == x {
            return i;
        }
        i = i + 1;
    }
    proof {
        let w = choose|w: int| 0 <= w < v@.len() && v@[w] == x;
        assert(v@[w] == x);
    }
    0
}

/// The part of `v` from `pos` on.
fn suffix_from(v: &Vec<usize>, pos: usize) -> (r: Vec<usize>)
    requires
        pos <= v@.len(),
    ensures
        r@ == v@.subrange(pos as int, v@.len() as int),
{
    let mut r: Vec<usize> = Vec::new();
    let mut i: usize = pos;
    while i < v.len()
        invariant
            pos <= i <= v@.len(),
            r@ == v@.subrange(pos as int, i as int),
        decreases v@.len() - i,
    {
        r.push(v[i]);
        assert(r@ =~= v@.subrange(pos as int, i as int + 1));
        i = i + 1;
    }
    r
}

/// Whether `a` and `b` hold the same indices in the same order.
fn same_list(a: &Vec<usize>, b: &Vec<usize>) -> (r: bool)
    ensures
        r == (a@ == b@),
{
    if a.len() != b.len() {
        return false;
    }
    let mut i: usize = 0;
    while i < a.len()
        invariant
            a@.len() == b@.len(),
            i <= a@.len(),
            forall|k: int| 0 <= k < i ==> a@[k] == b@[k],
        decreases a@.len() - i,
    {
        if a[i] != b[i] {
            return false;
        }
        i = i + 1;
    }
    assert(a@ =~= b@);
    true
}

/// Whether `lists` holds `c`.
fn contains_list(lists: &Vec<Vec<usize>>, c: &Vec<usize>) -> (r: bool)
    ensures
        r == lists_of(lists@).contains(c@),
{
    let mut i: usize = 0;
    while i < lists.len()
        invariant
            i <= lists@.len(),
            forall|k: int| 0 <= k < i ==> lists@[k]@ != c@,
        decreases lists@.len() - i,
    {
        if same_list(&lists[i], c) {
            assert(lists_of(lists@)[i as int] == c@);
            return true;
        }
        i = i + 1;
    }
    assert(!lists_of(lists@).contains(c@)) by {
        if lists_of(lists@).contains(c@) {
            let w = choose|w: int| 0 <= w < lists@.len() && #[trigger] lists_of(lists@)[w] == c@;
            assert(lists@[w]@ == c@);
        }
    }
    false
}

/// The names of the nodes `c`.
pub open spec fn names_at(names: Seq<Seq<char>>, c: Seq<usize>) -> Seq<Seq<char>> {
    c.map_values(|i: usize| names[i as int])
}

proof fn lemma_cycle_names(names: Seq<Seq<char>>, adj: Seq<Seq<usize>>, c: Seq<usize>)
    requires
        graph_wf(names, adj),
        is_idx_cycle(adj, c),
    ensures
        is_cycle(edge_set(names, adj), names_at(names, c)),
{
    let m = names_at(names, c);
    assert forall|x: int, y: int| 0 <= x < m.len() && 0 <= y < m.len() && x != y implies m[x] != m[y] by {
        assert(c[x] != c[y]);
    }
    assert forall|k: int| 0 <= k < m.len() implies edge_set(names, adj).contains((m[k], #[trigger] next_in(m, k))) by {
        let a = c[k] as int;
        let b = next_in(c, k);
        assert(idx_edge(adj, a, b as int));
        let w = choose|w: int| 0 <= w < adj[a].len() && adj[a][w] == b;
        assert(next_in(m, k) == names[b as int]);
        assert(names[adj[a][w] as int] == names[b as int]);
        assert(has_edge(names, adj, m[k], next_in(m, k)));
    }
}

proof fn lemma_names_injective(names: Seq<Seq<char>>, c1: Seq<usize>, c2: Seq<usize>)
    requires
        names.no_duplicates(),
        forall|k: int| 0 <= k < c1.len() ==> #[trigger] c1[k] < names.len(),
        forall|k: int| 0 <= k < c2.len() ==> #[trigger] c2[k] < names.len(),
        names_at(names, c1) == names_at(names, c2),
    ensures
        c1 == c2,
{
    assert(names_at(names, c1).len() == c1.len());
    assert forall|k: int| 0 <= k < c1.len() implies c1[k] == c2[k] by {
        assert(names_at(names, c1)[k] == names_at(names, c2)[k]);
    }
    assert(c1 =~= c2);
}

/// One line of the DOT text: the edge from `a` to `b`.
pub open spec fn edge_line(a: Seq<char>, b: Seq<char>) -> Seq<char> {
    "  \""@ + a + "\" -> \""@ + b + "\";\n"@
}

/// The DOT lines of the edges from `a` to the nodes `row`.
pub open spec fn row_lines(names: Seq<Seq<char>>, a: Seq<char>, row: Seq<usize>) -> Seq<char>
    decreases row.len(),
{
    if row.len() == 0 {
        seq![]
    } else {
        row_lines(names, a, row.drop_last()) + edge_line(a, names[row.last() as int])
    }
}

/// The DOT lines of the edges of the first `m` nodes.
pub open spec fn graph_lines(names: Seq<Seq<char>>, adj: Seq<Seq<usize>>, m: int) -> Seq<char>
    decreases m,
{
    if m <= 0 {
        seq![]
    } else {
        graph_lines(names, adj, m - 1) + row_lines(names, names[m - 1], adj[m - 1])
    }
}

/// The DOT rendering of a graph: a fixed header, one line per edge, node
/// by node in order of first mention, and a closing brace.
pub open spec fn dot_text(names: Seq<Seq<char>>, adj: Seq<Seq<usize>>) -> Seq<char> {
    "digraph Dependencies {\n"@ + "  rankdir=LR;\n"@ + "  node [shape=box, style=rounded];\n\n"@
        + graph_lines(names, adj, names.len() as int) + "}\n"@
}


proof fn lemma_path_push(adj: Seq<Seq<usize>>, p0: Seq<usize>, s0: Seq<bool>, v0: Seq<bool>, node: usize)
    requires
        path_ok(adj, p0, s0, v0),
        node < adj.len(),
        !v0[node as int],
        p0.len() > 0 ==> idx_edge(adj, p0.last() as int, node as int),
    ensures
        path_ok(adj, p0.push(node), s0.update(node as int, true), v0.update(node as int, true)),
{
    let p = p0.push(node);
    let st = s0.update(node as int, true);
    assert(!s0[node as int]);
    assert(!p0.contains(node));
    assert forall|x: int, y: int| 0 <= x < p.len() && 0 <= y < p.len() && x != y implies p[x] != p[y] by {
        if x == p0.len() {
            assert(p0[y] == p[y]);
        } else if y == p0.len() {
            assert(p0[x] == p[x]);
        } else {
            assert(p0[x] == p[x] && p0[y] == p[y]);
        }
    }
    assert forall|k: int| 0 <= k < p.len() - 1 implies idx_edge(adj, #[trigger] p[k] as int, p[k + 1] as int) by {
        if k < p0.len() - 1 {
            assert(p[k] == p0[k] && p[k + 1] == p0[k + 1]);
        } else {
            assert(p[k] == p0.last());
        }
    }
    assert forall|x: int| 0 <= x < adj.len() implies (#[trigger] st[x] <==> p.contains(x as usize)) by {
        lemma_seq_contains_after_push(p0, node, x as usize);
        if x != node as int {
            assert(st[x] == s0[x]);
            assert(s0[x] <==> p0.contains(x as usize));
        }
    }
}

proof fn lemma_path_cycle(
    adj: Seq<Seq<usize>>,
    p: Seq<usize>,
    st: Seq<bool>,
    v: Seq<bool>,
    pos: int,
    nb: usize,
)
    requires
        path_ok(adj, p, st, v),
        0 <= pos < p.len(),
        p[pos] == nb,
        idx_edge(adj, p.last() as int, nb as int),
    ensures
        is_idx_cycle(adj, p.subrange(pos, p.len() as int)),
{
    let c = p.subrange(pos, p.len() as int);
    assert forall|x: int, y: int| 0 <= x < c.len() && 0 <= y < c.len() && x != y implies c[x] != c[y] by {
        assert(c[x] == p[pos + x] && c[y] == p[pos + y]);
    }
    assert forall|t: int| 0 <= t < c.len() implies #[trigger] c[t] < adj.len() by {
        assert(c[t] == p[pos + t]);
    }
    assert forall|t: int| 0 <= t < c.len() implies idx_edge(adj, c[t] as int, #[trigger] next_in(c, t) as int) by {
        assert(c[t] == p[pos + t]);
        if t + 1 < c.len() {
            assert(c[t + 1] == p[pos + t + 1]);
        } else {
            assert(p[pos + t] == p.last());
            assert(c[0] == nb);
        }
    }
}

/// Adds `cycle` to `cycles` unless it is there already.
fn record_cycle(cycles: &mut Vec<Vec<usize>>, cycle: Vec<usize>, adj: Ghost<Seq<Seq<usize>>>)
    requires
        cycles_ok(adj@, lists_of(old(cycles)@)),
        is_idx_cycle(adj@, cycle@),
    ensures
        cycles_ok(adj@, lists_of(final(cycles)@)),
        final(cycles)@.len() > 0,
        final(cycles)@.len() >= old(cycles)@.len(),
{
    if !contains_list(cycles, &cycle) {
        let ghost before = lists_of(cycles@);
        let ghost c = cycle@;
        cycles.push(cycle);
        proof {
            let after = lists_of(cycles@);
            assert(after =~= before.push(c));
            assert forall|a: int| 0 <= a < after.len() implies is_idx_cycle(adj@, #[trigger] after[a]) by {
                if a < before.len() {
                    assert(after[a] == before[a]);
                }
            }
            assert forall|a: int, b: int| 0 <= a < after.len() && 0 <= b < after.len() && a != b implies after[a]
                != after[b] by {
                if a == before.len() {
                    assert(after[b] == before[b]);
                } else if b == before.len() {
                    assert(after[a] == before[a]);
                } else {
                    assert(after[a] == before[a] && after[b] == before[b]);
                }
            }
        }
    }
}


/// Whether node `u` is finished: visited and off the stack.
pub open spec fn finished(on_stack: Seq<bool>, visited: Seq<bool>, u: int) -> bool {
    visited[u] && !on_stack[u]
}

/// Finished nodes carry ranks below `clock`, and every edge from a
/// finished node leads to a finished node of smaller rank.
pub open spec fn ranked(adj: Seq<Seq<usize>>, on_stack: Seq<bool>, visited: Seq<bool>, rank: Seq<int>, clock: int) -> bool {
    &&& rank.len() == adj.len()
    &&& clock >= 0
    &&& forall|u: int| 0 <= u < adj.len() && #[trigger] finished(on_stack, visited, u) ==> 0 <= rank[u] < clock
    &&& forall|u: int, k: int|
        0 <= u < adj.len() && finished(on_stack, visited, u) && 0 <= k < adj[u].len() ==> finished(
            on_stack,
            visited,
            #[trigger] adj[u][k] as int,
        ) && rank[adj[u][k] as int] < rank[u]
}

/// Whether the dependency pairs `edges` form a cycle.
pub open spec fn has_cycle(edges: Set<(Seq<char>, Seq<char>)>) -> bool {
    exists|c: Seq<Seq<char>>| is_cycle(edges, c)
}

proof fn lemma_ranked_acyclic(names: Seq<Seq<char>>, adj: Seq<Seq<usize>>, on_stack: Seq<bool>, visited: Seq<bool>, rank: Seq<int>, clock: int)
    requires
        graph_wf(names, adj),
        ranked(adj, on_stack, visited, rank, clock),
        forall|u: int| 0 <= u < adj.len() ==> #[trigger] finished(on_stack, visited, u),
    ensures
        !has_cycle(edge_set(names, adj)),
{
    let edges = edge_set(names, adj);
    if has_cycle(edges) {
        let c = choose|c: Seq<Seq<char>>| is_cycle(edges, c);
        let idx = |x: Seq<char>| choose|i: int| 0 <= i < names.len() && names[i] == x;
        let r = |x: Seq<char>| rank[idx(x)];
        assert forall|a: Seq<char>, b: Seq<char>| #[trigger] edges.contains((a, b)) implies r(b) < r(a) by {
            let (i, k) = choose|i: int, k: int|
                0 <= i < adj.len() && 0 <= k < adj[i].len() && names[i] == a && names[#[trigger] adj[i][k] as int] == b;
            let j = adj[i][k] as int;
            assert(names[idx(a)] == a && 0 <= idx(a) < names.len());
            assert(names[idx(b)] == b && 0 <= idx(b) < names.len());
            assert(idx(a) == i);
            assert(idx(b) == j);
            assert(finished(on_stack, visited, i));
        }
        let n = c.len() as int;
        assert forall|k: int| 0 <= k < n - 1 implies r(#[trigger] c[k + 1]) < r(c[k]) by {
            assert(next_in(c, k) == c[k + 1]);
        }
        assert(r(c[0]) < r(c[n - 1])) by {
            assert(next_in(c, n - 1) == c[0]);
        }
        lemma_descending(c, r, n - 1);
    }
}

proof fn lemma_descending(c: Seq<Seq<char>>, r: spec_fn(Seq<char>) -> int, k: int)
    requires
        0 <= k < c.len(),
        forall|j: int| 0 <= j < c.len() - 1 ==> r(#[trigger] c[j + 1]) < r(c[j]),
    ensures
        r(c[k]) <= r(c[0]) - k,
    decreases k,
{
    if k > 0 {
        lemma_descending(c, r, k - 1);
        let j = k - 1;
        assert(r(c[j + 1]) < r(c[j]));
    }
}

/// Dependencies between types: which type depends on which.
pub struct DependencyGraph {
    names: Vec<String>,
    deps: Vec<Vec<usize>>,
}

impl DependencyGraph {
    /// The types, in order of first mention.
    pub closed spec fn node_names(&self) -> Seq<Seq<char>> {
        views_of(self.names@)
    }

    /// For each type, the indices of the types it depends on, in the order
    /// the dependencies were added.
    pub closed spec fn adjacency(&self) -> Seq<Seq<usize>> {
        lists_of(self.deps@)
    }

    /// Internal consistency of the graph.
    pub open spec fn wf(&self) -> bool {
        graph_wf(self.node_names(), self.adjacency())
    }

    /// The dependency pairs.
    pub open spec fn edges(&self) -> Set<(Seq<char>, Seq<char>)> {
        edge_set(self.node_names(), self.adjacency())
    }

    /// A graph with no type.
    pub fn new() -> (r: Self)
        ensures
            r.wf(),
            r.node_names() == Seq::<Seq<char>>::empty(),
            r.edges() == Set::<(Seq<char>, Seq<char>)>::empty(),
    {
        let r = DependencyGraph { names: Vec::new(), deps: Vec::new() };
        assert(r.node_names() =~= Seq::<Seq<char>>::empty());
        assert(r.adjacency() =~= Seq::<Seq<usize>>::empty());
        assert(r.edges() =~= Set::<(Seq<char>, Seq<char>)>::empty());
        r
    }

    /// The index of type `name`, adding it when it is new.
    fn node_index(&mut self, name: &String) -> (r: usize)
        requires
            old(self).wf(),
        ensures
            final(self).wf(),
            r < final(self).node_names().len(),
            final(self).node_names()[r as int] == name@,
            final(self).node_names() == if old(self).node_names().contains(name@) {
                old(self).node_names()
            } else {
                old(self).node_names().push(name@)
            },
            final(self).adjacency() == if old(self).node_names().contains(name@) {
                old(self).adjacency()
            } else {
                old(self).adjacency().push(Seq::<usize>::empty())
            },
    {
        let ghost names0 = self.node_names();
        let mut i: usize = 0;
        while i < self.names.len()
            invariant
                names0 == self.node_names(),
                self.wf(),
                i <= self.names@.len(),
                forall|k: int| 0 <= k < i ==> (#[trigger] self.names@[k])@ != name@,
            decreases self.names@.len() - i,
        {
            if same_text(self.names[i].as_str(), name.as_str()) {
                assert(names0[i as int] == name@);
                return i;
            }
            i = i + 1;
        }
        assert(!names0.contains(name@)) by {
            if names0.contains(name@) {
                let w = choose|w: int| 0 <= w < names0.len() && names0[w] == name@;
                assert(self.names@[w]@ == name@);
            }
        }
        let ghost adj0 = self.adjacency();
        self.names.push(name.clone());
        self.deps.push(Vec::new());
        assert(self.node_names() =~= names0.push(name@));
        assert(self.adjacency() =~= adj0.push(Seq::<usize>::empty()));
        assert(self.wf()) by {
            let adj = self.adjacency();
            assert forall|a: int| 0 <= a < adj.len() implies (#[trigger] adj[a]).no_duplicates() by {
                if a < adj0.len() {
                    assert(adj[a] == adj0[a]);
                }
            }
            assert forall|a: int, k: int| 0 <= a < adj.len() && 0 <= k < adj[a].len() implies (
            #[trigger] adj[a][k]) < self.node_names().len() by {
                assert(adj[a] == adj0[a]);
            }
        }
        self.names.len() - 1
    }

    /// Records that `from_type` depends on `to_type`.
    pub fn add_dependency(&mut self, from_type: String, to_type: String)
        requires
            old(self).wf(),
        ensures
            final(self).wf(),
            final(self).edges() == old(self).edges().insert((from_type@, to_type@)),
            final(self).node_names() == {
                let a = if old(self).node_names().contains(from_type@) {
                    old(self).node_names()
                } else {
                    old(self).node_names().push(from_type@)
                };
                if a.contains(to_type@) {
                    a
                } else {
                    a.push(to_type@)
                }
            },
    {
        let ghost e0 = self.edges();
        let ghost adj0 = self.adjacency();
        let ghost n0 = self.node_names();
        let i = self.node_index(&from_type);
        proof {
            self.lemma_edges_grow(n0, adj0);
        }
        let ghost e1 = self.edges();
        let ghost adj1 = self.adjacency();
        let ghost n1 = self.node_names();
        let j = self.node_index(&to_type);
        proof {
            self.lemma_edges_grow(n1, adj1);
        }
        assert(self.edges() == e0);
        let ghost adj2 = self.adjacency();
        let ghost n2 = self.node_names();
        let mut present = false;
        let mut k: usize = 0;
        while k < self.deps[i].len()
            invariant
                adj2 == self.adjacency(),
                i < adj2.len(),
                self.deps@.len() == adj2.len(),
                k <= adj2[i as int].len(),
                present == adj2[i as int].subrange(0, k as int).contains(j),
            decreases adj2[i as int].len() - k,
        {
            assert(self.deps@[i as int]@ == adj2[i as int]);
            assert(adj2[i as int].subrange(0, k as int + 1) =~= adj2[i as int].subrange(0, k as int).push(
                adj2[i as int][k as int],
            ));
            proof {
                lemma_seq_contains_after_push(
                    adj2[i as int].subrange(0, k as int),
                    adj2[i as int][k as int],
                    j,
                );
            }
            if self.deps[i][k] == j {
                present = true;
            }
            k = k + 1;
        }
        assert(adj2[i as int].subrange(0, k as int) =~= adj2[i as int]);
        if !present {
            let mut row = self.deps[i].clone();
            let ghost old_row = adj2[i as int];
            assert(row@ =~= old_row);
            row.push(j);
            self.deps.set(i, row);
            assert(self.adjacency() =~= adj2.update(i as int, old_row.push(j)));
            proof {
                self.lemma_edge_added(n2, adj2, i as int, j);
            }
        } else {
            assert(e0.contains((from_type@, to_type@))) by {
                let w = choose|w: int| 0 <= w < adj2[i as int].len() && adj2[i as int][w] == j;
                assert(n2[i as int] == from_type@ && n2[adj2[i as int][w] as int] == to_type@);
            }
            assert(self.edges() =~= e0.insert((from_type@, to_type@)));
        }
    }

    /// The cycles of the graph: a depth-first search from each node not yet
    /// visited, in order of first mention; when an edge reaches a node on the
    /// current path, the path from that node on is a cycle, recorded unless
    /// already recorded.
    pub fn detect_cycles(&self) -> (r: Vec<Vec<String>>)
        requires
            self.wf(),
        ensures
            forall|c: int| 0 <= c < r@.len() ==> is_cycle(self.edges(), #[trigger] views_of(r@[c]@)),
            forall|a: int, b: int|
                0 <= a < r@.len() && 0 <= b < r@.len() && a != b ==> views_of(#[trigger] r@[a]@)
                    != views_of(#[trigger] r@[b]@),
            r@.len() == 0 <==> !has_cycle(self.edges()),
    {
        let ghost adj = self.adjacency();
        let n = self.names.len();
        let mut visited: Vec<bool> = Vec::new();
        let mut on_stack: Vec<bool> = Vec::new();
        let mut t: usize = 0;
        while t < n
            invariant
                t <= n,
                visited@ == Seq::new(t as nat, |x: int| false),
                on_stack@ == Seq::new(t as nat, |x: int| false),
            decreases n - t,
        {
            visited.push(false);
            on_stack.push(false);
            assert(visited@ =~= Seq::new((t + 1) as nat, |x: int| false));
            assert(on_stack@ =~= Seq::new((t + 1) as nat, |x: int| false));
            t = t + 1;
        }
        let mut path: Vec<usize> = Vec::new();
        let mut cycles: Vec<Vec<usize>> = Vec::new();
        assert(lists_of(cycles@) =~= Seq::<Seq<usize>>::empty());
        let ghost mut rk = Seq::new(n as nat, |i: int| 0int);
        let ghost mut ck = 0int;
        let mut s: usize = 0;
        while s < n
            invariant
                self.wf(),
                adj == self.adjacency(),
                n == adj.len(),
                s <= n,
                path@ == Seq::<usize>::empty(),
                on_stack@ == Seq::new(n as nat, |x: int| false),
                path_ok(adj, path@, on_stack@, visited@),
                cycles_ok(adj, lists_of(cycles@)),
                cycles@.len() == 0 ==> ranked(adj, on_stack@, visited@, rk, ck),
                forall|x: int| 0 <= x < s ==> #[trigger] visited@[x],
            decreases n - s,
        {
            if !visited[s] {
                let ghost vb = visited@;
                let res = self.dfs_cycle_detect(
                    s,
                    &mut visited,
                    &mut on_stack,
                    &mut path,
                    &mut cycles,
                    Ghost(rk),
                    Ghost(ck),
                );
                proof {
                    rk = res@.0;
                    ck = res@.1;
                    assert forall|x: int| 0 <= x < s + 1 implies #[trigger] visited@[x] by {
                        if x < s {
                            assert(vb[x]);
                        }
                    }
                }
            }
            s = s + 1;
        }
        proof {
            if cycles@.len() == 0 {
                assert forall|u: int| 0 <= u < adj.len() implies #[trigger] finished(on_stack@, visited@, u) by {
                    assert(visited@[u]);
                }
                lemma_ranked_acyclic(self.node_names(), adj, on_stack@, visited@, rk, ck);
            }
        }
        let mut r: Vec<Vec<String>> = Vec::new();
        let mut c: usize = 0;
        while c < cycles.len()
            invariant
                self.wf(),
                adj == self.adjacency(),
                cycles_ok(adj, lists_of(cycles@)),
                c <= cycles@.len(),
                r@.len() == c,
                forall|k: int| 0 <= k < c ==> views_of(#[trigger] r@[k]@) == names_at(
                    self.node_names(),
                    cycles@[k]@,
                ),
            decreases cycles@.len() - c,
        {
            let idx = &cycles[c];
            assert(lists_of(cycles@)[c as int] == idx@);
            assert(is_idx_cycle(adj, idx@));
            let mut named: Vec<String> = Vec::new();
            let mut k: usize = 0;
            while k < idx.len()
                invariant
                    self.wf(),
                    adj == self.adjacency(),
                    is_idx_cycle(adj, idx@),
                    k <= idx@.len(),
                    views_of(named@) == names_at(self.node_names(), idx@.subrange(0, k as int)),
                decreases idx@.len() - k,
            {
                assert(idx@[k as int] < adj.len());
                let name = self.names[idx[k]].clone();
                let ghost before = named@;
                named.push(name);
                assert(views_of(named@) =~= views_of(before).push(name@));
                assert(names_at(self.node_names(), idx@.subrange(0, k as int + 1)) =~= names_at(
                    self.node_names(),
                    idx@.subrange(0, k as int),
                ).push(self.node_names()[idx@[k as int] as int]));
                k = k + 1;
            }
            assert(idx@.subrange(0, k as int) =~= idx@);
            r.push(named);
            c = c + 1;
        }
        proof {
            let names = self.node_names();
            if r@.len() > 0 {
                assert(lists_of(cycles@)[0] == cycles@[0]@);
                lemma_cycle_names(names, adj, cycles@[0]@);
                assert(is_cycle(self.edges(), views_of(r@[0]@)));
            }
            assert forall|a: int| 0 <= a < r@.len() implies is_cycle(self.edges(), #[trigger] views_of(r@[a]@)) by {
                assert(lists_of(cycles@)[a] == cycles@[a]@);
                lemma_cycle_names(names, adj, cycles@[a]@);
            }
            assert forall|a: int, b: int|
                0 <= a < r@.len() && 0 <= b < r@.len() && a != b implies views_of(#[trigger] r@[a]@)
                != views_of(#[trigger] r@[b]@) by {
                assert(lists_of(cycles@)[a] == cycles@[a]@);
                assert(lists_of(cycles@)[b] == cycles@[b]@);
                if views_of(r@[a]@) == views_of(r@[b]@) {
                    lemma_names_injective(names, cycles@[a]@, cycles@[b]@);
                }
            }
        }
        r
    }

    /// Depth-first search from `node`, which is not yet visited and extends
    /// the current path by one edge.
    fn dfs_cycle_detect(
        &self,
        node: usize,
        visited: &mut Vec<bool>,
        on_stack: &mut Vec<bool>,
        path: &mut Vec<usize>,
        cycles: &mut Vec<Vec<usize>>,
        rank: Ghost<Seq<int>>,
        clock: Ghost<int>,
    ) -> (out: Ghost<(Seq<int>, int)>)
        requires
            self.wf(),
            node < self.adjacency().len(),
            old(cycles)@.len() == 0 ==> ranked(
                self.adjacency(),
                old(on_stack)@,
                old(visited)@,
                rank@,
                clock@,
            ),
            !old(visited)@[node as int],
            path_ok(self.adjacency(), old(path)@, old(on_stack)@, old(visited)@),
            old(path)@.len() > 0 ==> idx_edge(
                self.adjacency(),
                old(path)@.last() as int,
                node as int,
            ),
            cycles_ok(self.adjacency(), lists_of(old(cycles)@)),
        ensures
            final(path)@ == old(path)@,
            final(on_stack)@ == old(on_stack)@,
            final(visited)@.len() == old(visited)@.len(),
            forall|x: int|
                0 <= x < old(visited)@.len() && #[trigger] old(visited)@[x] ==> final(visited)@[x],
            final(visited)@[node as int],
            path_ok(self.adjacency(), final(path)@, final(on_stack)@, final(visited)@),
            cycles_ok(self.adjacency(), lists_of(final(cycles)@)),
            final(cycles)@.len() >= old(cycles)@.len(),
            final(cycles)@.len() == 0 ==> ranked(
                self.adjacency(),
                final(on_stack)@,
                final(visited)@,
                out@.0,
                out@.1,
            ),
        decreases unvisited(old(visited)@), 0int,
    {
        let ghost adj = self.adjacency();
        let ghost v0 = visited@;
        let ghost p0 = path@;
        let ghost s0 = on_stack@;
        let ghost c0 = cycles@.len();
        let ghost mut rk = rank@;
        let ghost mut ck = clock@;
        visited.set(node, true);
        on_stack.set(node, true);
        path.push(node);
        proof {
            lemma_path_push(adj, p0, s0, v0, node);
            assert(!s0[node as int]);
            if c0 == 0 {
                assert forall|u: int| 0 <= u < adj.len() && #[trigger] finished(on_stack@, visited@, u) implies finished(s0, v0, u) by {
                    if u != node {
                        assert(on_stack@[u] == s0[u] && visited@[u] == v0[u]);
                    }
                }
                assert forall|u: int, k: int|
                    0 <= u < adj.len() && finished(on_stack@, visited@, u) && 0 <= k < adj[u].len() implies finished(
                    on_stack@,
                    visited@,
                    #[trigger] adj[u][k] as int,
                ) && rk[adj[u][k] as int] < rk[u] by {
                    assert(finished(s0, v0, u));
                    let v = adj[u][k] as int;
                    assert(finished(s0, v0, v));
                    assert(v != node);
                }
            }
        }
        let nd = self.deps[node].len();
        let mut k: usize = 0;
        while k < nd
            invariant
                self.wf(),
                adj == self.adjacency(),
                node < adj.len(),
                nd == adj[node as int].len(),
                path@ == p0.push(node),
                on_stack@ == s0.update(node as int, true),
                old(visited)@ == v0,
                visited@.len() == v0.len(),
                forall|x: int| 0 <= x < v0.len() && #[trigger] v0[x] ==> visited@[x],
                visited@[node as int],
                !v0[node as int],
                path_ok(adj, path@, on_stack@, visited@),
                cycles_ok(adj, lists_of(cycles@)),
                cycles@.len() >= c0,
                cycles@.len() == 0 ==> ranked(adj, on_stack@, visited@, rk, ck),
                cycles@.len() == 0 ==> forall|j: int|
                    0 <= j < k ==> finished(on_stack@, visited@, #[trigger] adj[node as int][j] as int),
            decreases nd - k,
        {
            let ghost vb = visited@;
            proof {
                lemma_unvisited_mono(v0, visited@, node as int);
                assert(path@.last() == node);
            }
            let res = self.visit_edge(node, k, visited, on_stack, path, cycles, Ghost(rk), Ghost(ck));
            proof {
                rk = res@.0;
                ck = res@.1;
            }
            assert forall|x: int| 0 <= x < v0.len() && #[trigger] v0[x] implies visited@[x] by {
                assert(vb[x]);
            }
            k = k + 1;
        }
        path.pop();
        let ghost sb = on_stack@;
        on_stack.set(node, false);
        assert(path@ =~= p0);
        assert(on_stack@ =~= s0);
        proof {
            if cycles@.len() == 0 {
                let rk2 = rk.update(node as int, ck);
                assert forall|u: int| 0 <= u < adj.len() && #[trigger] finished(on_stack@, visited@, u) implies 0 <= rk2[u] < ck + 1 by {
                    if u != node {
                        assert(finished(sb, visited@, u));
                    }
                }
                assert forall|u: int, j: int|
                    0 <= u < adj.len() && finished(on_stack@, visited@, u) && 0 <= j < adj[u].len() implies finished(
                    on_stack@,
                    visited@,
                    #[trigger] adj[u][j] as int,
                ) && rk2[adj[u][j] as int] < rk2[u] by {
                    let v = adj[u][j] as int;
                    if u == node {
                        assert(finished(sb, visited@, v));
                        assert(v != node);
                    } else {
                        assert(finished(sb, visited@, u));
                        assert(finished(sb, visited@, v));
                        assert(v != node);
                    }
                }
                rk = rk2;
                ck = ck + 1;
            }
        }
        Ghost((rk, ck))
    }

    /// Follows the `k`-th edge out of `node`, the last node of the current
    /// path: an unvisited target is searched from; a target on the path
    /// closes a cycle, which is recorded.
    fn visit_edge(
        &self,
        node: usize,
        k: usize,
        visited: &mut Vec<bool>,
        on_stack: &mut Vec<bool>,
        path: &mut Vec<usize>,
        cycles: &mut Vec<Vec<usize>>,
        rank: Ghost<Seq<int>>,
        clock: Ghost<int>,
    ) -> (out: Ghost<(Seq<int>, int)>)
        requires
            self.wf(),
            node < self.adjacency().len(),
            k < self.adjacency()[node as int].len(),
            old(path)@.len() > 0,
            old(path)@.last() == node,
            old(on_stack)@[node as int],
            path_ok(self.adjacency(), old(path)@, old(on_stack)@, old(visited)@),
            cycles_ok(self.adjacency(), lists_of(old(cycles)@)),
            old(cycles)@.len() == 0 ==> ranked(
                self.adjacency(),
                old(on_stack)@,
                old(visited)@,
                rank@,
                clock@,
            ),
            old(cycles)@.len() == 0 ==> forall|j: int|
                0 <= j < k ==> finished(
                    old(on_stack)@,
                    old(visited)@,
                    #[trigger] self.adjacency()[node as int][j] as int,
                ),
        ensures
            final(path)@ == old(path)@,
            final(on_stack)@ == old(on_stack)@,
            final(visited)@.len() == old(visited)@.len(),
            forall|x: int|
                0 <= x < old(visited)@.len() && #[trigger] old(visited)@[x] ==> final(visited)@[x],
            path_ok(self.adjacency(), final(path)@, final(on_stack)@, final(visited)@),
            cycles_ok(self.adjacency(), lists_of(final(cycles)@)),
            final(cycles)@.len() >= old(cycles)@.len(),
            final(cycles)@.len() == 0 ==> ranked(
                self.adjacency(),
                final(on_stack)@,
                final(visited)@,
                out@.0,
                out@.1,
            ),
            final(cycles)@.len() == 0 ==> forall|j: int|
                0 <= j <= k ==> finished(
                    final(on_stack)@,
                    final(visited)@,
                    #[trigger] self.adjacency()[node as int][j] as int,
                ),
        decreases unvisited(old(visited)@), 1int,
    {
        let ghost adj = self.adjacency();
        let ghost vb = visited@;
        assert(self.deps@[node as int]@ == adj[node as int]);
        let nb = self.deps[node][k];
        assert(idx_edge(adj, node as int, nb as int)) by {
            assert(adj[node as int][k as int] == nb);
        }
        if !visited[nb] {
            let res = self.dfs_cycle_detect(nb, visited, on_stack, path, cycles, rank, clock);
            proof {
                assert(!on_stack@[nb as int]) by {
                    assert(!vb[nb as int]);
                }
                if cycles@.len() == 0 {
                    assert forall|j: int| 0 <= j <= k implies finished(
                        on_stack@,
                        visited@,
                        #[trigger] adj[node as int][j] as int,
                    ) by {
                        let v = adj[node as int][j] as int;
                        if j < k {
                            assert(finished(on_stack@, vb, v));
                            assert(vb[v]);
                        }
                    }
                }
            }
            res
        } else if on_stack[nb] {
            let pos = position_in(path, nb);
            let cycle = suffix_from(path, pos);
            proof {
                lemma_path_cycle(adj, path@, on_stack@, visited@, pos as int, nb);
            }
            record_cycle(cycles, cycle, Ghost(adj));
            Ghost((rank@, clock@))
        } else {
            proof {
                if cycles@.len() == 0 {
                    assert forall|j: int| 0 <= j <= k implies finished(
                        on_stack@,
                        visited@,
                        #[trigger] adj[node as int][j] as int,
                    ) by {
                        if j == k {
                            assert(adj[node as int][j] == nb);
                        }
                    }
                }
            }
            Ghost((rank@, clock@))
        }
    }

    /// The graph in DOT form, for visualisation.
    pub fn to_dot(&self) -> (r: String)
        requires
            self.wf(),
        ensures
            r@ == dot_text(self.node_names(), self.adjacency()),
    {
        let ghost names = self.node_names();
        let ghost adj = self.adjacency();
        let mut dot = String::from_str("digraph Dependencies {\n");
        dot.append("  rankdir=LR;\n");
        dot.append("  node [shape=box, style=rounded];\n\n");
        let ghost head = dot@;
        let mut i: usize = 0;
        while i < self.names.len()
            invariant
                self.wf(),
                names == self.node_names(),
                adj == self.adjacency(),
                i <= names.len(),
                dot@ == head + graph_lines(names, adj, i as int),
            decreases names.len() - i,
        {
            let ghost start = dot@;
            let from = self.names[i].as_str();
            assert(self.deps@[i as int]@ == adj[i as int]);
            let mut k: usize = 0;
            while k < self.deps[i].len()
                invariant
                    self.wf(),
                    names == self.node_names(),
                    adj == self.adjacency(),
                    i < names.len(),
                    from@ == names[i as int],
                    self.deps@[i as int]@ == adj[i as int],
                    k <= adj[i as int].len(),
                    dot@ == start + row_lines(names, from@, adj[i as int].subrange(0, k as int)),
                decreases adj[i as int].len() - k,
            {
                let to = self.deps[i][k];
                assert(to < names.len());
                let ghost before = dot@;
                dot.append("  \"");
                dot.append(from);
                dot.append("\" -> \"");
                dot.append(self.names[to].as_str());
                dot.append("\";\n");
                assert(adj[i as int].subrange(0, k as int + 1).drop_last() =~= adj[i as int].subrange(
                    0,
                    k as int,
                ));
                assert(dot@ =~= before + edge_line(from@, names[to as int]));
                k = k + 1;
            }
            assert(adj[i as int].subrange(0, k as int) =~= adj[i as int]);
            assert(dot@ =~= head + graph_lines(names, adj, i as int + 1));
            i = i + 1;
        }
        dot.append("}\n");
        dot
    }

    proof fn lemma_edges_grow(&self, n0: Seq<Seq<char>>, adj0: Seq<Seq<usize>>)
        requires
            graph_wf(n0, adj0),
            self.wf(),
            self.node_names() == n0 || (self.node_names() == n0.push(self.node_names().last())
                && self.adjacency() == adj0.push(Seq::<usize>::empty())),
            self.node_names() == n0 ==> self.adjacency() == adj0,
        ensures
            self.edges() == edge_set(n0, adj0),
    {
        let (n1, adj1) = (self.node_names(), self.adjacency());
        assert forall|p: (Seq<char>, Seq<char>)| has_edge(n1, adj1, p.0, p.1) <==> has_edge(n0, adj0, p.0, p.1) by {
            if has_edge(n1, adj1, p.0, p.1) {
                let (i, k) = choose|i: int, k: int|
                    0 <= i < adj1.len() && 0 <= k < adj1[i].len() && n1[i] == p.0
                        && n1[#[trigger] adj1[i][k] as int] == p.1;
                if n1 != n0 {
                    assert(i < adj0.len());
                    assert(adj1[i] == adj0[i]);
                    assert(n1[i] == n0[i]);
                    assert(n1[adj1[i][k] as int] == n0[adj0[i][k] as int]);
                }
            }
            if has_edge(n0, adj0, p.0, p.1) {
                let (i, k) = choose|i: int, k: int|
                    0 <= i < adj0.len() && 0 <= k < adj0[i].len() && n0[i] == p.0
                        && n0[#[trigger] adj0[i][k] as int] == p.1;
                if n1 != n0 {
                    assert(adj1[i] == adj0[i]);
                    assert(n1[i] == n0[i]);
                    assert(n1[adj1[i][k] as int] == n0[adj0[i][k] as int]);
                }
            }
        }
        assert(self.edges() =~= edge_set(n0, adj0));
    }

    proof fn lemma_edge_added(&self, n: Seq<Seq<char>>, adj0: Seq<Seq<usize>>, i: int, j: usize)
        requires
            graph_wf(n, adj0),
            0 <= i < adj0.len(),
            j < n.len(),
            !adj0[i].contains(j),
            self.node_names() == n,
            self.adjacency() == adj0.update(i, adj0[i].push(j)),
        ensures
            self.wf(),
            self.edges() == edge_set(n, adj0).insert((n[i], n[j as int])),
    {
        let adj1 = self.adjacency();
        assert forall|a: int| 0 <= a < adj1.len() implies (#[trigger] adj1[a]).no_duplicates() by {
            if a != i {
                assert(adj1[a] == adj0[a]);
            } else {
                assert forall|x: int, y: int|
                    0 <= x < adj1[a].len() && 0 <= y < adj1[a].len() && x != y implies adj1[a][x]
                    != adj1[a][y] by {
                    if x == adj0[i].len() {
                        assert(adj0[i][y] == adj1[a][y]);
                    } else if y == adj0[i].len() {
                        assert(adj0[i][x] == adj1[a][x]);
                    }
                }
            }
        }
        assert forall|a: int, k: int| 0 <= a < adj1.len() && 0 <= k < adj1[a].len() implies (
        #[trigger] adj1[a][k]) < n.len() by {
            if a != i {
                assert(adj1[a] == adj0[a]);
            } else if k < adj0[i].len() {
                assert(adj1[a][k] == adj0[i][k]);
            }
        }
        assert forall|p: (Seq<char>, Seq<char>)| has_edge(n, adj1, p.0, p.1) <==> (has_edge(n, adj0, p.0, p.1) || p == (n[i], n[j as int])) by {
            if has_edge(n, adj1, p.0, p.1) {
                let (a, k) = choose|a: int, k: int|
                    0 <= a < adj1.len() && 0 <= k < adj1[a].len() && n[a] == p.0
                        && n[#[trigger] adj1[a][k] as int] == p.1;
                if a != i {
                    assert(adj1[a] == adj0[a]);
                } else if k < adj0[i].len() {
                    assert(adj1[a][k] == adj0[i][k]);
                }
            }
            if has_edge(n, adj0, p.0, p.1) {
                let (a, k) = choose|a: int, k: int|
                    0 <= a < adj0.len() && 0 <= k < adj0[a].len() && n[a] == p.0
                        && n[#[trigger] adj0[a][k] as int] == p.1;
                if a != i {
                    assert(adj1[a] == adj0[a]);
                } else {
                    assert(adj1[a][k] == adj0[i][k]);
                }
            }
            if p == (n[i], n[j as int]) {
                assert(adj1[i][adj0[i].len() as int] == j);
            }
        }
        assert(self.edges() =~= edge_set(n, adj0).insert((n[i], n[j as int])));
    }
}

} // verus!
