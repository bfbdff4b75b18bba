//! Directed graphs over the nodes `0 .. n`, given by adjacency lists, and
//! the search for cycles in them.

use vstd::prelude::*;

verus! {

/// The graph that adjacency lists stand for: node `i` has an edge to each
/// entry of `adj[i]`.
pub open spec fn graph_of(adj: Seq<Vec<usize>>) -> Seq<Seq<int>> {
    Seq::new(adj.len(), |i: int| Seq::new(adj[i]@.len(), |k: int| adj[i]@[k] as int))
}

/// Every edge of `g` ends at a node of `g`.
pub open spec fn edges_in_range(g: Seq<Seq<int>>) -> bool {
    forall|i: int, k: int|
        0 <= i < g.len() && 0 <= k < g[i].len() ==> 0 <= #[trigger] g[i][k] < g.len()
}

/// `g` has an edge from `a` to `b`.
pub open spec fn has_edge(g: Seq<Seq<int>>, a: int, b: int) -> bool {
    0 <= a < g.len() && g[a].contains(b)
}

/// `p` is a walk in `g`: a non-empty sequence of nodes, each joined to the
/// next by an edge.
pub open spec fn is_walk(g: Seq<Seq<int>>, p: Seq<int>) -> bool {
    &&& p.len() >= 1
    &&& 0 <= p[0] < g.len()
    &&& forall|k: int| 0 <= k < p.len() - 1 ==> has_edge(g, #[trigger] p[k], p[k + 1])
}

/// Node `v` lies on a cycle of `g`: some walk with at least one edge leaves
/// `v` and comes back to it. A node with an edge to itself is on a cycle.
pub open spec fn on_cycle(g: Seq<Seq<int>>, v: int) -> bool {
    exists|p: Seq<int>| #[trigger] is_walk(g, p) && p.len() >= 2 && p[0] == v && p.last() == v
}

/// No node of `g` lies on a cycle.
pub open spec fn acyclic(g: Seq<Seq<int>>) -> bool {
    forall|v: int| 0 <= v < g.len() ==> !on_cycle(g, v)
}

/// The set `s` of nodes is closed under edges: no edge leaves it.
pub open spec fn closed_under_edges(g: Seq<Seq<int>>, s: Set<int>) -> bool {
    forall|a: int, b: int| s.contains(a) && #[trigger] has_edge(g, a, b) ==> s.contains(b)
}

/// A walk that starts inside a set closed under edges never leaves it.
pub proof fn lemma_walk_stays_in_closed_set(g: Seq<Seq<int>>, s: Set<int>, p: Seq<int>, k: int)
    requires
        closed_under_edges(g, s),
        is_walk(g, p),
        s.contains(p[0]),
        0 <= k < p.len(),
    ensures
        s.contains(p[k]),
    decreases k,
{
    if k > 0 {
        lemma_walk_stays_in_closed_set(g, s, p, k - 1);
        assert(has_edge(g, p[k - 1], p[k - 1 + 1]));
    }
}

/// A node whose successors all lie in a set closed under edges, and which
/// is not in that set itself, is on no cycle.
pub proof fn lemma_sealed_node_is_on_no_cycle(g: Seq<Seq<int>>, s: Set<int>, v: int)
    requires
        closed_under_edges(g, s),
        !s.contains(v),
        forall|b: int| #[trigger] has_edge(g, v, b) ==> s.contains(b),
    ensures
        !on_cycle(g, v),
{
    if on_cycle(g, v) {
        let p = choose|p: Seq<int>| #[trigger]
            is_walk(g, p) && p.len() >= 2 && p[0] == v && p.last() == v;
        let q = p.subrange(1, p.len() as int);
        assert(has_edge(g, p[0], p[1]));
        assert forall|k: int| 0 <= k < q.len() - 1 implies has_edge(g, #[trigger] q[k], q[k + 1]) by {
            assert(has_edge(g, p[k + 1], p[k + 1 + 1]));
        }
        assert(0 <= q[0] < g.len()) by {
            if q.len() == 1 {
                assert(q[0] == v);
            } else {
                assert(has_edge(g, q[0], q[1]));
            }
        }
        assert(is_walk(g, q));
        lemma_walk_stays_in_closed_set(g, s, q, q.len() - 1);
        assert(q[q.len() - 1] == v);
    }
}

/// Node `v` has an edge to a node outside `s`.
pub open spec fn leads_outside(g: Seq<Seq<int>>, s: Set<int>, v: int) -> bool {
    exists|b: int| #[trigger] has_edge(g, v, b) && !s.contains(b)
}

/// The walk of `k` edges that starts at `v` and at each node follows an
/// edge to a node outside `s`.
spec fn descent(g: Seq<Seq<int>>, s: Set<int>, v: int, k: nat) -> Seq<int>
    decreases k,
{
    if k == 0 {
        seq![v]
    } else {
        let b = choose|b: int| #[trigger] has_edge(g, v, b) && !s.contains(b);
        seq![v] + descent(g, s, b, (k - 1) as nat)
    }
}

proof fn lemma_descent_is_walk(g: Seq<Seq<int>>, s: Set<int>, v: int, k: nat)
    requires
        edges_in_range(g),
        0 <= v < g.len(),
        !s.contains(v),
        forall|u: int| 0 <= u < g.len() && !s.contains(u) ==> #[trigger] leads_outside(g, s, u),
    ensures
        is_walk(g, descent(g, s, v, k)),
        descent(g, s, v, k).len() == k + 1,
        descent(g, s, v, k)[0] == v,
        forall|j: int| 0 <= j <= k ==> 0 <= #[trigger] descent(g, s, v, k)[j] < g.len(),
    decreases k,
{
    let p = descent(g, s, v, k);
    if k > 0 {
        assert(leads_outside(g, s, v));
        let b = choose|b: int| #[trigger] has_edge(g, v, b) && !s.contains(b);
        let i = choose|i: int| 0 <= i < g[v].len() && g[v][i] == b;
        assert(0 <= g[v][i] < g.len());
        let q = descent(g, s, b, (k - 1) as nat);
        lemma_descent_is_walk(g, s, b, (k - 1) as nat);
        assert(p =~= seq![v] + q);
        assert forall|j: int| 0 <= j < p.len() - 1 implies has_edge(g, #[trigger] p[j], p[j + 1]) by {
            if j > 0 {
                assert(has_edge(g, q[j - 1], q[j - 1 + 1]));
            }
        }
        assert forall|j: int| 0 <= j <= k implies 0 <= #[trigger] p[j] < g.len() by {
            if j > 0 {
                assert(p[j] == q[j - 1]);
            }
        }
    }
}

/// A walk that holds a node twice passes through a cycle.
pub proof fn lemma_repeated_node_is_on_cycle(g: Seq<Seq<int>>, p: Seq<int>, i: int, j: int)
    requires
        is_walk(g, p),
        0 <= i < j < p.len(),
        p[i] == p[j],
    ensures
        on_cycle(g, p[i]),
{
    let c = p.subrange(i, j + 1);
    assert forall|k: int| 0 <= k < c.len() - 1 implies has_edge(g, #[trigger] c[k], c[k + 1]) by {
        assert(has_edge(g, p[i + k], p[i + k + 1]));
    }
    assert(has_edge(g, p[i], p[i + 1]));
    assert(is_walk(g, c) && c.len() >= 2 && c[0] == p[i] && c.last() == p[i]);
}

/// In a graph without cycles, a set of nodes that does not hold every node
/// leaves out some node whose edges all lead into the set.
pub proof fn lemma_acyclic_has_free_node(g: Seq<Seq<int>>, s: Set<int>)
    requires
        edges_in_range(g),
        acyclic(g),
        exists|v: int| 0 <= v < g.len() && !s.contains(v),
    ensures
        exists|u: int| 0 <= u < g.len() && !s.contains(u) && !#[trigger] leads_outside(g, s, u),
{
    if forall|u: int| 0 <= u < g.len() && !s.contains(u) ==> #[trigger] leads_outside(g, s, u) {
        let n = g.len();
        let v = choose|v: int| 0 <= v < g.len() && !s.contains(v);
        let p = descent(g, s, v, n);
        lemma_descent_is_walk(g, s, v, n);
        if p.no_duplicates() {
            p.unique_seq_to_set();
            vstd::set_lib::lemma_int_range(0, n as int);
            assert(p.to_set().subset_of(vstd::set_lib::set_int_range(0, n as int))) by {
                assert forall|x: int| p.to_set().contains(x) implies vstd::set_lib::set_int_range(
                    0,
                    n as int,
                ).contains(x) by {
                    let j = choose|j: int| 0 <= j < p.len() && p[j] == x;
                    assert(0 <= p[j] < g.len());
                }
            }
            vstd::set_lib::lemma_len_subset(p.to_set(), vstd::set_lib::set_int_range(0, n as int));
            assert(false);
        } else {
            let (i, j) = choose|i: int, j: int|
                0 <= i < p.len() && 0 <= j < p.len() && i != j && p[i] == p[j];
            if i < j {
                lemma_repeated_node_is_on_cycle(g, p, i, j);
            } else {
                lemma_repeated_node_is_on_cycle(g, p, j, i);
            }
            assert(0 <= p[i] < g.len());
            assert(false);
        }
    }
}

/// Mark of a node that the search has not reached yet.
pub const UNSEEN: u8 = 0;

/// Mark of a node that the search has entered and not left yet.
pub const ACTIVE: u8 = 1;

/// Mark of a node that the search has left: all that it reaches was
/// searched.
pub const DONE: u8 = 2;

/// The nodes marked [`DONE`].
pub open spec fn done_set(color: Seq<u8>) -> Set<int> {
    Set::new(|i: int| 0 <= i < color.len() && color[i] == DONE)
}

/// How many nodes are still marked [`UNSEEN`].
pub open spec fn count_unseen(color: Seq<u8>) -> nat
    decreases color.len(),
{
    if color.len() == 0 {
        0
    } else {
        count_unseen(color.drop_last()) + if color.last() == UNSEEN {
            1nat
        } else {
            0nat
        }
    }
}

proof fn lemma_count_unseen_update(color: Seq<u8>, i: int, mark: u8)
    requires
        0 <= i < color.len(),
    ensures
        count_unseen(color.update(i, mark)) + (if color[i] == UNSEEN {
            1nat
        } else {
            0nat
        }) == count_unseen(color) + (if mark == UNSEEN {
            1nat
        } else {
            0nat
        }),
    decreases color.len(),
{
    let after = color.update(i, mark);
    if i == color.len() - 1 {
        assert(after.drop_last() =~= color.drop_last());
    } else {
        assert(after.drop_last() =~= color.drop_last().update(i, mark));
        lemma_count_unseen_update(color.drop_last(), i, mark);
    }
}

/// What holds of the marks while a search is under way. `path` lists the
/// nodes marked [`ACTIVE`], in the order in which the search entered them.
#[verifier::opaque]
pub closed spec fn search_inv(g: Seq<Seq<int>>, color: Seq<u8>, path: Seq<int>) -> bool {
    &&& color.len() == g.len()
    &&& forall|v: int| 0 <= v < g.len() ==> #[trigger] color[v] <= DONE
    &&& closed_under_edges(g, done_set(color))
    &&& forall|v: int| 0 <= v < g.len() && #[trigger] color[v] == DONE ==> !on_cycle(g, v)
    &&& forall|j: int|
        0 <= j < path.len() ==> 0 <= #[trigger] path[j] < g.len() && color[path[j]] == ACTIVE
    &&& forall|v: int| 0 <= v < g.len() && #[trigger] color[v] == ACTIVE ==> path.contains(v)
    &&& forall|j: int| 0 <= j < path.len() - 1 ==> has_edge(g, #[trigger] path[j], path[j + 1])
}

proof fn lemma_search_starts(g: Seq<Seq<int>>, color: Seq<u8>)
    requires
        color.len() == g.len(),
        forall|j: int| 0 <= j < color.len() ==> color[j] == UNSEEN,
    ensures
        search_inv(g, color, Seq::empty()),
{
    reveal(search_inv);
    assert(done_set(color) =~= Set::empty());
}

proof fn lemma_search_marks(g: Seq<Seq<int>>, color: Seq<u8>, path: Seq<int>)
    requires
        search_inv(g, color, path),
    ensures
        color.len() == g.len(),
        forall|v: int| 0 <= v < g.len() ==> #[trigger] color[v] <= DONE,
        path.len() == 0 ==> forall|v: int| 0 <= v < g.len() ==> #[trigger] color[v] != ACTIVE,
{
    reveal(search_inv);
    if path.len() == 0 {
        assert forall|v: int| 0 <= v < g.len() implies #[trigger] color[v] != ACTIVE by {
            if color[v] == ACTIVE {
                assert(path.contains(v));
            }
        }
    }
}

proof fn lemma_search_ends(g: Seq<Seq<int>>, color: Seq<u8>, path: Seq<int>)
    requires
        search_inv(g, color, path),
        forall|v: int| 0 <= v < g.len() ==> #[trigger] color[v] == DONE,
    ensures
        acyclic(g),
{
    reveal(search_inv);
    assert forall|v: int| 0 <= v < g.len() implies !on_cycle(g, v) by {
        assert(color[v] == DONE);
    }
}

proof fn lemma_search_enters(g: Seq<Seq<int>>, color: Seq<u8>, path: Seq<int>, v: int)
    requires
        color.len() == g.len(),
        search_inv(g, color, path),
        0 <= v < g.len(),
        color[v] == UNSEEN,
        path.len() > 0 ==> has_edge(g, path.last(), v),
    ensures
        search_inv(g, color.update(v, ACTIVE), path.push(v)),
{
    reveal(search_inv);
    let after = color.update(v, ACTIVE);
    let inner = path.push(v);
    assert(done_set(after) =~= done_set(color));
    assert forall|u: int| 0 <= u < g.len() && #[trigger] after[u] == ACTIVE implies inner.contains(
        u,
    ) by {
        if u == v {
            assert(inner[inner.len() - 1] == u);
        } else {
            assert(color[u] == ACTIVE);
            let j = choose|j: int| 0 <= j < path.len() && path[j] == u;
            assert(inner[j] == u);
        }
    }
    assert forall|j: int| 0 <= j < inner.len() - 1 implies has_edge(
        g,
        #[trigger] inner[j],
        inner[j + 1],
    ) by {
        if j < path.len() - 1 {
            assert(has_edge(g, path[j], path[j + 1]));
        }
    }
    assert forall|j: int| 0 <= j < inner.len() implies 0 <= #[trigger] inner[j] < g.len()
        && after[inner[j]] == ACTIVE by {
        if j < path.len() {
            assert(inner[j] == path[j]);
        }
    }
    assert forall|u: int| 0 <= u < g.len() && #[trigger] after[u] == DONE implies !on_cycle(g, u) by {
        assert(color[u] == DONE);
    }
}

proof fn lemma_search_meets_active(g: Seq<Seq<int>>, color: Seq<u8>, path: Seq<int>, u: int)
    requires
        color.len() == g.len(),
        search_inv(g, color, path),
        path.len() > 0,
        has_edge(g, path.last(), u),
        0 <= u < g.len(),
        color[u] == ACTIVE,
    ensures
        on_cycle(g, u),
{
    reveal(search_inv);
    let j = choose|j: int| 0 <= j < path.len() && path[j] == u;
    let p = path.subrange(j, path.len() as int).push(u);
    assert forall|i: int| 0 <= i < p.len() - 1 implies has_edge(g, #[trigger] p[i], p[i + 1]) by {
        if i < p.len() - 2 {
            assert(has_edge(g, path[j + i], path[j + i + 1]));
        }
    }
    assert(is_walk(g, p) && p.len() >= 2 && p[0] == u && p.last() == u);
}

proof fn lemma_search_leaves(g: Seq<Seq<int>>, color: Seq<u8>, path: Seq<int>, v: int)
    requires
        color.len() == g.len(),
        search_inv(g, color, path.push(v)),
        0 <= v < g.len(),
        color[v] == ACTIVE,
        forall|b: int| #[trigger] has_edge(g, v, b) ==> 0 <= b < g.len() && color[b] == DONE,
    ensures
        search_inv(g, color.update(v, DONE), path),
{
    reveal(search_inv);
    let after = color.update(v, DONE);
    let inner = path.push(v);
    assert forall|b: int| has_edge(g, v, b) implies done_set(color).contains(b) by {}
    lemma_sealed_node_is_on_no_cycle(g, done_set(color), v);
    assert(done_set(after) =~= done_set(color).insert(v));
    assert forall|j: int| 0 <= j < path.len() implies 0 <= #[trigger] path[j] < g.len()
        && after[path[j]] == ACTIVE by {
        assert(inner[j] == path[j]);
        assert(path[j] != v) by {
            if path[j] == v {
                if j < path.len() - 1 {
                    assert(has_edge(g, inner[j], inner[j + 1]));
                } else {
                    assert(has_edge(g, inner[j], inner[j + 1]));
                }
            }
        }
    }
    assert forall|u: int| 0 <= u < g.len() && #[trigger] after[u] == ACTIVE implies path.contains(
        u,
    ) by {
        assert(color[u] == ACTIVE);
        let j = choose|j: int| 0 <= j < inner.len() && inner[j] == u;
        assert(path[j] == u);
    }
    assert forall|j: int| 0 <= j < path.len() - 1 implies has_edge(
        g,
        #[trigger] path[j],
        path[j + 1],
    ) by {
        assert(has_edge(g, inner[j], inner[j + 1]));
    }
    assert forall|u: int| 0 <= u < g.len() && #[trigger] after[u] == DONE implies !on_cycle(g, u) by {
        if u != v {
            assert(color[u] == DONE);
        }
    }
    assert forall|u: int| 0 <= u < g.len() implies #[trigger] after[u] <= DONE by {
        assert(color[u] <= DONE);
    }
}

/// Node `b` is reached from node `a`: some walk leads from `a` to `b`. A
/// node reaches itself.
pub open spec fn reaches_node(g: Seq<Seq<int>>, a: int, b: int) -> bool {
    exists|p: Seq<int>| #[trigger] is_walk(g, p) && p[0] == a && p.last() == b
}

/// A node reaches itself.
pub proof fn lemma_reaches_itself(g: Seq<Seq<int>>, a: int)
    requires
        0 <= a < g.len(),
    ensures
        reaches_node(g, a, a),
{
    let p = seq![a];
    assert(is_walk(g, p) && p[0] == a && p.last() == a);
}

/// What a successor reaches, the node reaches.
pub proof fn lemma_reaches_by_edge(g: Seq<Seq<int>>, a: int, b: int, c: int)
    requires
        has_edge(g, a, b),
        reaches_node(g, b, c),
    ensures
        reaches_node(g, a, c),
{
    let p = choose|p: Seq<int>| #[trigger] is_walk(g, p) && p[0] == b && p.last() == c;
    let q = seq![a] + p;
    assert forall|k: int| 0 <= k < q.len() - 1 implies has_edge(g, #[trigger] q[k], q[k + 1]) by {
        if k > 0 {
            assert(has_edge(g, p[k - 1], p[k - 1 + 1]));
        }
    }
    assert(is_walk(g, q) && q[0] == a && q.last() == c);
}

/// What is reached from a node that is done is done.
proof fn lemma_search_done_reaches(
    g: Seq<Seq<int>>,
    color: Seq<u8>,
    path: Seq<int>,
    v: int,
    u: int,
)
    requires
        color.len() == g.len(),
        search_inv(g, color, path),
        0 <= v < g.len(),
        color[v] == DONE,
        reaches_node(g, v, u),
    ensures
        0 <= u < g.len(),
        color[u] == DONE,
{
    reveal(search_inv);
    let p = choose|p: Seq<int>| #[trigger] is_walk(g, p) && p[0] == v && p.last() == u;
    lemma_walk_stays_in_closed_set(g, done_set(color), p, p.len() - 1);
}

proof fn lemma_count_unseen_bound(color: Seq<u8>)
    ensures
        count_unseen(color) <= color.len(),
    decreases color.len(),
{
    if color.len() > 0 {
        lemma_count_unseen_bound(color.drop_last());
    }
}

/// What the search from node `v` comes to, for given marks: the node met
/// again, if one is, and the marks that the search leaves.
///
/// A node that is active is met again. A node that is done is passed over.
/// A node that is unseen is marked active; its edges are followed in their
/// order, by [`scan_outcome`]; and where no node is met again it is marked
/// done. `fuel` bounds how deep the search goes; the number of unseen nodes
/// is enough.
pub open spec fn visit_outcome(g: Seq<Seq<int>>, color: Seq<u8>, v: int, fuel: nat) -> (
    Option<int>,
    Seq<u8>,
)
    decreases fuel, 0nat,
{
    if color[v] == ACTIVE {
        (Some(v), color)
    } else if color[v] != UNSEEN || fuel == 0 {
        (None, color)
    } else {
        let inner = scan_outcome(g, color.update(v, ACTIVE), v, 0, (fuel - 1) as nat);
        if inner.0 is Some {
            inner
        } else {
            (None, inner.1.update(v, DONE))
        }
    }
}

/// What following the edges of node `v` from edge `k` on comes to: the
/// search goes from the end of each edge in turn, and stops where a node
/// is met again.
pub open spec fn scan_outcome(g: Seq<Seq<int>>, color: Seq<u8>, v: int, k: int, fuel: nat) -> (
    Option<int>,
    Seq<u8>,
)
    decreases fuel, (g[v].len() - k + 1) as nat,
{
    if k < 0 || k >= g[v].len() {
        (None, color)
    } else {
        let first = visit_outcome(g, color, g[v][k], fuel);
        if first.0 is Some {
            first
        } else {
            scan_outcome(g, first.1, v, k + 1, fuel)
        }
    }
}

/// What the search from each of the nodes `i`, `i + 1`, and so on comes
/// to: the first node met again, if one is.
pub open spec fn search_outcome(g: Seq<Seq<int>>, color: Seq<u8>, i: int) -> Option<int>
    decreases g.len() - i,
{
    if i < 0 || i >= g.len() {
        None
    } else {
        let first = visit_outcome(g, color, i, g.len());
        if first.0 is Some {
            first.0
        } else {
            search_outcome(g, first.1, i + 1)
        }
    }
}

/// The node that a depth-first search of `g` meets again while the node
/// is active, if there is one: the search enters the nodes in their order,
/// follows the edges of each node in their order, and stops at the first
/// such node.
pub open spec fn first_met_again(g: Seq<Seq<int>>) -> Option<int> {
    search_outcome(g, Seq::new(g.len(), |i: int| UNSEEN), 0)
}

/// Searches from node `v`, depth first, as [`visit_outcome`] says.
///
/// A node that is active is met again: it is returned, and it lies on a
/// cycle. A node that is done is passed over. Where the search of an
/// unseen node meets no node again, the active nodes are those that were
/// active before, no mark of a seen node has changed, and the nodes that
/// are no longer unseen are those that were seen before and those that `v`
/// reaches.
fn visit(
    adj: &Vec<Vec<usize>>,
    v: usize,
    color: &mut Vec<u8>,
    Ghost(path): Ghost<Seq<int>>,
    Ghost(fuel): Ghost<nat>,
) -> (r: Option<usize>)
    requires
        edges_in_range(graph_of(adj@)),
        v < adj.len(),
        old(color)@.len() == adj.len(),
        search_inv(graph_of(adj@), old(color)@, path),
        path.len() > 0 ==> has_edge(graph_of(adj@), path.last(), v as int),
        fuel >= count_unseen(old(color)@),
    ensures
        final(color)@.len() == adj.len(),
        final(color)@ == visit_outcome(graph_of(adj@), old(color)@, v as int, fuel).1,
        r matches Some(u) ==> visit_outcome(graph_of(adj@), old(color)@, v as int, fuel).0 == Some(
            u as int,
        ),
        r is None ==> visit_outcome(graph_of(adj@), old(color)@, v as int, fuel).0 is None,
        count_unseen(final(color)@) <= count_unseen(old(color)@),
        old(color)@[v as int] == ACTIVE ==> r == Some(v) && final(color)@ == old(color)@,
        old(color)@[v as int] == DONE ==> r is None && final(color)@ == old(color)@,
        r matches Some(u) ==> {
            &&& u < adj.len()
            &&& final(color)@[u as int] == ACTIVE
            &&& on_cycle(graph_of(adj@), u as int)
        },
        r is None ==> {
            &&& search_inv(graph_of(adj@), final(color)@, path)
            &&& final(color)@[v as int] == DONE
            &&& forall|u: int|
                0 <= u < adj.len() ==> (#[trigger] final(color)@[u] == ACTIVE <==> old(color)@[u]
                    == ACTIVE)
            &&& forall|u: int|
                0 <= u < adj.len() && old(color)@[u] != UNSEEN ==> #[trigger] final(color)@[u]
                    == old(color)@[u]
            &&& forall|u: int|
                0 <= u < adj.len() ==> (#[trigger] final(color)@[u] != UNSEEN <==> old(color)@[u]
                    != UNSEEN || reaches_node(graph_of(adj@), v as int, u))
        },
    decreases count_unseen(old(color)@),
{
    let ghost g = graph_of(adj@);
    proof {
        lemma_search_marks(g, color@, path);
    }
    if color[v] == ACTIVE {
        proof {
            lemma_search_meets_active(g, color@, path, v as int);
        }
        return Some(v);
    }
    if color[v] != UNSEEN {
        proof {
            assert forall|u: int| 0 <= u < adj.len() implies (#[trigger] color@[u] != UNSEEN
                <==> color@[u] != UNSEEN || reaches_node(g, v as int, u)) by {
                if reaches_node(g, v as int, u) {
                    lemma_search_done_reaches(g, color@, path, v as int, u);
                }
            }
        }
        return None;
    }
    let ghost inner = path.push(v as int);
    proof {
        lemma_count_unseen_update(color@, v as int, ACTIVE);
        lemma_search_enters(g, color@, path, v as int);
        lemma_reaches_itself(g, v as int);
    }
    color.set(v, ACTIVE);
    let ghost entered = color@;
    let ghost rest = (fuel - 1) as nat;
    let mut k: usize = 0;
    while k < adj[v].len()
        invariant
            g == graph_of(adj@),
            inner == path.push(v as int),
            edges_in_range(g),
            v < adj.len(),
            k <= adj[v as int]@.len(),
            color@.len() == adj.len(),
            search_inv(g, color@, inner),
            old(color)@.len() == adj.len(),
            old(color)@[v as int] == UNSEEN,
            color@[v as int] == ACTIVE,
            entered == old(color)@.update(v as int, ACTIVE),
            fuel >= 1,
            rest == fuel - 1,
            rest >= count_unseen(color@),
            count_unseen(color@) < count_unseen(old(color)@),
            scan_outcome(g, entered, v as int, 0, rest) == scan_outcome(
                g,
                color@,
                v as int,
                k as int,
                rest,
            ),
            forall|j: int| 0 <= j < k ==> color@[#[trigger] g[v as int][j]] == DONE,
            forall|u: int|
                0 <= u < adj.len() && old(color)@[u] != UNSEEN ==> #[trigger] color@[u] == old(
                    color,
                )@[u],
            forall|u: int|
                0 <= u < adj.len() ==> (#[trigger] color@[u] == ACTIVE <==> old(color)@[u]
                    == ACTIVE || u == v),
            forall|u: int|
                0 <= u < adj.len() && #[trigger] color@[u] != old(color)@[u] ==> reaches_node(
                    g,
                    v as int,
                    u,
                ),
        decreases adj[v as int]@.len() - k,
    {
        let u = adj[v][k];
        let ghost before = color@;
        assert(g[v as int][k as int] == u);
        assert(has_edge(g, v as int, u as int));
        assert(inner.last() == v);
        match visit(adj, u, color, Ghost(inner), Ghost(rest)) {
            Some(x) => {
                return Some(x);
            },
            None => {
                proof {
                    assert forall|j: int| 0 <= j < k implies color@[#[trigger] g[v as int][j]]
                        == DONE by {
                        assert(before[g[v as int][j]] == DONE);
                    }
                    assert forall|x: int|
                        0 <= x < adj.len() && #[trigger] color@[x] != old(color)@[x] implies reaches_node(
                        g,
                        v as int,
                        x,
                    ) by {
                        if before[x] == old(color)@[x] {
                            assert(before[x] == UNSEEN);
                            assert(reaches_node(g, u as int, x));
                            lemma_reaches_by_edge(g, v as int, u as int, x);
                        }
                    }
                }
            },
        }
        k += 1;
    }
    proof {
        lemma_count_unseen_update(color@, v as int, DONE);
        assert forall|b: int| has_edge(g, v as int, b) implies 0 <= b < g.len() && color@[b]
            == DONE by {
            let i = choose|i: int| 0 <= i < g[v as int].len() && g[v as int][i] == b;
            assert(color@[g[v as int][i]] == DONE);
        }
        lemma_search_leaves(g, color@, path, v as int);
    }
    color.set(v, DONE);
    proof {
        assert forall|u: int| 0 <= u < adj.len() implies (#[trigger] color@[u] != UNSEEN <==> old(
            color,
        )@[u] != UNSEEN || reaches_node(g, v as int, u)) by {
            if reaches_node(g, v as int, u) {
                lemma_search_done_reaches(g, color@, path, v as int, u);
            }
        }
    }
    None
}

/// Looks for a cycle by a depth-first search that marks each node as
/// unseen, active or done, entering the nodes in index order.
///
/// Returns `None` exactly when the graph has no cycle. Otherwise it returns
/// a node that lies on a cycle: the first node that the search meets again
/// while it is still active, as [`first_met_again`] says.
pub fn find_cycle(adj: &Vec<Vec<usize>>) -> (r: Option<usize>)
    requires
        edges_in_range(graph_of(adj@)),
    ensures
        r is None <==> acyclic(graph_of(adj@)),
        r matches Some(v) ==> v < adj.len() && on_cycle(graph_of(adj@), v as int),
        r matches Some(v) ==> first_met_again(graph_of(adj@)) == Some(v as int),
        r is None ==> first_met_again(graph_of(adj@)) is None,
{
    let ghost g = graph_of(adj@);
    let n = adj.len();
    let mut color: Vec<u8> = Vec::new();
    let mut i: usize = 0;
    while i < n
        invariant
            i <= n,
            color@.len() == i,
            forall|j: int| 0 <= j < i ==> color@[j] == UNSEEN,
        decreases n - i,
    {
        color.push(UNSEEN);
        i += 1;
    }
    proof {
        lemma_search_starts(g, color@);
        assert(color@ =~= Seq::new(g.len(), |i: int| UNSEEN));
    }
    let mut i: usize = 0;
    while i < n
        invariant
            g == graph_of(adj@),
            n == adj.len(),
            i <= n,
            color@.len() == n,
            edges_in_range(g),
            search_inv(g, color@, Seq::empty()),
            first_met_again(g) == search_outcome(g, color@, i as int),
            forall|j: int| 0 <= j < i ==> color@[j] == DONE,
        decreases n - i,
    {
        let ghost before = color@;
        proof {
            lemma_count_unseen_bound(color@);
        }
        match visit(adj, i, &mut color, Ghost(Seq::empty()), Ghost(n as nat)) {
            Some(v) => {
                return Some(v);
            },
            None => {
                assert forall|j: int| 0 <= j < i implies color@[j] == DONE by {
                    assert(before[j] == DONE);
                }
            },
        }
        i += 1;
    }
    proof {
        lemma_search_ends(g, color@, Seq::empty());
    }
    None
}

/// `rev` lists, for each node, the nodes with an edge to it: the edges of
/// `g` turned round.
pub open spec fn dependents_match(g: Seq<Seq<int>>, rev: Seq<Seq<int>>) -> bool {
    &&& rev.len() == g.len()
    &&& forall|t: int, m: int|
        0 <= t < rev.len() && 0 <= m < rev[t].len() ==> has_edge(g, #[trigger] rev[t][m], t)
    &&& forall|i: int, k: int|
        0 <= i < g.len() && 0 <= k < g[i].len() ==> 0 <= #[trigger] g[i][k] < g.len()
            && rev[g[i][k]].contains(i)
}

/// The nodes among the first `upto` that have no edge, in order.
pub open spec fn sources(g: Seq<Seq<int>>, upto: int) -> Seq<usize>
    decreases upto,
{
    if upto <= 0 {
        Seq::empty()
    } else {
        let before = sources(g, upto - 1);
        if g[upto - 1].len() == 0 {
            before.push((upto - 1) as usize)
        } else {
            before
        }
    }
}

/// The sources are exactly the nodes without an edge, each listed once.
pub proof fn lemma_sources(g: Seq<Seq<int>>, upto: int)
    requires
        0 <= upto <= g.len() <= usize::MAX,
    ensures
        sources(g, upto).no_duplicates(),
        forall|k: int|
            0 <= k < sources(g, upto).len() ==> (#[trigger] sources(g, upto)[k]) < upto && g[sources(
                g,
                upto,
            )[k] as int].len() == 0,
        forall|i: int| 0 <= i < upto && g[i].len() == 0 ==> sources(g, upto).contains(i as usize),
    decreases upto,
{
    if upto > 0 {
        let before = sources(g, upto - 1);
        let now = sources(g, upto);
        lemma_sources(g, upto - 1);
        assert forall|i: int| 0 <= i < upto && g[i].len() == 0 implies now.contains(i as usize) by {
            if i < upto - 1 {
                let k = choose|k: int| 0 <= k < before.len() && before[k] == i as usize;
                assert(now[k] == i as usize);
            } else {
                assert(now[now.len() - 1] == i as usize);
            }
        }
    }
}

/// Node `i` is an entry of `list`.
pub open spec fn listed(list: Seq<usize>, i: int) -> bool {
    exists|m: int| 0 <= m < list.len() && #[trigger] list[m] as int == i
}

/// Node `i`, once for each of the first `upto` entries of `row` that is
/// `t`.
pub open spec fn hits_in_row(row: Seq<int>, i: usize, t: int, upto: int) -> Seq<usize>
    decreases upto,
{
    if upto <= 0 {
        Seq::empty()
    } else {
        let before = hits_in_row(row, i, t, upto - 1);
        if row[upto - 1] == t {
            before.push(i)
        } else {
            before
        }
    }
}

/// The nodes among the first `upto` that have an edge to node `t`, in
/// order, each as often as it has such an edge.
pub open spec fn dependents_listed(g: Seq<Seq<int>>, t: int, upto: int) -> Seq<usize>
    decreases upto,
{
    if upto <= 0 {
        Seq::empty()
    } else {
        dependents_listed(g, t, upto - 1) + hits_in_row(
            g[upto - 1],
            (upto - 1) as usize,
            t,
            g[upto - 1].len() as int,
        )
    }
}

proof fn lemma_hits_in_row(row: Seq<int>, i: usize, t: int, upto: int)
    requires
        0 <= upto <= row.len(),
    ensures
        forall|m: int|
            0 <= m < hits_in_row(row, i, t, upto).len() ==> #[trigger] hits_in_row(row, i, t, upto)[m]
                == i,
        hits_in_row(row, i, t, upto).len() > 0 <==> exists|k: int|
            0 <= k < upto && #[trigger] row[k] == t,
    decreases upto,
{
    if upto > 0 {
        lemma_hits_in_row(row, i, t, upto - 1);
        if row[upto - 1] != t && hits_in_row(row, i, t, upto).len() > 0 {
            let k = choose|k: int| 0 <= k < upto - 1 && #[trigger] row[k] == t;
            assert(row[k] == t);
        }
    }
}

/// The dependents listed for node `t` are the nodes with an edge to `t`.
pub proof fn lemma_dependents_listed(g: Seq<Seq<int>>, t: int, upto: int)
    requires
        0 <= upto <= g.len() <= usize::MAX,
    ensures
        forall|m: int|
            0 <= m < dependents_listed(g, t, upto).len() ==> (#[trigger] dependents_listed(
                g,
                t,
                upto,
            )[m]) < upto && has_edge(g, dependents_listed(g, t, upto)[m] as int, t),
        forall|i: int|
            0 <= i < upto && has_edge(g, i, t) ==> listed(dependents_listed(g, t, upto), i),
    decreases upto,
{
    if upto > 0 {
        let before = dependents_listed(g, t, upto - 1);
        let row = g[upto - 1];
        let hits = hits_in_row(row, (upto - 1) as usize, t, row.len() as int);
        let now = dependents_listed(g, t, upto);
        lemma_dependents_listed(g, t, upto - 1);
        lemma_hits_in_row(row, (upto - 1) as usize, t, row.len() as int);
        assert forall|m: int| 0 <= m < now.len() implies (#[trigger] now[m]) < upto && has_edge(
            g,
            now[m] as int,
            t,
        ) by {
            if m < before.len() {
                assert(now[m] == before[m]);
            } else {
                assert(now[m] == hits[m - before.len()]);
                let k = choose|k: int| 0 <= k < row.len() && #[trigger] row[k] == t;
                assert(row.contains(t));
            }
        }
        assert forall|i: int| 0 <= i < upto && has_edge(g, i, t) implies listed(now, i) by {
            if i < upto - 1 {
                assert(listed(before, i));
                let m = choose|m: int| 0 <= m < before.len() && #[trigger] before[m] as int == i;
                assert(now[m] as int == i);
            } else {
                let k = choose|k: int| 0 <= k < row.len() && row[k] == t;
                assert(row[k] == t);
                assert(hits.len() > 0);
                assert(now[before.len() as int] == hits[0]);
            }
        }
    }
}

/// Turns the adjacency lists round: for each node, the nodes with an edge
/// to it, in order, each as often as it has such an edge.
pub fn dependents_of(adj: &Vec<Vec<usize>>) -> (dependents: Vec<Vec<usize>>)
    requires
        edges_in_range(graph_of(adj@)),
    ensures
        dependents@.len() == adj@.len(),
        forall|t: int|
            0 <= t < dependents@.len() ==> (#[trigger] dependents@[t])@ == dependents_listed(
                graph_of(adj@),
                t,
                adj@.len() as int,
            ),
        dependents_match(graph_of(adj@), graph_of(dependents@)),
{
    let ghost g = graph_of(adj@);
    let n = adj.len();
    let mut dependents: Vec<Vec<usize>> = Vec::new();
    let mut i: usize = 0;
    while i < n
        invariant
            i <= n,
            dependents@.len() == i,
            forall|t: int| 0 <= t < i ==> (#[trigger] dependents@[t])@ == Seq::<usize>::empty(),
        decreases n - i,
    {
        dependents.push(Vec::new());
        i += 1;
    }
    let mut i: usize = 0;
    while i < n
        invariant
            i <= n,
            n == adj@.len(),
            g == graph_of(adj@),
            edges_in_range(g),
            dependents@.len() == n,
            forall|t: int|
                0 <= t < n ==> (#[trigger] dependents@[t])@ == dependents_listed(g, t, i as int),
        decreases n - i,
    {
        let ghost row = g[i as int];
        let mut k: usize = 0;
        proof {
            assert forall|t: int| 0 <= t < n implies (#[trigger] dependents@[t])@
                == dependents_listed(g, t, i as int) + hits_in_row(row, i, t, 0) by {
                assert(dependents@[t]@ =~= dependents_listed(g, t, i as int) + hits_in_row(
                    row,
                    i,
                    t,
                    0,
                ));
            }
        }
        while k < adj[i].len()
            invariant
                i < n,
                n == adj@.len(),
                g == graph_of(adj@),
                row == g[i as int],
                edges_in_range(g),
                dependents@.len() == n,
                k <= adj@[i as int]@.len(),
                forall|t: int|
                    0 <= t < n ==> (#[trigger] dependents@[t])@ == dependents_listed(
                        g,
                        t,
                        i as int,
                    ) + hits_in_row(row, i, t, k as int),
            decreases adj@[i as int]@.len() - k,
        {
            let target = adj[i][k];
            assert(row[k as int] == target);
            assert(0 <= g[i as int][k as int] < g.len());
            let ghost before = dependents@;
            dependents[target].push(i);
            proof {
                assert forall|t: int| 0 <= t < n implies (#[trigger] dependents@[t])@
                    == dependents_listed(g, t, i as int) + hits_in_row(row, i, t, k + 1) by {
                    assert(before[t]@ == dependents_listed(g, t, i as int) + hits_in_row(
                        row,
                        i,
                        t,
                        k as int,
                    ));
                    assert(dependents@[t]@ =~= dependents_listed(g, t, i as int) + hits_in_row(
                        row,
                        i,
                        t,
                        k + 1,
                    ));
                }
            }
            k += 1;
        }
        i += 1;
    }
    proof {
        let rev = graph_of(dependents@);
        assert forall|a: int, k: int| 0 <= a < g.len() && 0 <= k < g[a].len() implies 0
            <= #[trigger] g[a][k] < g.len() && rev[g[a][k]].contains(a) by {
            let t = g[a][k];
            lemma_dependents_listed(g, t, n as int);
            assert(has_edge(g, a, t));
            assert(listed(dependents@[t]@, a));
            let m = choose|m: int|
                0 <= m < dependents@[t]@.len() && #[trigger] dependents@[t]@[m] as int == a;
            assert(rev[t][m] == a);
        }
        assert forall|t: int, m: int| 0 <= t < rev.len() && 0 <= m < rev[t].len() implies has_edge(
            g,
            #[trigger] rev[t][m],
            t,
        ) by {
            lemma_dependents_listed(g, t, n as int);
            assert(rev[t][m] == dependents@[t]@[m] as int);
        }
    }
    dependents
}

} // verus!
