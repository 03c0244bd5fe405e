//! Layer assignment: longest-path layering for acyclic graphs, breadth-first
//! layering from the source nodes for graphs with a cycle.

use vstd::prelude::*;
use crate::graph::{
    edges_in_range, graph_add_edge, graph_add_node, graph_edges, graph_incoming, graph_new,
    graph_node_count, graph_outgoing, graph_toposort, indices_view, is_acyclic,
    is_topological_order, neighbors_of,
};

verus! {

/// The edge list of the caller, as pairs of mathematical integers.
pub open spec fn edge_view(edges: Seq<(usize, usize)>) -> Seq<(int, int)> {
    edges.map_values(|e: (usize, usize)| (e.0 as int, e.1 as int))
}

/// There is an edge `u -> v`.
pub open spec fn has_edge(edges: Seq<(int, int)>, u: int, v: int) -> bool {
    edges.contains((u, v))
}

/// Some edge leads into `v`.
pub open spec fn has_incoming(edges: Seq<(int, int)>, v: int) -> bool {
    exists|u: int| #[trigger] has_edge(edges, u, v)
}

/// The layer of `v` is zero if nothing leads into it, and otherwise one more
/// than the greatest layer among its direct predecessors.
pub open spec fn layered_by_predecessors(layers: Seq<usize>, edges: Seq<(int, int)>, v: int) -> bool {
    if has_incoming(edges, v) {
        &&& exists|u: int|
            0 <= u < layers.len() && #[trigger] has_edge(edges, u, v) && layers[u] + 1 == layers[v]
        &&& forall|u: int|
            0 <= u < layers.len() && #[trigger] has_edge(edges, u, v) ==> layers[u] < layers[v]
    } else {
        layers[v] == 0
    }
}

/// Every node is layered by its predecessors. On an acyclic graph exactly one
/// layering has this property: each node's layer is the length of the longest
/// path that ends in it.
pub open spec fn is_longest_path_layering(layers: Seq<usize>, edges: Seq<(int, int)>) -> bool {
    forall|v: int| 0 <= v < layers.len() ==> #[trigger] layered_by_predecessors(layers, edges, v)
}

/// A neighbor list holds exactly the other ends of the edges at `v`.
pub proof fn lemma_neighbors_contains(edges: Seq<(int, int)>, v: int, incoming: bool, u: int)
    ensures
        neighbors_of(edges, v, incoming).contains(u) <==> (if incoming {
            has_edge(edges, u, v)
        } else {
            has_edge(edges, v, u)
        }),
    decreases edges.len(),
{
    if edges.len() > 0 {
        let e = edges.last();
        let pre = edges.drop_last();
        lemma_neighbors_contains(pre, v, incoming, u);
        let rest = neighbors_of(pre, v, incoming);
        let target = if incoming { (u, v) } else { (v, u) };
        assert(edges.contains(target) <==> (pre.contains(target) || e == target)) by {
            if pre.contains(target) {
                let i = choose|i: int| 0 <= i < pre.len() && pre[i] == target;
                assert(edges[i] == target);
            }
            if e == target {
                assert(edges[edges.len() - 1] == target);
            }
            if edges.contains(target) {
                let i = choose|i: int| 0 <= i < edges.len() && edges[i] == target;
                if i < pre.len() {
                    assert(pre[i] == target);
                }
            }
        }
        let hit = if incoming { e.1 == v } else { e.0 == v };
        let x = if incoming { e.0 } else { e.1 };
        if hit {
            let full = seq![x] + rest;
            assert(neighbors_of(edges, v, incoming) == full);
            assert(full.contains(u) <==> (x == u || rest.contains(u))) by {
                if x == u {
                    assert(full[0] == u);
                }
                if rest.contains(u) {
                    let i = choose|i: int| 0 <= i < rest.len() && rest[i] == u;
                    assert(full[i + 1] == u);
                }
                if full.contains(u) {
                    let i = choose|i: int| 0 <= i < full.len() && full[i] == u;
                    if i > 0 {
                        assert(rest[i - 1] == u);
                    }
                }
            }
        }
    }
}

/// A vector of `n` zeros.
fn zeros(n: usize) -> (v: Vec<usize>)
    ensures
        v.len() == n,
        forall|i: int| 0 <= i < n ==> v[i] == 0,
{
    let mut v: Vec<usize> = Vec::new();
    let mut i: usize = 0;
    while i < n
        invariant
            i <= n,
            v.len() == i,
            forall|j: int| 0 <= j < i ==> v[j] == 0,
        decreases n - i,
    {
        v.push(0);
        i += 1;
    }
    v
}

/// Builds the graph with nodes `0..n` and the given edges, in their order.
pub fn build_graph(n: usize, edges: &Vec<(usize, usize)>) -> (g: petgraph::graph::Graph<
    (),
    (),
    petgraph::Directed,
    u32,
>)
    requires
        n <= u32::MAX,
        edges.len() <= u32::MAX,
        edges_in_range(n as int, edge_view(edges@)),
    ensures
        graph_node_count(g) == n,
        graph_edges(g) == edge_view(edges@),
{
    let mut g = graph_new();
    let mut i: usize = 0;
    while i < n
        invariant
            i <= n <= u32::MAX,
            graph_node_count(g) == i,
            graph_edges(g) == Seq::<(int, int)>::empty(),
        decreases n - i,
    {
        let _ = graph_add_node(&mut g);
        i += 1;
    }
    let mut k: usize = 0;
    while k < edges.len()
        invariant
            k <= edges.len() <= u32::MAX,
            n <= u32::MAX,
            graph_node_count(g) == n,
            edges_in_range(n as int, edge_view(edges@)),
            graph_edges(g) == edge_view(edges@.take(k as int)),
        decreases edges.len() - k,
    {
        let a = edges[k].0;
        let b = edges[k].1;
        proof {
            assert(edge_view(edges@)[k as int] == (a as int, b as int));
            assert(edge_view(edges@.take(k as int + 1)) =~= edge_view(edges@.take(k as int)).push(
                (a as int, b as int),
            ));
        }
        graph_add_edge(&mut g, a, b);
        k += 1;
    }
    proof {
        assert(edges@.take(edges.len() as int) =~= edges@);
    }
    g
}

/// In a topological order the source of an edge stands before its target.
pub proof fn lemma_edge_position(
    ord: Seq<int>,
    n: int,
    edges: Seq<(int, int)>,
    u: int,
    v: int,
    k: int,
) -> (j: int)
    requires
        is_topological_order(ord, n, edges),
        edges_in_range(n, edges),
        has_edge(edges, u, v),
        0 <= k < n,
        ord[k] == v,
    ensures
        0 <= j < k,
        ord[j] == u,
        0 <= u < n,
{
    let e = choose|e: int| 0 <= e < edges.len() && edges[e] == (u, v);
    assert(0 <= edges[e].0 < n);
    assert(ord.contains(u));
    let j = choose|j: int| 0 <= j < ord.len() && ord[j] == u;
    assert(edges.contains((ord[j], ord[k])));
    j
}

/// Longest-path layering along a topological order: each node is placed one
/// layer below its deepest predecessor, and a node without predecessors in
/// layer zero.
pub fn layers_by_longest_path(
    g: &petgraph::graph::Graph<(), (), petgraph::Directed, u32>,
    order: &Vec<usize>,
) -> (layers: Vec<usize>)
    requires
        graph_node_count(*g) <= u32::MAX,
        edges_in_range(graph_node_count(*g) as int, graph_edges(*g)),
        is_topological_order(indices_view(order@), graph_node_count(*g) as int, graph_edges(*g)),
    ensures
        layers.len() == graph_node_count(*g),
        is_longest_path_layering(layers@, graph_edges(*g)),
        forall|v: int| 0 <= v < layers.len() ==> #[trigger] layers[v] < layers.len(),
{
    let n = order.len();
    let ghost edges = graph_edges(*g);
    let ghost ord = indices_view(order@);
    let mut layers = zeros(n);
    let mut k: usize = 0;
    while k < n
        invariant
            k <= n,
            n == order.len(),
            n == graph_node_count(*g),
            n <= u32::MAX,
            layers.len() == n,
            edges == graph_edges(*g),
            ord == indices_view(order@),
            edges_in_range(n as int, edges),
            is_topological_order(ord, n as int, edges),
            forall|j: int| 0 <= j < k ==> #[trigger] layered_by_predecessors(layers@, edges, ord[j]),
            forall|j: int| 0 <= j < k ==> layers[#[trigger] ord[j]] <= j,
            forall|j: int| k <= j < n ==> layers[#[trigger] ord[j]] == 0,
        decreases n - k,
    {
        let v = order[k];
        assert(ord[k as int] == v);
        let preds = graph_incoming(g, v);
        let ghost pv = indices_view(preds@);
        let mut best: usize = 0;
        let mut i: usize = 0;
        while i < preds.len()
            invariant
                i <= preds.len(),
                k < n,
                layers.len() == n,
                n == order.len(),
                pv == indices_view(preds@),
                pv == neighbors_of(edges, v as int, true),
                ord == indices_view(order@),
                edges_in_range(n as int, edges),
                is_topological_order(ord, n as int, edges),
                ord[k as int] == v,
                forall|j: int| 0 <= j < k ==> layers[#[trigger] ord[j]] <= j,
                forall|t: int| 0 <= t < i ==> layers[#[trigger] pv[t]] <= best,
                i > 0 ==> exists|t: int| 0 <= t < i && layers[#[trigger] pv[t]] == best,
                i == 0 ==> best == 0,
                i > 0 ==> best < k,
            decreases preds.len() - i,
        {
            let p = preds[i];
            proof {
                assert(pv[i as int] == p);
                assert(pv.contains(p as int));
                lemma_neighbors_contains(edges, v as int, true, p as int);
                let jp = lemma_edge_position(ord, n as int, edges, p as int, v as int, k as int);
                assert(layers[ord[jp]] <= jp);
            }
            let ghost prev = best;
            if layers[p] > best {
                best = layers[p];
            }
            proof {
                if best == prev && i > 0 {
                    let t = choose|t: int| 0 <= t < i && layers[#[trigger] pv[t]] == prev;
                    assert(layers[pv[t]] == best);
                } else {
                    assert(layers[pv[i as int]] == best);
                }
            }
            i += 1;
        }
        let layer: usize = if preds.len() > 0 { best + 1 } else { 0 };
        let ghost old_layers = layers@;
        layers.set(v, layer);
        proof {
            assert forall|j: int| 0 <= j < k + 1 implies #[trigger] layered_by_predecessors(
                layers@,
                edges,
                ord[j],
            ) by {
                let w = ord[j];
                assert forall|u: int| has_edge(edges, u, w) implies 0 <= u < n && u != v
                    && layers@[u] == old_layers[u] by {
                    let ju = lemma_edge_position(ord, n as int, edges, u, w, j);
                    assert(ord[ju] != ord[k as int]);
                }
                if j < k {
                    assert(ord[j] != ord[k as int]);
                    assert(layered_by_predecessors(old_layers, edges, w));
                    if has_incoming(edges, w) {
                        let u0 = choose|u: int|
                            0 <= u < n && #[trigger] has_edge(edges, u, w) && old_layers[u] + 1
                                == old_layers[w];
                        assert(has_edge(edges, u0, w) && layers@[u0] + 1 == layers@[w]);
                    }
                } else {
                    if preds.len() > 0 {
                        let t = choose|t: int| 0 <= t < preds.len() && old_layers[#[trigger] pv[t]] == best;
                        let u0 = pv[t];
                        assert(pv.contains(u0));
                        lemma_neighbors_contains(edges, v as int, true, u0);
                        assert(has_edge(edges, u0, v as int) && layers@[u0] + 1 == layers@[v as int]);
                        assert forall|u: int|
                            0 <= u < n && #[trigger] has_edge(edges, u, v as int) implies layers@[u]
                            < layers@[v as int] by {
                            lemma_neighbors_contains(edges, v as int, true, u);
                            let t2 = choose|t2: int| 0 <= t2 < pv.len() && pv[t2] == u;
                            assert(old_layers[pv[t2]] <= best);
                        }
                    } else {
                        if has_incoming(edges, v as int) {
                            let u = choose|u: int| #[trigger] has_edge(edges, u, v as int);
                            lemma_neighbors_contains(edges, v as int, true, u);
                            let t = choose|t: int| 0 <= t < pv.len() && pv[t] == u;
                            assert(false);
                        }
                    }
                }
            }
            assert forall|j: int| 0 <= j < k + 1 implies layers[#[trigger] ord[j]] <= j by {
                if j < k {
                    assert(ord[j] != ord[k as int]);
                }
            }
            assert forall|j: int| k + 1 <= j < n implies layers[#[trigger] ord[j]] == 0 by {
                assert(ord[j] != ord[k as int]);
            }
        }
        k += 1;
    }
    proof {
        assert forall|v: int| 0 <= v < layers.len() implies #[trigger] layered_by_predecessors(
            layers@,
            edges,
            v,
        ) by {
            assert(ord.contains(v));
            let j = choose|j: int| 0 <= j < ord.len() && ord[j] == v;
            assert(layered_by_predecessors(layers@, edges, ord[j]));
        }
        assert forall|v: int| 0 <= v < layers.len() implies #[trigger] layers[v] < layers.len() by {
            assert(ord.contains(v));
            let j = choose|j: int| 0 <= j < ord.len() && ord[j] == v;
            assert(layers[ord[j]] <= j);
        }
    }
    layers
}

/// The nodes from which the breadth-first layering starts: every node that
/// nothing leads into, or node zero when there is no such node.
pub open spec fn is_seed(n: int, edges: Seq<(int, int)>, v: int) -> bool {
    if exists|r: int| 0 <= r < n && !#[trigger] has_incoming(edges, r) {
        !has_incoming(edges, v)
    } else {
        v == 0
    }
}

/// In a breadth-first layering the nodes that the traversal reached are the
/// seeds and the nodes of a positive layer.
pub open spec fn is_reached(layers: Seq<usize>, edges: Seq<(int, int)>, v: int) -> bool {
    is_seed(layers.len() as int, edges, v) || layers[v] > 0
}

/// A seed has layer zero; a node of a positive layer has a reached
/// predecessor exactly one layer above it; and from a reached node every edge
/// leads to a reached node at most one layer below.
pub open spec fn layered_by_distance(layers: Seq<usize>, edges: Seq<(int, int)>, v: int) -> bool {
    &&& is_seed(layers.len() as int, edges, v) ==> layers[v] == 0
    &&& layers[v] > 0 ==> exists|u: int|
        0 <= u < layers.len() && #[trigger] has_edge(edges, u, v) && is_reached(layers, edges, u)
            && layers[u] + 1 == layers[v]
    &&& is_reached(layers, edges, v) ==> forall|w: int|
        0 <= w < layers.len() && #[trigger] has_edge(edges, v, w) ==> is_reached(layers, edges, w)
            && layers[w] <= layers[v] + 1
}

/// Every node is layered by its distance from the seeds: a reached node's
/// layer is the length of the shortest path from a seed to it, and a node
/// that no seed reaches has layer zero (`lemma_layer_is_shortest_distance`).
pub open spec fn is_breadth_first_layering(layers: Seq<usize>, edges: Seq<(int, int)>) -> bool {
    forall|v: int| 0 <= v < layers.len() ==> #[trigger] layered_by_distance(layers, edges, v)
}

/// How many entries are `false`.
pub open spec fn count_false(s: Seq<bool>) -> nat
    decreases s.len(),
{
    if s.len() == 0 {
        0
    } else {
        count_false(s.drop_last()) + if s.last() { 0nat } else { 1nat }
    }
}

proof fn lemma_count_false_set(s: Seq<bool>, i: int)
    requires
        0 <= i < s.len(),
        !s[i],
    ensures
        count_false(s.update(i, true)) + 1 == count_false(s),
    decreases s.len(),
{
    let t = s.update(i, true);
    if i == s.len() - 1 {
        assert(t.drop_last() =~= s.drop_last());
    } else {
        lemma_count_false_set(s.drop_last(), i);
        assert(t.drop_last() =~= s.drop_last().update(i, true));
    }
}

/// Whether no edge leads into `v`.
fn is_source(g: &petgraph::graph::Graph<(), (), petgraph::Directed, u32>, v: usize) -> (r: bool)
    requires
        v < graph_node_count(*g) <= u32::MAX,
    ensures
        r == !has_incoming(graph_edges(*g), v as int),
{
    let preds = graph_incoming(g, v);
    proof {
        let edges = graph_edges(*g);
        let pv = indices_view(preds@);
        if preds.len() > 0 {
            assert(pv.contains(pv[0]));
            lemma_neighbors_contains(edges, v as int, true, pv[0]);
            assert(has_edge(edges, pv[0], v as int));
        } else if has_incoming(edges, v as int) {
            let u = choose|u: int| #[trigger] has_edge(edges, u, v as int);
            lemma_neighbors_contains(edges, v as int, true, u);
            let t = choose|t: int| 0 <= t < pv.len() && pv[t] == u;
            assert(false);
        }
    }
    preds.len() == 0
}

/// What holds of the traversal's queue and marks at every moment: the queue
/// lists each marked node once, and the nodes not yet marked are counted.
pub open spec fn queue_matches_marks(n: int, queue: Seq<usize>, visited: Seq<bool>) -> bool {
    &&& visited.len() == n
    &&& count_false(visited) + queue.len() == n
    &&& forall|j: int| 0 <= j < queue.len() ==> (#[trigger] queue[j]) < n && visited[queue[j] as int]
    &&& forall|a: int, b: int| 0 <= a < b < queue.len() ==> queue[a] != queue[b]
    &&& forall|v: usize| v < n && visited[v as int] ==> #[trigger] queue.contains(v)
}

/// Marks the seeds and puts them in the queue, in the order of their numbers.
fn seed_queue(g: &petgraph::graph::Graph<(), (), petgraph::Directed, u32>, n: usize) -> (r: (
    Vec<usize>,
    Vec<bool>,
))
    requires
        n == graph_node_count(*g),
        n <= u32::MAX,
    ensures
        queue_matches_marks(n as int, r.0@, r.1@),
        forall|v: int| 0 <= v < n ==> #[trigger] r.1[v] == is_seed(n as int, graph_edges(*g), v),
{
    let ghost edges = graph_edges(*g);
    let mut queue: Vec<usize> = Vec::new();
    let mut visited: Vec<bool> = Vec::new();
    let mut v: usize = 0;
    while v < n
        invariant
            v <= n,
            n == graph_node_count(*g),
            n <= u32::MAX,
            edges == graph_edges(*g),
            queue_matches_marks(v as int, queue@, visited@),
            forall|w: int| 0 <= w < v ==> #[trigger] visited[w] == !has_incoming(edges, w),
        decreases n - v,
    {
        let b = is_source(g, v);
        let ghost old_queue = queue@;
        let ghost old_visited = visited@;
        visited.push(b);
        if b {
            queue.push(v);
        }
        proof {
            assert(visited@.drop_last() =~= old_visited);
            assert forall|w: usize| w < v + 1 && visited[w as int] implies #[trigger] queue@.contains(
                w,
            ) by {
                if w < v {
                    assert(old_visited[w as int]);
                    assert(old_queue.contains(w));
                    let j = choose|j: int| 0 <= j < old_queue.len() && old_queue[j] == w;
                    assert(queue[j] == w);
                } else {
                    assert(queue[queue.len() - 1] == w);
                }
            }
        }
        v += 1;
    }
    if queue.len() == 0 && n > 0 {
        proof {
            assert forall|r: int| 0 <= r < n implies #[trigger] has_incoming(edges, r) by {
                if visited[r] {
                    assert(queue@.contains(r as usize));
                }
            }
            lemma_count_false_set(visited@, 0);
        }
        visited.set(0, true);
        queue.push(0);
        proof {
            assert(queue[0] == 0usize);
        }
    } else {
        proof {
            if n > 0 {
                let r = queue[0] as int;
                assert(!has_incoming(edges, r));
            }
        }
    }
    (queue, visited)
}

/// What the traversal has established of the layers so far.
pub open spec fn layers_match_marks(
    edges: Seq<(int, int)>,
    queue: Seq<usize>,
    visited: Seq<bool>,
    layers: Seq<usize>,
) -> bool {
    let n = layers.len() as int;
    &&& forall|v: int| 0 <= v < n && !visited[v] ==> #[trigger] layers[v] == 0
    &&& forall|v: int| 0 <= v < n && #[trigger] is_seed(n, edges, v) ==> visited[v] && layers[v] == 0
    &&& forall|a: int, b: int|
        0 <= a <= b < queue.len() ==> layers[#[trigger] queue[a] as int] <= layers[#[trigger] queue[b] as int]
    &&& forall|j: int| 0 <= j < queue.len() ==> layers[#[trigger] queue[j] as int] <= j
    &&& forall|v: int|
        0 <= v < n && visited[v] && !#[trigger] is_seed(n, edges, v) ==> layers[v] > 0 && exists|u: int|
            0 <= u < n && #[trigger] has_edge(edges, u, v) && visited[u] && layers[u] + 1 == layers[v]
}

/// Every edge out of the first `head` nodes of the queue leads to a marked
/// node at most one layer below.
pub open spec fn expanded_up_to(
    edges: Seq<(int, int)>,
    queue: Seq<usize>,
    visited: Seq<bool>,
    layers: Seq<usize>,
    head: int,
) -> bool {
    forall|i: int, w: int|
        0 <= i < head && 0 <= w < layers.len() && #[trigger] has_edge(edges, #[trigger] queue[i] as int, w)
            ==> visited[w] && layers[w] <= layers[queue[i] as int] + 1
}

/// Marking a node that is first reached from the head of the queue, one
/// layer below it, keeps everything that the traversal has established.
proof fn lemma_mark(
    edges: Seq<(int, int)>,
    queue: Seq<usize>,
    visited: Seq<bool>,
    layers: Seq<usize>,
    head: int,
    w: usize,
)
    requires
        layers.len() <= usize::MAX,
        queue_matches_marks(layers.len() as int, queue, visited),
        layers_match_marks(edges, queue, visited, layers),
        expanded_up_to(edges, queue, visited, layers, head),
        0 <= head < queue.len(),
        w < layers.len(),
        !visited[w as int],
        has_edge(edges, queue[head] as int, w as int),
        forall|j: int|
            0 <= j < queue.len() ==> layers[#[trigger] queue[j] as int] <= layers[queue[head] as int] + 1,
    ensures
        layers[queue[head] as int] + 1 <= queue.len() <= usize::MAX,
        ({
            let below = (layers[queue[head] as int] + 1) as usize;
            let queue2 = queue.push(w);
            let visited2 = visited.update(w as int, true);
            let layers2 = layers.update(w as int, below);
            &&& queue_matches_marks(layers.len() as int, queue2, visited2)
            &&& layers_match_marks(edges, queue2, visited2, layers2)
            &&& expanded_up_to(edges, queue2, visited2, layers2, head)
            &&& forall|j: int| 0 <= j < queue2.len() ==> layers2[#[trigger] queue2[j] as int] <= below
            &&& forall|x: int|
                0 <= x < layers.len() && #[trigger] visited[x] ==> visited2[x] && layers2[x] == layers[x]
        }),
{
    let n = layers.len() as int;
    let u = queue[head];
    let lu = layers[u as int];
    assert(layers[queue[head] as int] <= head);
    assert(count_false(visited) > 0) by {
        lemma_count_false_set(visited, w as int);
    }
    let below = (lu + 1) as usize;
    let queue2 = queue.push(w);
    let visited2 = visited.update(w as int, true);
    let layers2 = layers.update(w as int, below);
    let m = queue.len() as int;
    lemma_count_false_set(visited, w as int);
    assert forall|j: int| 0 <= j < m implies queue2[j] == queue[j] && queue[j] != w && layers2[queue2[j] as int]
        == layers[queue[j] as int] by {
        assert(visited[queue[j] as int]);
    }
    assert(queue2[m] == w);
    assert(queue_matches_marks(n, queue2, visited2)) by {
        assert forall|v: usize| v < n && visited2[v as int] implies #[trigger] queue2.contains(v) by {
            if v == w {
                assert(queue2[m] == v);
            } else {
                assert(visited[v as int]);
                assert(queue.contains(v));
                let j = choose|j: int| 0 <= j < m && queue[j] == v;
                assert(queue2[j] == v);
            }
        }
    }
    assert(layers_match_marks(edges, queue2, visited2, layers2)) by {
        assert forall|v: int|
            0 <= v < n && visited2[v] && !#[trigger] is_seed(n, edges, v) implies layers2[v] > 0 && exists|
            x: int,
        |
            0 <= x < n && #[trigger] has_edge(edges, x, v) && visited2[x] && layers2[x] + 1 == layers2[v] by {
            if v == w {
                assert(visited[u as int]);
                assert(has_edge(edges, u as int, v) && visited2[u as int] && layers2[u as int] + 1
                    == layers2[v]);
            } else {
                assert(visited[v]);
                let x = choose|x: int|
                    0 <= x < n && #[trigger] has_edge(edges, x, v) && visited[x] && layers[x] + 1
                        == layers[v];
                assert(has_edge(edges, x, v) && visited2[x] && layers2[x] + 1 == layers2[v]);
            }
        }
        assert forall|a: int, b: int| 0 <= a <= b < queue2.len() implies layers2[#[trigger] queue2[a] as int]
            <= layers2[#[trigger] queue2[b] as int] by {
            if b < m {
                assert(layers[queue[a] as int] <= layers[queue[b] as int]);
            } else if a < m {
                assert(layers[queue[a] as int] <= lu + 1);
            }
        }
        assert forall|j: int| 0 <= j < queue2.len() implies layers2[#[trigger] queue2[j] as int] <= j by {
            if j < m {
                assert(layers[queue[j] as int] <= j);
            }
        }
        assert forall|v: int| 0 <= v < n && !visited2[v] implies #[trigger] layers2[v] == 0 by {
            assert(!visited[v]);
        }
        assert forall|v: int| 0 <= v < n && #[trigger] is_seed(n, edges, v) implies visited2[v]
            && layers2[v] == 0 by {
            assert(visited[v]);
        }
    }
    assert(expanded_up_to(edges, queue2, visited2, layers2, head)) by {
        assert forall|i: int, x: int|
            0 <= i < head && 0 <= x < n && #[trigger] has_edge(edges, #[trigger] queue2[i] as int, x)
            implies visited2[x] && layers2[x] <= layers2[queue2[i] as int] + 1 by {
            assert(has_edge(edges, queue[i] as int, x));
            assert(visited[x]);
        }
    }
    assert forall|j: int| 0 <= j < queue2.len() implies layers2[#[trigger] queue2[j] as int] <= below by {
        if j < m {
            assert(layers[queue[j] as int] <= lu + 1);
        }
    }
}

/// Breadth-first layering from the seeds. A node is put in the queue when it
/// is first reached, one layer below the node it was reached from, and never
/// again; a node that is never reached stays in layer zero. The second
/// component is the order in which the nodes were visited.
pub fn layers_by_breadth_first(
    g: &petgraph::graph::Graph<(), (), petgraph::Directed, u32>,
    n: usize,
) -> (r: (Vec<usize>, Vec<usize>))
    requires
        n == graph_node_count(*g),
        n <= u32::MAX,
        edges_in_range(n as int, graph_edges(*g)),
    ensures
        r.0.len() == n,
        is_breadth_first_layering(r.0@, graph_edges(*g)),
        forall|v: int| 0 <= v < n ==> #[trigger] r.0[v] < n,
        forall|a: int, b: int| 0 <= a < b < r.1.len() ==> r.1[a] != r.1[b],
        forall|j: int| 0 <= j < r.1.len() ==> (#[trigger] r.1[j]) < n,
        forall|v: int| 0 <= v < n ==> (r.1@.contains(v as usize) <==> #[trigger] is_reached(r.0@, graph_edges(*g), v)),
{
    let ghost edges = graph_edges(*g);
    let seeded = seed_queue(g, n);
    let mut queue = seeded.0;
    let mut visited = seeded.1;
    let mut layers = zeros(n);
    let mut head: usize = 0;
    while head < queue.len()
        invariant
            head <= queue.len(),
            layers.len() == n,
            n == graph_node_count(*g),
            n <= u32::MAX,
            edges == graph_edges(*g),
            edges_in_range(n as int, edges),
            queue_matches_marks(n as int, queue@, visited@),
            layers_match_marks(edges, queue@, visited@, layers@),
            expanded_up_to(edges, queue@, visited@, layers@, head as int),
            head < queue.len() ==> forall|j: int|
                0 <= j < queue.len() ==> layers[#[trigger] queue[j] as int] <= layers[queue[head as int] as int] + 1,
        decreases n - head,
    {
        let u = queue[head];
        let lu = layers[u];
        let nbrs = graph_outgoing(g, u);
        let ghost nv = indices_view(nbrs@);
        let mut t: usize = 0;
        while t < nbrs.len()
            invariant
                t <= nbrs.len(),
                head < queue.len(),
                queue[head as int] == u,
                layers[u as int] == lu,
                layers.len() == n,
                n == graph_node_count(*g),
                n <= u32::MAX,
                edges == graph_edges(*g),
                edges_in_range(n as int, edges),
                nv == indices_view(nbrs@),
                nv == neighbors_of(edges, u as int, false),
                queue_matches_marks(n as int, queue@, visited@),
                layers_match_marks(edges, queue@, visited@, layers@),
                expanded_up_to(edges, queue@, visited@, layers@, head as int),
                forall|j: int| 0 <= j < queue.len() ==> layers[#[trigger] queue[j] as int] <= lu + 1,
                forall|k: int|
                    0 <= k < t ==> 0 <= #[trigger] nv[k] < n && visited[nv[k]] && layers[nv[k]] <= lu + 1,
            decreases nbrs.len() - t,
        {
            let w = nbrs[t];
            proof {
                assert(nv[t as int] == w);
                assert(nv.contains(w as int));
                lemma_neighbors_contains(edges, u as int, false, w as int);
                let e = choose|e: int| 0 <= e < edges.len() && edges[e] == (u as int, w as int);
                assert(0 <= edges[e].1 < n);
            }
            if !visited[w] {
                proof {
                    lemma_mark(edges, queue@, visited@, layers@, head as int, w);
                }
                visited.set(w, true);
                layers.set(w, lu + 1);
                queue.push(w);
            } else {
                proof {
                    assert(queue@.contains(w));
                    let j = choose|j: int| 0 <= j < queue.len() && queue[j] == w;
                    assert(layers[queue[j] as int] <= lu + 1);
                }
            }
            t += 1;
        }
        proof {
            assert forall|i: int, x: int|
                0 <= i < head + 1 && 0 <= x < n && #[trigger] has_edge(edges, #[trigger] queue[i] as int, x)
                implies visited[x] && layers[x] <= layers[queue[i] as int] + 1 by {
                if i == head {
                    lemma_neighbors_contains(edges, u as int, false, x);
                    let k = choose|k: int| 0 <= k < nv.len() && nv[k] == x;
                    assert(visited[nv[k]]);
                }
            }
            if head + 1 < queue.len() {
                assert(layers[queue[head as int] as int] <= layers[queue[head as int + 1] as int]);
            }
        }
        head += 1;
    }
    proof {
        assert forall|v: int| 0 <= v < n implies #[trigger] visited[v] == is_reached(layers@, edges, v) by {
            if !visited[v] {
                assert(layers[v] == 0);
            }
        }
        assert forall|v: int| 0 <= v < n implies #[trigger] layered_by_distance(layers@, edges, v) by {
            if layers[v] > 0 {
                assert(visited[v]);
                assert(!is_seed(n as int, edges, v));
                let x = choose|x: int|
                    0 <= x < n && #[trigger] has_edge(edges, x, v) && visited[x] && layers[x] + 1 == layers[v];
                assert(has_edge(edges, x, v) && is_reached(layers@, edges, x));
            }
            if is_reached(layers@, edges, v) {
                assert(visited[v]);
                assert(queue@.contains(v as usize));
                let i = choose|i: int| 0 <= i < queue.len() && queue[i] == v as usize;
                assert forall|w: int| 0 <= w < n && #[trigger] has_edge(edges, v, w) implies is_reached(
                    layers@,
                    edges,
                    w,
                ) && layers[w] <= layers[v] + 1 by {
                    assert(has_edge(edges, queue[i] as int, w));
                    assert(visited[w]);
                }
            }
        }
        assert forall|v: int| 0 <= v < n implies #[trigger] layers[v] < n by {
            if visited[v] {
                assert(queue@.contains(v as usize));
                let i = choose|i: int| 0 <= i < queue.len() && queue[i] == v as usize;
                assert(layers[queue[i] as int] <= i);
            } else {
                assert(layers[v] == 0);
            }
        }
        assert forall|v: int| 0 <= v < n implies (queue@.contains(v as usize) <==> #[trigger] is_reached(
            layers@,
            edges,
            v,
        )) by {
            assert(visited[v] == is_reached(layers@, edges, v));
            if visited[v] {
                assert(queue@.contains(v as usize));
            }
            if queue@.contains(v as usize) {
                let i = choose|i: int| 0 <= i < queue.len() && queue[i] == v as usize;
                assert(visited[queue[i] as int]);
            }
        }
    }
    (layers, queue)
}

/// What `assign_layers` returns for a graph: the longest-path layering if the
/// graph is acyclic, the breadth-first layering if it has a cycle.
pub open spec fn is_layering(layers: Seq<usize>, n: int, edges: Seq<(int, int)>) -> bool {
    &&& layers.len() == n
    &&& is_acyclic(n, edges) ==> is_longest_path_layering(layers, edges)
    &&& !is_acyclic(n, edges) ==> is_breadth_first_layering(layers, edges)
}

/// Assigns a layer to each of the nodes `0..n` of the graph with the given
/// edges. An acyclic graph is layered by longest paths: a node without
/// predecessors gets layer zero, any other node one more than the greatest
/// layer among its predecessors. A graph with a cycle is layered breadth
/// first from its source nodes, or from node zero if it has none; what the
/// traversal does not reach gets layer zero. The graph is indexed with 32
/// bits, which bounds the number of nodes and of edges.
pub fn assign_layers(n: usize, edges: &Vec<(usize, usize)>) -> (layers: Vec<usize>)
    requires
        n <= u32::MAX,
        edges.len() <= u32::MAX,
        edges_in_range(n as int, edge_view(edges@)),
    ensures
        is_layering(layers@, n as int, edge_view(edges@)),
        forall|v: int| 0 <= v < n ==> #[trigger] layers[v] < n,
{
    let g = build_graph(n, edges);
    match graph_toposort(&g) {
        Some(order) => {
            assert(is_acyclic(n as int, edge_view(edges@)));
            layers_by_longest_path(&g, &order)
        },
        None => {
            let r = layers_by_breadth_first(&g, n);
            r.0
        },
    }
}

/// `p` is a walk along the edges: each entry is joined to the next by an edge.
pub open spec fn is_path(edges: Seq<(int, int)>, p: Seq<int>) -> bool {
    &&& p.len() >= 1
    &&& forall|i: int| 0 <= i < p.len() - 1 ==> has_edge(edges, #[trigger] p[i], p[i + 1])
}

/// In a longest-path layering no path is longer than the layer of the node
/// it ends in: a path of `k` edges ends at a layer of at least `k`.
pub proof fn lemma_layer_bounds_every_path(layers: Seq<usize>, edges: Seq<(int, int)>, p: Seq<int>)
    requires
        is_longest_path_layering(layers, edges),
        edges_in_range(layers.len() as int, edges),
        is_path(edges, p),
        0 <= p.last() < layers.len(),
    ensures
        p.len() - 1 <= layers[p.last()],
    decreases p.len(),
{
    if p.len() > 1 {
        let q = p.drop_last();
        let u = p[p.len() - 2];
        let v = p.last();
        assert(has_edge(edges, u, v));
        let e = choose|e: int| 0 <= e < edges.len() && edges[e] == (u, v);
        assert(0 <= edges[e].0 < layers.len());
        assert(is_path(edges, q)) by {
            assert forall|i: int| 0 <= i < q.len() - 1 implies has_edge(edges, #[trigger] q[i], q[i + 1]) by {
                assert(has_edge(edges, p[i], p[i + 1]));
            }
        }
        lemma_layer_bounds_every_path(layers, edges, q);
        assert(layered_by_predecessors(layers, edges, v));
    }
}

/// In a longest-path layering every node is the end of a path that starts at
/// a node without predecessors and has as many edges as the node's layer.
/// With the bound on every path, the layer of a node is the length of the
/// longest path that ends in it; a node without predecessors has layer zero.
pub proof fn lemma_layer_is_reached_by_a_path(layers: Seq<usize>, edges: Seq<(int, int)>, v: int) -> (p: Seq<int>)
    requires
        is_longest_path_layering(layers, edges),
        0 <= v < layers.len(),
    ensures
        is_path(edges, p),
        p.last() == v,
        !has_incoming(edges, p[0]),
        p.len() - 1 == layers[v],
        !has_incoming(edges, v) ==> layers[v] == 0,
    decreases layers[v],
{
    assert(layered_by_predecessors(layers, edges, v));
    if has_incoming(edges, v) {
        let u = choose|u: int|
            0 <= u < layers.len() && #[trigger] has_edge(edges, u, v) && layers[u] + 1 == layers[v];
        let q = lemma_layer_is_reached_by_a_path(layers, edges, u);
        let p = q.push(v);
        assert forall|i: int| 0 <= i < p.len() - 1 implies has_edge(edges, #[trigger] p[i], p[i + 1]) by {
            if i < q.len() - 1 {
                assert(has_edge(edges, q[i], q[i + 1]));
            }
        }
        assert(p[0] == q[0]);
        p
    } else {
        seq![v]
    }
}

/// On an acyclic graph the layer of a node is the length of the longest path
/// that ends in it: some path from a node without predecessors has exactly
/// that many edges, and no path to the node has more. A node without
/// predecessors has layer zero.
pub proof fn lemma_layer_is_longest_path(layers: Seq<usize>, n: int, edges: Seq<(int, int)>, v: int)
    requires
        edges_in_range(n, edges),
        is_acyclic(n, edges),
        is_layering(layers, n, edges),
        0 <= v < n,
    ensures
        exists|p: Seq<int>|
            #[trigger] is_path(edges, p) && p.last() == v && !has_incoming(edges, p[0]) && p.len() - 1
                == layers[v],
        forall|p: Seq<int>| #[trigger] is_path(edges, p) && p.last() == v ==> p.len() - 1 <= layers[v],
        !has_incoming(edges, v) ==> layers[v] == 0,
{
    let witness = lemma_layer_is_reached_by_a_path(layers, edges, v);
    assert(is_path(edges, witness) && witness.last() == v);
    assert forall|p: Seq<int>| #[trigger] is_path(edges, p) && p.last() == v implies p.len() - 1
        <= layers[v] by {
        lemma_layer_bounds_every_path(layers, edges, p);
    }
}

/// `p` is a path from a seed of the breadth-first layering to `v`.
pub open spec fn is_path_from_seed(n: int, edges: Seq<(int, int)>, p: Seq<int>, v: int) -> bool {
    &&& is_path(edges, p)
    &&& 0 <= p[0] < n
    &&& is_seed(n, edges, p[0])
    &&& p.last() == v
}

/// In a breadth-first layering the end of a path from a seed is reached,
/// and its layer is at most the number of edges of the path.
pub proof fn lemma_layer_bounds_paths_from_seeds(layers: Seq<usize>, edges: Seq<(int, int)>, p: Seq<int>)
    requires
        is_breadth_first_layering(layers, edges),
        edges_in_range(layers.len() as int, edges),
        is_path_from_seed(layers.len() as int, edges, p, p.last()),
    ensures
        0 <= p.last() < layers.len(),
        is_reached(layers, edges, p.last()),
        layers[p.last()] <= p.len() - 1,
    decreases p.len(),
{
    if p.len() == 1 {
        assert(layered_by_distance(layers, edges, p[0]));
    } else {
        let q = p.drop_last();
        let u = p[p.len() - 2];
        let v = p.last();
        assert(has_edge(edges, u, v));
        let e = choose|e: int| 0 <= e < edges.len() && edges[e] == (u, v);
        assert(0 <= edges[e].1 < layers.len());
        assert(is_path(edges, q)) by {
            assert forall|i: int| 0 <= i < q.len() - 1 implies has_edge(edges, #[trigger] q[i], q[i + 1]) by {
                assert(has_edge(edges, p[i], p[i + 1]));
            }
        }
        assert(q[0] == p[0]);
        lemma_layer_bounds_paths_from_seeds(layers, edges, q);
        assert(layered_by_distance(layers, edges, u));
    }
}

/// In a breadth-first layering every reached node is the end of a path from
/// a seed that has as many edges as the node's layer.
pub proof fn lemma_layer_is_reached_from_a_seed(layers: Seq<usize>, edges: Seq<(int, int)>, v: int) -> (p: Seq<
    int,
>)
    requires
        is_breadth_first_layering(layers, edges),
        0 <= v < layers.len(),
        is_reached(layers, edges, v),
    ensures
        is_path_from_seed(layers.len() as int, edges, p, v),
        p.len() - 1 == layers[v],
    decreases layers[v],
{
    assert(layered_by_distance(layers, edges, v));
    if layers[v] > 0 {
        let u = choose|u: int|
            0 <= u < layers.len() && #[trigger] has_edge(edges, u, v) && is_reached(layers, edges, u)
                && layers[u] + 1 == layers[v];
        let q = lemma_layer_is_reached_from_a_seed(layers, edges, u);
        let p = q.push(v);
        assert forall|i: int| 0 <= i < p.len() - 1 implies has_edge(edges, #[trigger] p[i], p[i + 1]) by {
            if i < q.len() - 1 {
                assert(has_edge(edges, q[i], q[i + 1]));
            }
        }
        assert(p[0] == q[0]);
        p
    } else {
        seq![v]
    }
}

/// On a graph with a cycle the layer of a node is its distance from the
/// seeds: if some path leads from a seed to the node, the shortest such path
/// has exactly as many edges as the node's layer; if none does, the layer is
/// zero.
pub proof fn lemma_layer_is_shortest_distance(layers: Seq<usize>, n: int, edges: Seq<(int, int)>, v: int)
    requires
        edges_in_range(n, edges),
        !is_acyclic(n, edges),
        is_layering(layers, n, edges),
        0 <= v < n,
    ensures
        forall|p: Seq<int>| #[trigger] is_path_from_seed(n, edges, p, v) ==> layers[v] <= p.len() - 1,
        (exists|p: Seq<int>| is_path_from_seed(n, edges, p, v)) ==> exists|p: Seq<int>|
            #[trigger] is_path_from_seed(n, edges, p, v) && p.len() - 1 == layers[v],
        !(exists|p: Seq<int>| is_path_from_seed(n, edges, p, v)) ==> layers[v] == 0,
{
    assert forall|p: Seq<int>| #[trigger] is_path_from_seed(n, edges, p, v) implies is_reached(
        layers,
        edges,
        v,
    ) && layers[v] <= p.len() - 1 by {
        lemma_layer_bounds_paths_from_seeds(layers, edges, p);
    }
    if is_reached(layers, edges, v) {
        let witness = lemma_layer_is_reached_from_a_seed(layers, edges, v);
        assert(is_path_from_seed(n, edges, witness, v) && witness.len() - 1 == layers[v]);
    }
}

proof fn lemma_longest_path_le(
    a: Seq<usize>,
    b: Seq<usize>,
    ord: Seq<int>,
    edges: Seq<(int, int)>,
    k: int,
)
    requires
        a.len() == b.len(),
        is_topological_order(ord, a.len() as int, edges),
        edges_in_range(a.len() as int, edges),
        is_longest_path_layering(a, edges),
        is_longest_path_layering(b, edges),
        0 <= k < a.len(),
    ensures
        a[ord[k]] <= b[ord[k]],
    decreases k,
{
    let v = ord[k];
    assert(layered_by_predecessors(a, edges, v));
    assert(layered_by_predecessors(b, edges, v));
    if has_incoming(edges, v) {
        let u = choose|u: int| 0 <= u < a.len() && #[trigger] has_edge(edges, u, v) && a[u] + 1 == a[v];
        let j = lemma_edge_position(ord, a.len() as int, edges, u, v, k);
        lemma_longest_path_le(a, b, ord, edges, j);
    }
}

proof fn lemma_breadth_first_le(a: Seq<usize>, b: Seq<usize>, edges: Seq<(int, int)>, v: int)
    requires
        a.len() == b.len(),
        is_breadth_first_layering(a, edges),
        is_breadth_first_layering(b, edges),
        0 <= v < a.len(),
        is_reached(a, edges, v),
    ensures
        is_reached(b, edges, v),
        b[v] <= a[v],
    decreases a[v],
{
    assert(layered_by_distance(a, edges, v));
    assert(layered_by_distance(b, edges, v));
    if a[v] > 0 {
        let u = choose|u: int|
            0 <= u < a.len() && #[trigger] has_edge(edges, u, v) && is_reached(a, edges, u) && a[u] + 1
                == a[v];
        lemma_breadth_first_le(a, b, edges, u);
        assert(layered_by_distance(b, edges, u));
    }
}

/// A graph has exactly one layering: whatever meets the contract of
/// `assign_layers` for a graph is the same assignment, so layering the same
/// graph twice gives the same layers.
pub proof fn lemma_layering_is_unique(a: Seq<usize>, b: Seq<usize>, n: int, edges: Seq<(int, int)>)
    requires
        edges_in_range(n, edges),
        is_layering(a, n, edges),
        is_layering(b, n, edges),
    ensures
        a == b,
{
    assert forall|v: int| 0 <= v < n implies a[v] == b[v] by {
        if is_acyclic(n, edges) {
            let ord = choose|ord: Seq<int>| is_topological_order(ord, n, edges);
            assert(ord.contains(v));
            let k = choose|k: int| 0 <= k < ord.len() && ord[k] == v;
            lemma_longest_path_le(a, b, ord, edges, k);
            lemma_longest_path_le(b, a, ord, edges, k);
        } else {
            assert(layered_by_distance(a, edges, v));
            assert(layered_by_distance(b, edges, v));
            if is_reached(a, edges, v) {
                lemma_breadth_first_le(a, b, edges, v);
                lemma_breadth_first_le(b, a, edges, v);
            } else if is_reached(b, edges, v) {
                lemma_breadth_first_le(b, a, edges, v);
            }
        }
    }
    assert(a =~= b);
}

} // verus!
