//! Grid placement: one row per layer, the nodes of a row in the order of
//! their identities.

use vstd::prelude::*;
use crate::graph::edges_in_range;
use crate::layers::{
    assign_layers, edge_view, has_edge, has_incoming, is_layering, is_seed, layered_by_distance,
    layered_by_predecessors, lemma_layering_is_unique,
};
use crate::graph::is_acyclic;
use crate::text::{
    chars_less, chars_of, lemma_lex_irreflexive, lemma_lex_total, lemma_lex_transitive, lex_less,
    segments_view,
};

verus! {

/// Where a node was placed: its coordinates and its layer.
#[derive(Debug, Clone, Copy, PartialEq, Eq, Default)]
pub struct NodePosition {
    pub x: u64,
    pub y: u64,
    pub layer: usize,
}

/// Spacing and origin of the grid.
#[derive(Debug, Clone, Copy, PartialEq, Eq)]
pub struct LayoutConfig {
    /// Horizontal distance between neighbours in a layer.
    pub node_spacing_x: u32,
    /// Vertical distance between layers.
    pub layer_spacing_y: u32,
    /// `x` of the first node of each layer.
    pub offset_x: u32,
    /// `y` of layer zero.
    pub offset_y: u32,
}

impl Default for LayoutConfig {
    fn default() -> (c: Self)
        ensures
            c.node_spacing_x == 200,
            c.layer_spacing_y == 150,
            c.offset_x == 50,
            c.offset_y == 50,
    {
        LayoutConfig { node_spacing_x: 200, layer_spacing_y: 150, offset_x: 50, offset_y: 50 }
    }
}

/// The identities of the nodes as character sequences.
pub open spec fn ids_view(nodes: Seq<String>) -> Seq<Seq<char>> {
    nodes.map_values(|s: String| s@)
}

/// The edges as pairs of identities.
pub open spec fn named_edges_view(edges: Seq<(String, String)>) -> Seq<(Seq<char>, Seq<char>)> {
    edges.map_values(|e: (String, String)| (e.0@, e.1@))
}

/// `i` is the first place at which `id` stands in `ids`.
pub open spec fn is_first_index(ids: Seq<Seq<char>>, id: Seq<char>, i: int) -> bool {
    &&& 0 <= i < ids.len()
    &&& ids[i] == id
    &&& forall|j: int| 0 <= j < i ==> ids[j] != id
}

/// The number of the node with identity `id`, or -1 if there is none.
pub open spec fn index_of(ids: Seq<Seq<char>>, id: Seq<char>) -> int {
    if exists|i: int| is_first_index(ids, id, i) {
        choose|i: int| is_first_index(ids, id, i)
    } else {
        -1
    }
}

/// The edges between known nodes, by node number and in their order; an
/// edge with an unknown end is left out.
pub open spec fn resolved_edges(ids: Seq<Seq<char>>, edges: Seq<(Seq<char>, Seq<char>)>) -> Seq<(int, int)>
    decreases edges.len(),
{
    if edges.len() == 0 {
        Seq::empty()
    } else {
        let rest = resolved_edges(ids, edges.drop_last());
        let a = index_of(ids, edges.last().0);
        let b = index_of(ids, edges.last().1);
        if a >= 0 && b >= 0 {
            rest.push((a, b))
        } else {
            rest
        }
    }
}

/// Among the first `k` nodes, how many share the layer of `v` and come
/// before it in the order of identities.
pub open spec fn count_before(ids: Seq<Seq<char>>, layers: Seq<usize>, v: int, k: int) -> nat
    decreases k,
{
    if k <= 0 {
        0
    } else {
        count_before(ids, layers, v, k - 1) + if layers[k - 1] == layers[v] && lex_less(ids[k - 1], ids[v]) {
            1nat
        } else {
            0nat
        }
    }
}

/// The place of `v` in its layer: the number of nodes of that layer whose
/// identity comes before its own.
pub open spec fn slot_of(ids: Seq<Seq<char>>, layers: Seq<usize>, v: int) -> nat {
    count_before(ids, layers, v, ids.len() as int)
}

/// The layers of a list of positions.
pub open spec fn layers_of(positions: Seq<NodePosition>) -> Seq<usize> {
    positions.map_values(|p: NodePosition| p.layer)
}

/// The position of node `v` on the grid.
pub open spec fn placed(
    config: LayoutConfig,
    ids: Seq<Seq<char>>,
    layers: Seq<usize>,
    v: int,
    p: NodePosition,
) -> bool {
    &&& p.layer == layers[v]
    &&& p.x == config.offset_x + slot_of(ids, layers, v) * config.node_spacing_x
    &&& p.y == config.offset_y + layers[v] * config.layer_spacing_y
}

/// Looks a node up by its identity.
pub fn find_node(nodes: &[String], id: &String) -> (r: Option<usize>)
    ensures
        match r {
            Some(i) => i == index_of(ids_view(nodes@), id@),
            None => index_of(ids_view(nodes@), id@) == -1,
        },
        r is Some <==> ids_view(nodes@).contains(id@),
{
    let ghost ids = ids_view(nodes@);
    let mut i: usize = 0;
    while i < nodes.len()
        invariant
            i <= nodes.len(),
            ids == ids_view(nodes@),
            forall|j: int| 0 <= j < i ==> ids[j] != id@,
        decreases nodes.len() - i,
    {
        if nodes[i] == *id {
            proof {
                assert(ids[i as int] == id@);
                assert(is_first_index(ids, id@, i as int));
                let c = index_of(ids, id@);
                assert(is_first_index(ids, id@, c));
                assert(c == i);
            }
            return Some(i);
        }
        i += 1;
    }
    proof {
        assert forall|c: int| !is_first_index(ids, id@, c) by {}
        if ids.contains(id@) {
            let j = choose|j: int| 0 <= j < ids.len() && ids[j] == id@;
            assert(false);
        }
    }
    None
}

/// Replaces the identities at the ends of each edge by node numbers and
/// drops the edges of which an end is not a known node.
pub fn resolve_edges(nodes: &[String], edges: &[(String, String)]) -> (r: Vec<(usize, usize)>)
    ensures
        edge_view(r@) == resolved_edges(ids_view(nodes@), named_edges_view(edges@)),
        r.len() <= edges.len(),
        edges_in_range(nodes.len() as int, edge_view(r@)),
{
    let ghost ids = ids_view(nodes@);
    let ghost named = named_edges_view(edges@);
    let mut r: Vec<(usize, usize)> = Vec::new();
    let mut i: usize = 0;
    while i < edges.len()
        invariant
            i <= edges.len(),
            ids == ids_view(nodes@),
            named == named_edges_view(edges@),
            r.len() <= i,
            edge_view(r@) == resolved_edges(ids, named.take(i as int)),
            edges_in_range(nodes.len() as int, edge_view(r@)),
        decreases edges.len() - i,
    {
        let a = find_node(nodes, &edges[i].0);
        let b = find_node(nodes, &edges[i].1);
        proof {
            assert(named.take(i as int + 1).drop_last() =~= named.take(i as int));
            assert(named.take(i as int + 1).last() == (edges[i as int].0@, edges[i as int].1@));
        }
        match (a, b) {
            (Some(x), Some(y)) => {
                let ghost before = r@;
                proof {
                    assert(is_first_index(ids, edges[i as int].0@, x as int));
                    assert(is_first_index(ids, edges[i as int].1@, y as int));
                }
                r.push((x, y));
                proof {
                    assert(edge_view(r@) =~= edge_view(before).push((x as int, y as int)));
                }
            },
            _ => {},
        }
        i += 1;
    }
    proof {
        assert(named.take(edges.len() as int) =~= named);
    }
    r
}

/// The identities of the nodes, character by character.
fn identity_chars(nodes: &[String]) -> (chars: Vec<Vec<char>>)
    ensures
        segments_view(chars@) == ids_view(nodes@),
{
    let mut chars: Vec<Vec<char>> = Vec::new();
    let mut i: usize = 0;
    while i < nodes.len()
        invariant
            i <= nodes.len(),
            segments_view(chars@) == ids_view(nodes@).take(i as int),
        decreases nodes.len() - i,
    {
        let ghost before = segments_view(chars@);
        chars.push(chars_of(nodes[i].as_str()));
        proof {
            assert(segments_view(chars@) =~= before.push(nodes[i as int]@));
            assert(ids_view(nodes@).take(i as int + 1) =~= ids_view(nodes@).take(i as int).push(
                nodes[i as int]@,
            ));
        }
        i += 1;
    }
    proof {
        assert(ids_view(nodes@).take(nodes.len() as int) =~= ids_view(nodes@));
    }
    chars
}

/// The place of node `v` in its layer.
fn slot(nodes: &[String], chars: &Vec<Vec<char>>, layers: &Vec<usize>, v: usize) -> (c: usize)
    requires
        v < nodes.len(),
        nodes.len() == layers.len(),
        segments_view(chars@) == ids_view(nodes@),
    ensures
        c == slot_of(ids_view(nodes@), layers@, v as int),
        c <= nodes.len(),
{
    let ghost ids = ids_view(nodes@);
    let mut c: usize = 0;
    let mut k: usize = 0;
    while k < nodes.len()
        invariant
            k <= nodes.len(),
            v < nodes.len(),
            nodes.len() == layers.len(),
            ids == ids_view(nodes@),
            ids == segments_view(chars@),
            c == count_before(ids, layers@, v as int, k as int),
            c <= k,
        decreases nodes.len() - k,
    {
        assert(segments_view(chars@).len() == chars.len() && ids_view(nodes@).len() == nodes.len());
        assert(segments_view(chars@)[k as int] == chars[k as int]@ && segments_view(chars@)[v as int]
            == chars[v as int]@);
        if layers[k] == layers[v] && chars_less(&chars[k], &chars[v]) {
            c += 1;
        }
        k += 1;
    }
    c
}

/// Layered layout of a dependency graph.
pub struct SugiyamaLayout {
    config: LayoutConfig,
}

impl SugiyamaLayout {
    /// The configuration that the layout was made with.
    pub closed spec fn config_view(&self) -> LayoutConfig {
        self.config
    }

    pub fn new(config: LayoutConfig) -> (r: Self)
        ensures
            r.config_view() == config,
    {
        SugiyamaLayout { config }
    }

    /// Computes the position of every node, in the order of `nodes`. The
    /// layers are those of `assign_layers` on the edges between known nodes;
    /// layer `l` lies at `y = offset_y + l * layer_spacing_y`, and the node
    /// that has `i` nodes of its layer before it in the order of identities
    /// at `x = offset_x + i * node_spacing_x`.
    ///
    /// Identities are meant to be unique. Where one stands more than once in
    /// `nodes`, each entry still gets a position of its own: an identity at
    /// the end of an edge means the first entry that has it, so every later
    /// entry is a node without edges and lies in layer zero.
    pub fn calculate_positions(&self, nodes: &[String], edges: &[(String, String)]) -> (positions: Vec<
        NodePosition,
    >)
        requires
            nodes.len() <= u32::MAX,
            edges.len() <= u32::MAX,
        ensures
            is_layout(self.config_view(), ids_view(nodes@), named_edges_view(edges@), positions@),
            forall|v: int|
                0 <= v < nodes.len() && #[trigger] is_repetition(ids_view(nodes@), v) ==> positions[v].layer
                    == 0,
    {
        let n = nodes.len();
        let resolved = resolve_edges(nodes, edges);
        let layers = assign_layers(n, &resolved);
        let ghost ids = ids_view(nodes@);
        let chars = identity_chars(nodes);
        let mut positions: Vec<NodePosition> = Vec::new();
        let mut v: usize = 0;
        while v < n
            invariant
                v <= n,
                n == nodes.len(),
                n == layers.len(),
                n <= u32::MAX,
                ids == ids_view(nodes@),
                ids == segments_view(chars@),
                positions.len() == v,
                forall|w: int| 0 <= w < n ==> #[trigger] layers[w] < n,
                forall|w: int| 0 <= w < v ==> placed(self.config, ids, layers@, w, #[trigger] positions[w]),
            decreases n - v,
        {
            let c = slot(nodes, &chars, &layers, v);
            let layer = layers[v];
            assert(layers[v as int] < n);
            let sx: u64 = self.config.node_spacing_x as u64;
            let sy: u64 = self.config.layer_spacing_y as u64;
            let cx: u64 = c as u64;
            let ly: u64 = layer as u64;
            assert(cx * sx <= 0xFFFF_FFFF * 0xFFFF_FFFF) by (nonlinear_arith)
                requires
                    cx <= 0xFFFF_FFFF,
                    sx <= 0xFFFF_FFFF,
            ;
            assert(ly * sy <= 0xFFFF_FFFF * 0xFFFF_FFFF) by (nonlinear_arith)
                requires
                    ly <= 0xFFFF_FFFF,
                    sy <= 0xFFFF_FFFF,
            ;
            let x: u64 = self.config.offset_x as u64 + cx * sx;
            let y: u64 = self.config.offset_y as u64 + ly * sy;
            positions.push(NodePosition { x, y, layer });
            v += 1;
        }
        proof {
            assert(layers_of(positions@) =~= layers@);
            let named = named_edges_view(edges@);
            assert forall|w: int| 0 <= w < n && #[trigger] is_repetition(ids, w) implies positions[w].layer
                == 0 by {
                let u = choose|u: int| 0 <= u < w && ids[u] == ids[w];
                lemma_repetition_is_isolated(self.config, ids, named, positions@, u, w);
            }
        }
        positions
    }
}

/// The position of the node with the given identity, if there is such a
/// node.
pub fn position_of(nodes: &[String], positions: &Vec<NodePosition>, id: &String) -> (r: Option<NodePosition>)
    requires
        positions.len() == nodes.len(),
    ensures
        match r {
            Some(p) => ids_view(nodes@).contains(id@) && p == positions[index_of(ids_view(nodes@), id@)],
            None => !ids_view(nodes@).contains(id@),
        },
{
    match find_node(nodes, id) {
        Some(i) => Some(positions[i]),
        None => None,
    }
}

proof fn lemma_count_before_grows(ids: Seq<Seq<char>>, layers: Seq<usize>, u: int, v: int, k: int)
    requires
        ids.len() == layers.len(),
        0 <= u < ids.len(),
        0 <= v < ids.len(),
        0 <= k <= ids.len(),
        layers[u] == layers[v],
        lex_less(ids[u], ids[v]),
    ensures
        count_before(ids, layers, u, k) <= count_before(ids, layers, v, k),
        k > u ==> count_before(ids, layers, u, k) < count_before(ids, layers, v, k),
    decreases k,
{
    if k > 0 {
        lemma_count_before_grows(ids, layers, u, v, k - 1);
        let w = k - 1;
        if lex_less(ids[w], ids[u]) {
            lemma_lex_transitive(ids[w], ids[u], ids[v]);
        }
        lemma_lex_irreflexive(ids[u]);
    }
}

/// Within a layer the nodes stand in the order of their identities: of two
/// nodes of one layer, the one whose identity comes first has the smaller
/// place and never the greater `x`; its `x` is smaller as soon as the
/// horizontal spacing is positive.
pub proof fn lemma_order_within_layer(
    config: LayoutConfig,
    ids: Seq<Seq<char>>,
    layers: Seq<usize>,
    u: int,
    v: int,
    pu: NodePosition,
    pv: NodePosition,
)
    requires
        ids.len() == layers.len(),
        0 <= u < ids.len(),
        0 <= v < ids.len(),
        placed(config, ids, layers, u, pu),
        placed(config, ids, layers, v, pv),
        pu.layer == pv.layer,
        lex_less(ids[u], ids[v]),
    ensures
        slot_of(ids, layers, u) < slot_of(ids, layers, v),
        pu.x <= pv.x,
        config.node_spacing_x > 0 ==> pu.x < pv.x,
        pu.y == pv.y,
{
    lemma_count_before_grows(ids, layers, u, v, ids.len() as int);
    let a = slot_of(ids, layers, u) as int;
    let b = slot_of(ids, layers, v) as int;
    let s = config.node_spacing_x as int;
    assert(a * s <= b * s && (s > 0 ==> a * s < b * s)) by (nonlinear_arith)
        requires
            a < b,
            s >= 0,
    ;
}

/// Two nodes of one layer with different identities never share an `x`,
/// provided that the horizontal spacing is positive.
pub proof fn lemma_distinct_within_layer(
    config: LayoutConfig,
    ids: Seq<Seq<char>>,
    layers: Seq<usize>,
    u: int,
    v: int,
    pu: NodePosition,
    pv: NodePosition,
)
    requires
        ids.len() == layers.len(),
        0 <= u < ids.len(),
        0 <= v < ids.len(),
        placed(config, ids, layers, u, pu),
        placed(config, ids, layers, v, pv),
        pu.layer == pv.layer,
        ids[u] != ids[v],
        config.node_spacing_x > 0,
    ensures
        pu.x != pv.x,
{
    lemma_lex_total(ids[u], ids[v]);
    if lex_less(ids[u], ids[v]) {
        lemma_order_within_layer(config, ids, layers, u, v, pu, pv);
    } else {
        lemma_order_within_layer(config, ids, layers, v, u, pv, pu);
    }
}

/// A lower layer lies strictly above a higher one: of two nodes, the one in
/// the smaller layer has the smaller `y`, provided that the vertical spacing
/// is positive.
pub proof fn lemma_layers_descend(
    config: LayoutConfig,
    ids: Seq<Seq<char>>,
    layers: Seq<usize>,
    u: int,
    v: int,
    pu: NodePosition,
    pv: NodePosition,
)
    requires
        placed(config, ids, layers, u, pu),
        placed(config, ids, layers, v, pv),
        pu.layer < pv.layer,
        config.layer_spacing_y > 0,
    ensures
        pu.y < pv.y,
{
    let a = pu.layer as int;
    let b = pv.layer as int;
    let s = config.layer_spacing_y as int;
    assert(a * s < b * s) by (nonlinear_arith)
        requires
            a < b,
            s > 0,
    ;
}

/// What `calculate_positions` returns for the given nodes and edges under
/// the given configuration.
pub open spec fn is_layout(
    config: LayoutConfig,
    ids: Seq<Seq<char>>,
    edges: Seq<(Seq<char>, Seq<char>)>,
    positions: Seq<NodePosition>,
) -> bool {
    &&& positions.len() == ids.len()
    &&& is_layering(layers_of(positions), ids.len() as int, resolved_edges(ids, edges))
    &&& forall|v: int|
        0 <= v < ids.len() ==> placed(config, ids, layers_of(positions), v, #[trigger] positions[v])
}

/// Every edge between known nodes joins two node numbers.
pub proof fn lemma_resolved_edges_in_range(ids: Seq<Seq<char>>, edges: Seq<(Seq<char>, Seq<char>)>)
    ensures
        edges_in_range(ids.len() as int, resolved_edges(ids, edges)),
    decreases edges.len(),
{
    if edges.len() > 0 {
        lemma_resolved_edges_in_range(ids, edges.drop_last());
        let a = index_of(ids, edges.last().0);
        let b = index_of(ids, edges.last().1);
        if a >= 0 && b >= 0 {
            assert(is_first_index(ids, edges.last().0, a));
            assert(is_first_index(ids, edges.last().1, b));
        }
    }
}

/// The identity of node `v` already stands earlier in the list.
pub open spec fn is_repetition(ids: Seq<Seq<char>>, v: int) -> bool {
    exists|u: int| 0 <= u < v && ids[u] == ids[v]
}

/// A node whose identity already stands earlier in the list is the end of no
/// edge: an identity at the end of an edge means the first node that has it.
pub proof fn lemma_repetition_has_no_edges(
    ids: Seq<Seq<char>>,
    edges: Seq<(Seq<char>, Seq<char>)>,
    u: int,
    v: int,
)
    requires
        0 <= u < v < ids.len(),
        ids[u] == ids[v],
    ensures
        forall|i: int|
            0 <= i < resolved_edges(ids, edges).len() ==> (#[trigger] resolved_edges(ids, edges)[i]).0 != v
                && resolved_edges(ids, edges)[i].1 != v,
        !has_incoming(resolved_edges(ids, edges), v),
    decreases edges.len(),
{
    let resolved = resolved_edges(ids, edges);
    if edges.len() > 0 {
        lemma_repetition_has_no_edges(ids, edges.drop_last(), u, v);
        let a = index_of(ids, edges.last().0);
        let b = index_of(ids, edges.last().1);
        if a >= 0 && b >= 0 {
            assert(is_first_index(ids, edges.last().0, a));
            assert(is_first_index(ids, edges.last().1, b));
        }
    }
    if has_incoming(resolved, v) {
        let w = choose|w: int| #[trigger] has_edge(resolved, w, v);
        let i = choose|i: int| 0 <= i < resolved.len() && resolved[i] == (w, v);
        assert(resolved[i].1 == v);
    }
}

/// Where an identity stands more than once in the list of nodes, every node
/// after the first that has it is placed as a node without edges: in layer
/// zero, at `y = offset_y`.
pub proof fn lemma_repetition_is_isolated(
    config: LayoutConfig,
    ids: Seq<Seq<char>>,
    edges: Seq<(Seq<char>, Seq<char>)>,
    positions: Seq<NodePosition>,
    u: int,
    v: int,
)
    requires
        is_layout(config, ids, edges, positions),
        0 <= u < v < ids.len(),
        ids[u] == ids[v],
    ensures
        positions[v].layer == 0,
        positions[v].y == config.offset_y,
{
    let resolved = resolved_edges(ids, edges);
    let layers = layers_of(positions);
    let n = ids.len() as int;
    lemma_repetition_has_no_edges(ids, edges, u, v);
    if is_acyclic(n, resolved) {
        assert(layered_by_predecessors(layers, resolved, v));
    } else {
        assert(is_seed(n, resolved, v));
        assert(layered_by_distance(layers, resolved, v));
    }
    assert(placed(config, ids, layers, v, positions[v]));
}

/// Two nodes of one layer that have the same identity have the same place in
/// it, and so the same coordinates.
pub proof fn lemma_same_identity_same_place(
    config: LayoutConfig,
    ids: Seq<Seq<char>>,
    layers: Seq<usize>,
    u: int,
    v: int,
    pu: NodePosition,
    pv: NodePosition,
)
    requires
        ids.len() == layers.len(),
        0 <= u < ids.len(),
        0 <= v < ids.len(),
        placed(config, ids, layers, u, pu),
        placed(config, ids, layers, v, pv),
        pu.layer == pv.layer,
        ids[u] == ids[v],
    ensures
        pu.x == pv.x,
        pu.y == pv.y,
{
    lemma_count_before_same(ids, layers, u, v, ids.len() as int);
}

proof fn lemma_count_before_same(ids: Seq<Seq<char>>, layers: Seq<usize>, u: int, v: int, k: int)
    requires
        ids.len() == layers.len(),
        0 <= u < ids.len(),
        0 <= v < ids.len(),
        0 <= k <= ids.len(),
        layers[u] == layers[v],
        ids[u] == ids[v],
    ensures
        count_before(ids, layers, u, k) == count_before(ids, layers, v, k),
    decreases k,
{
    if k > 0 {
        lemma_count_before_same(ids, layers, u, v, k - 1);
    }
}

/// The layout is determined by its input: two results for the same nodes,
/// edges and configuration are the same, position by position.
pub proof fn lemma_layout_is_unique(
    config: LayoutConfig,
    ids: Seq<Seq<char>>,
    edges: Seq<(Seq<char>, Seq<char>)>,
    first: Seq<NodePosition>,
    second: Seq<NodePosition>,
)
    requires
        is_layout(config, ids, edges, first),
        is_layout(config, ids, edges, second),
    ensures
        first == second,
{
    lemma_resolved_edges_in_range(ids, edges);
    lemma_layering_is_unique(
        layers_of(first),
        layers_of(second),
        ids.len() as int,
        resolved_edges(ids, edges),
    );
    assert forall|v: int| 0 <= v < ids.len() implies first[v] == second[v] by {
        assert(placed(config, ids, layers_of(first), v, first[v]));
        assert(placed(config, ids, layers_of(second), v, second[v]));
    }
    assert(first =~= second);
}

/// The nodes of a group stand in the order of their identities: none comes
/// before one that stands earlier.
pub open spec fn is_sorted_group(ids: Seq<Seq<char>>, group: Seq<usize>) -> bool {
    forall|i: int, j: int|
        0 <= i < j < group.len() ==> !lex_less(ids[#[trigger] group[j] as int], ids[#[trigger] group[i] as int])
}

/// `group` holds each of the first `upto` nodes of layer `l` once, and no
/// other node, in the order of their identities.
pub open spec fn is_group_of(
    ids: Seq<Seq<char>>,
    layers: Seq<usize>,
    l: int,
    group: Seq<usize>,
    upto: int,
) -> bool {
    &&& forall|i: int| 0 <= i < group.len() ==> (#[trigger] group[i]) < upto && layers[group[i] as int] == l
    &&& forall|i: int, j: int| 0 <= i < j < group.len() ==> group[i] != group[j]
    &&& forall|v: usize| v < upto && layers[v as int] == l ==> #[trigger] group.contains(v)
    &&& is_sorted_group(ids, group)
}

/// The groups as sequences of node numbers.
pub open spec fn groups_view(groups: Seq<Vec<usize>>) -> Seq<Seq<usize>> {
    groups.map_values(|g: Vec<usize>| g@)
}

/// One group for each layer from zero to the greatest layer in use; group
/// `l` holds the nodes of layer `l` in the order of their identities.
pub open spec fn is_grouping(ids: Seq<Seq<char>>, layers: Seq<usize>, groups: Seq<Seq<usize>>) -> bool {
    &&& groups.len() >= 1
    &&& forall|v: int| 0 <= v < layers.len() ==> #[trigger] layers[v] < groups.len()
    &&& groups.len() > 1 ==> exists|v: int| 0 <= v < layers.len() && #[trigger] layers[v] == groups.len() - 1
    &&& forall|l: int|
        0 <= l < groups.len() ==> is_group_of(ids, layers, l, #[trigger] groups[l], layers.len() as int)
}

/// Puts node `v` into a sorted group, behind the nodes that do not come
/// after it.
fn insert_sorted(nodes: &[String], chars: &Vec<Vec<char>>, group: &Vec<usize>, v: usize) -> (r: Vec<
    usize,
>)
    requires
        segments_view(chars@) == ids_view(nodes@),
        v < nodes.len(),
        forall|i: int| 0 <= i < group.len() ==> (#[trigger] group[i]) < nodes.len(),
        is_sorted_group(ids_view(nodes@), group@),
    ensures
        is_sorted_group(ids_view(nodes@), r@),
        exists|p: int| 0 <= p <= group.len() && r@ == group@.insert(p, v),
{
    let ghost ids = ids_view(nodes@);
    let mut r: Vec<usize> = Vec::new();
    let mut p: usize = 0;
    let mut go = true;
    while go && p < group.len()
        invariant
            p <= group.len(),
            v < nodes.len(),
            ids == ids_view(nodes@),
            ids == segments_view(chars@),
            forall|i: int| 0 <= i < group.len() ==> (#[trigger] group[i]) < nodes.len(),
            r@ == group@.take(p as int),
            forall|i: int| 0 <= i < p ==> !lex_less(ids[v as int], ids[#[trigger] group[i] as int]),
            !go ==> p < group.len() && lex_less(ids[v as int], ids[group[p as int] as int]),
        decreases (group.len() - p) + (if go { 1int } else { 0int }),
    {
        let e = group[p];
        assert(segments_view(chars@).len() == chars.len() && ids_view(nodes@).len() == nodes.len());
        assert(segments_view(chars@)[v as int] == chars[v as int]@ && segments_view(chars@)[e as int]
            == chars[e as int]@);
        if chars_less(&chars[v], &chars[e]) {
            go = false;
        } else {
            r.push(e);
            proof {
                assert(group@.take(p as int + 1) =~= group@.take(p as int).push(e));
            }
            p += 1;
        }
    }
    let ghost at = p as int;
    r.push(v);
    let mut q: usize = p;
    while q < group.len()
        invariant
            0 <= at <= q <= group.len(),
            r@ == group@.take(at).push(v) + group@.subrange(at, q as int),
        decreases group.len() - q,
    {
        r.push(group[q]);
        proof {
            assert(group@.subrange(at, q as int + 1) =~= group@.subrange(at, q as int).push(group[q as int]));
            assert(group@.take(at).push(v) + group@.subrange(at, q as int + 1) =~= (group@.take(at).push(v)
                + group@.subrange(at, q as int)).push(group[q as int]));
        }
        q += 1;
    }
    proof {
        assert(r@ =~= group@.insert(at, v));
        assert forall|i: int, j: int| 0 <= i < j < r.len() implies !lex_less(
            ids[#[trigger] r[j] as int],
            ids[#[trigger] r[i] as int],
        ) by {
            if j < at {
                assert(r[i] == group[i] && r[j] == group[j]);
            } else if j == at {
                assert(r[i] == group[i]);
            } else if i < at {
                assert(r[i] == group[i] && r[j] == group[j - 1]);
            } else if i == at {
                assert(r[j] == group[j - 1]);
                let first = group[at];
                assert(lex_less(ids[v as int], ids[first as int]));
                if j - 1 > at {
                    assert(!lex_less(ids[group[j - 1] as int], ids[first as int]));
                }
                if lex_less(ids[r[j] as int], ids[v as int]) {
                    lemma_lex_transitive(ids[r[j] as int], ids[v as int], ids[first as int]);
                    lemma_lex_irreflexive(ids[first as int]);
                }
            } else {
                assert(r[i] == group[i - 1] && r[j] == group[j - 1]);
            }
        }
    }
    r
}

/// Groups the nodes by layer and orders each group by identity. The result
/// holds node numbers; there is a group for each layer up to the greatest
/// one that occurs, and a single empty group if there are no nodes.
pub fn group_by_layer(nodes: &[String], layers: &Vec<usize>) -> (groups: Vec<Vec<usize>>)
    requires
        nodes.len() == layers.len(),
        forall|v: int| 0 <= v < layers.len() ==> #[trigger] layers[v] < usize::MAX,
    ensures
        is_grouping(ids_view(nodes@), layers@, groups_view(groups@)),
{
    let ghost ids = ids_view(nodes@);
    let chars = identity_chars(nodes);
    let n = layers.len();
    let mut top: usize = 0;
    let mut i: usize = 0;
    while i < n
        invariant
            i <= n,
            n == layers.len(),
            forall|v: int| 0 <= v < i ==> #[trigger] layers[v] <= top,
            top > 0 ==> exists|v: int| 0 <= v < i && #[trigger] layers[v] == top,
        decreases n - i,
    {
        if layers[i] > top {
            top = layers[i];
        }
        i += 1;
    }
    let mut groups: Vec<Vec<usize>> = Vec::new();
    let mut l: usize = 0;
    while l <= top
        invariant
            l <= top + 1,
            top < usize::MAX,
            groups.len() == l,
            forall|k: int| 0 <= k < l ==> (#[trigger] groups[k]).len() == 0,
        decreases top + 1 - l,
    {
        groups.push(Vec::new());
        l += 1;
    }
    let mut v: usize = 0;
    while v < n
        invariant
            v <= n,
            n == layers.len(),
            n == nodes.len(),
            ids == ids_view(nodes@),
            ids == segments_view(chars@),
            groups.len() == top + 1,
            forall|w: int| 0 <= w < n ==> #[trigger] layers[w] <= top,
            forall|k: int|
                0 <= k < groups.len() ==> is_group_of(ids, layers@, k, (#[trigger] groups[k])@, v as int),
        decreases n - v,
    {
        let at = layers[v];
        assert(layers[v as int] <= top);
        let ghost before = groups@;
        assert(is_group_of(ids, layers@, at as int, groups[at as int]@, v as int));
        let grown = insert_sorted(nodes, &chars, &groups[at], v);
        let ghost old_group = groups[at as int]@;
        proof {
            let p = choose|p: int| 0 <= p <= old_group.len() && grown@ == old_group.insert(p, v);
            assert forall|i: int| 0 <= i < grown.len() implies (#[trigger] grown[i]) < v + 1 && layers[grown[i] as int]
                == at by {
                if i < p {
                    assert(grown[i] == old_group[i]);
                } else if i > p {
                    assert(grown[i] == old_group[i - 1]);
                }
            }
            assert forall|i: int, j: int| 0 <= i < j < grown.len() implies grown[i] != grown[j] by {
                let a = if i < p { i } else { i - 1 };
                let b = if j < p { j } else { j - 1 };
                if i != p && j != p {
                    assert(grown[i] == old_group[a] && grown[j] == old_group[b]);
                } else if i == p {
                    assert(grown[j] == old_group[b]);
                } else {
                    assert(grown[i] == old_group[a]);
                }
            }
            assert forall|w: usize| w < v + 1 && layers[w as int] == at implies #[trigger] grown@.contains(
                w,
            ) by {
                if w == v {
                    assert(grown[p] == w);
                } else {
                    assert(old_group.contains(w));
                    let i = choose|i: int| 0 <= i < old_group.len() && old_group[i] == w;
                    if i < p {
                        assert(grown[i] == w);
                    } else {
                        assert(grown[i + 1] == w);
                    }
                }
            }
        }
        groups.set(at, grown);
        proof {
            assert forall|k: int| 0 <= k < groups.len() implies is_group_of(
                ids,
                layers@,
                k,
                (#[trigger] groups[k])@,
                v + 1,
            ) by {
                if k != at {
                    assert(groups[k] == before[k]);
                    assert(is_group_of(ids, layers@, k, before[k]@, v as int));
                }
            }
        }
        v += 1;
    }
    proof {
        let gv = groups_view(groups@);
        assert forall|k: int| 0 <= k < gv.len() implies is_group_of(
            ids,
            layers@,
            k,
            #[trigger] gv[k],
            layers.len() as int,
        ) by {
            assert(gv[k] == groups[k]@);
        }
    }
    groups
}

proof fn lemma_count_before_is_length(
    ids: Seq<Seq<char>>,
    layers: Seq<usize>,
    v: int,
    k: int,
    list: Seq<usize>,
)
    requires
        ids.len() == layers.len(),
        ids.len() <= usize::MAX,
        0 <= v < ids.len(),
        0 <= k <= ids.len(),
        forall|i: int, j: int| 0 <= i < j < list.len() ==> list[i] != list[j],
        forall|i: int|
            0 <= i < list.len() ==> (#[trigger] list[i]) < k && layers[list[i] as int] == layers[v] && lex_less(
                ids[list[i] as int],
                ids[v],
            ),
        forall|w: usize|
            w < k && layers[w as int] == layers[v] && lex_less(ids[w as int], ids[v]) ==> #[trigger] list.contains(
                w,
            ),
    ensures
        count_before(ids, layers, v, k) == list.len(),
    decreases k,
{
    if k == 0 {
        if list.len() > 0 {
            assert(list[0] < k);
        }
    } else {
        let w = (k - 1) as usize;
        if layers[w as int] == layers[v] && lex_less(ids[w as int], ids[v]) {
            assert(list.contains(w));
            let at = choose|at: int| 0 <= at < list.len() && list[at] == w;
            let rest = list.remove(at);
            assert forall|i: int| 0 <= i < rest.len() implies (#[trigger] rest[i]) < k - 1 && layers[rest[i] as int]
                == layers[v] && lex_less(ids[rest[i] as int], ids[v]) by {
                let from = if i < at { i } else { i + 1 };
                assert(rest[i] == list[from]);
                assert(list[from] != list[at]);
            }
            assert forall|i: int, j: int| 0 <= i < j < rest.len() implies rest[i] != rest[j] by {
                let a = if i < at { i } else { i + 1 };
                let b = if j < at { j } else { j + 1 };
                assert(rest[i] == list[a] && rest[j] == list[b]);
            }
            assert forall|x: usize|
                x < k - 1 && layers[x as int] == layers[v] && lex_less(
                    ids[x as int],
                    ids[v],
                ) implies #[trigger] rest.contains(x) by {
                assert(list.contains(x));
                let j = choose|j: int| 0 <= j < list.len() && list[j] == x;
                assert(j != at);
                if j < at {
                    assert(rest[j] == x);
                } else {
                    assert(rest[j - 1] == x);
                }
            }
            lemma_count_before_is_length(ids, layers, v, k - 1, rest);
        } else {
            assert forall|i: int| 0 <= i < list.len() implies (#[trigger] list[i]) < k - 1 by {
                assert(list[i] != w);
            }
            lemma_count_before_is_length(ids, layers, v, k - 1, list);
        }
    }
}

/// Where no two nodes share an identity, the place of a node in the group of
/// its layer is the place that its `x` is computed from.
pub proof fn lemma_group_index_is_slot(
    ids: Seq<Seq<char>>,
    layers: Seq<usize>,
    groups: Seq<Seq<usize>>,
    l: int,
    i: int,
)
    requires
        ids.len() == layers.len(),
        ids.len() <= usize::MAX,
        forall|u: int, v: int| 0 <= u < v < ids.len() ==> ids[u] != ids[v],
        is_grouping(ids, layers, groups),
        0 <= l < groups.len(),
        0 <= i < groups[l].len(),
    ensures
        slot_of(ids, layers, groups[l][i] as int) == i,
{
    let g = groups[l];
    let n = ids.len() as int;
    assert(is_group_of(ids, layers, l, g, n));
    let v = g[i] as int;
    let list = g.take(i);
    assert forall|j: int| 0 <= j < list.len() implies (#[trigger] list[j]) < n && layers[list[j] as int]
        == layers[v] && lex_less(ids[list[j] as int], ids[v]) by {
        assert(list[j] == g[j]);
        assert(g[j] != g[i]);
        assert(!lex_less(ids[g[i] as int], ids[g[j] as int]));
        lemma_lex_total(ids[g[j] as int], ids[g[i] as int]);
    }
    assert forall|a: int, b: int| 0 <= a < b < list.len() implies list[a] != list[b] by {
        assert(list[a] == g[a] && list[b] == g[b]);
    }
    assert forall|w: usize|
        w < n && layers[w as int] == layers[v] && lex_less(ids[w as int], ids[v]) implies #[trigger] list.contains(
            w,
        ) by {
        assert(g.contains(w));
        let j = choose|j: int| 0 <= j < g.len() && g[j] == w;
        lemma_lex_irreflexive(ids[v]);
        if j > i {
            assert(!lex_less(ids[g[j] as int], ids[g[i] as int]));
        }
        assert(j < i);
        assert(list[j] == w);
    }
    lemma_count_before_is_length(ids, layers, v, n, list);
}

} // verus!
