use atomic_flow_engine::hex::{calculate_hex_layer, classify_lowered};
use atomic_flow_engine::layers::{assign_layers, build_graph, layers_by_breadth_first};
use atomic_flow_engine::layout::{
    find_node, group_by_layer, position_of, resolve_edges, LayoutConfig, NodePosition, SugiyamaLayout,
};

fn names(list: &[&str]) -> Vec<String> {
    list.iter().map(|s| s.to_string()).collect()
}

fn named_edges(list: &[(&str, &str)]) -> Vec<(String, String)> {
    list.iter().map(|(a, b)| (a.to_string(), b.to_string())).collect()
}

#[test]
fn test_sugiyama_layout() {
    let layout = SugiyamaLayout::new(LayoutConfig::default());

    let nodes = vec!["a".to_string(), "b".to_string(), "c".to_string()];
    let edges = vec![
        ("a".to_string(), "b".to_string()),
        ("a".to_string(), "c".to_string()),
    ];

    let positions = layout.calculate_positions(&nodes, &edges);

    assert_eq!(positions.len(), 3);
    assert_eq!(positions[0].layer, 0);
    assert_eq!(positions[1].layer, 1);
    assert_eq!(positions[2].layer, 1);
}

#[test]
fn test_hex_layer() {
    assert_eq!(calculate_hex_layer("src/components/Button.tsx"), "driving");
    assert_eq!(calculate_hex_layer("src/domain/User.ts"), "domain");
    assert_eq!(calculate_hex_layer("src/hooks/useAuth.ts"), "application");
    assert_eq!(calculate_hex_layer("src/api/client.ts"), "driven");
}

#[test]
fn hex_layer_ignores_case_and_has_a_default() {
    assert_eq!(calculate_hex_layer("SRC/VIEWS/Home.vue"), "driving");
    assert_eq!(calculate_hex_layer("src/Core/model.ts"), "domain");
    assert_eq!(calculate_hex_layer("README.md"), "default");
    assert_eq!(calculate_hex_layer(""), "default");
    // The earlier group wins when words of two groups occur.
    assert_eq!(calculate_hex_layer("src/api/pages/x.ts"), "driving");
    // Classification itself does not change the case.
    assert_eq!(classify_lowered("SRC/VIEWS"), "default");
    assert_eq!(classify_lowered("src/infra/db.ts"), "driven");
}

#[test]
fn default_config_values() {
    let c = LayoutConfig::default();
    assert_eq!(c.node_spacing_x, 200);
    assert_eq!(c.layer_spacing_y, 150);
    assert_eq!(c.offset_x, 50);
    assert_eq!(c.offset_y, 50);
}

#[test]
fn fan_out_positions_at_defaults() {
    let layout = SugiyamaLayout::new(LayoutConfig::default());
    let nodes = names(&["a", "b", "c"]);
    let edges = named_edges(&[("a", "b"), ("a", "c")]);
    let p = layout.calculate_positions(&nodes, &edges);
    assert_eq!(p[0], NodePosition { x: 50, y: 50, layer: 0 });
    assert_eq!(p[1], NodePosition { x: 50, y: 200, layer: 1 });
    assert_eq!(p[2], NodePosition { x: 250, y: 200, layer: 1 });
}

#[test]
fn order_within_layer_follows_identity_not_input_order() {
    let layout = SugiyamaLayout::new(LayoutConfig { node_spacing_x: 10, layer_spacing_y: 7, offset_x: 1, offset_y: 2 });
    let nodes = names(&["root", "zeta", "alpha", "Beta"]);
    let edges = named_edges(&[("root", "zeta"), ("root", "alpha"), ("root", "Beta")]);
    let p = layout.calculate_positions(&nodes, &edges);
    assert_eq!(p[0], NodePosition { x: 1, y: 2, layer: 0 });
    // "Beta" < "alpha" < "zeta" by code point.
    assert_eq!(p[3], NodePosition { x: 1, y: 9, layer: 1 });
    assert_eq!(p[2], NodePosition { x: 11, y: 9, layer: 1 });
    assert_eq!(p[1], NodePosition { x: 21, y: 9, layer: 1 });
}

#[test]
fn two_node_cycle_is_layered_from_the_first_node() {
    assert_eq!(assign_layers(2, &vec![(0, 1), (1, 0)]), vec![0, 1]);
    let layout = SugiyamaLayout::new(LayoutConfig::default());
    let p = layout.calculate_positions(&names(&["a", "b"]), &named_edges(&[("a", "b"), ("b", "a")]));
    assert_eq!(p[0].layer, 0);
    assert_eq!(p[1].layer, 1);
}

#[test]
fn longest_path_wins_on_a_diamond() {
    // 0 -> 1 -> 2 -> 3 and the shortcut 0 -> 3
    let layers = assign_layers(4, &vec![(0, 3), (0, 1), (1, 2), (2, 3)]);
    assert_eq!(layers, vec![0, 1, 2, 3]);
}

#[test]
fn duplicate_edges_do_not_add_layers() {
    let layers = assign_layers(2, &vec![(0, 1), (0, 1), (0, 1)]);
    assert_eq!(layers, vec![0, 1]);
}

#[test]
fn isolated_nodes_and_empty_graph() {
    assert_eq!(assign_layers(0, &vec![]), Vec::<usize>::new());
    assert_eq!(assign_layers(3, &vec![]), vec![0, 0, 0]);
    let layout = SugiyamaLayout::new(LayoutConfig::default());
    assert!(layout.calculate_positions(&[], &[]).is_empty());
}

#[test]
fn self_loop_terminates() {
    // Node 1 has only its own loop coming in, so node 0 is the only source.
    let layers = assign_layers(2, &vec![(1, 1)]);
    assert_eq!(layers, vec![0, 0]);
    let layers = assign_layers(1, &vec![(0, 0)]);
    assert_eq!(layers, vec![0]);
}

#[test]
fn cycle_behind_a_source_is_layered_by_distance() {
    // 0 -> 1 -> 2 -> 1, and 3 -> 4 -> 3 unreachable from the source 0.
    let edges = vec![(0, 1), (1, 2), (2, 1), (3, 4), (4, 3)];
    let layers = assign_layers(5, &edges);
    assert_eq!(layers, vec![0, 1, 2, 0, 0]);
}

#[test]
fn breadth_first_takes_the_shortest_way() {
    // Sources: 0. Cycle 2 <-> 3. Node 3 is reached directly and through 1, 2.
    let edges = vec![(0, 1), (1, 2), (2, 3), (3, 2), (0, 3)];
    let g = build_graph(4, &edges);
    let (layers, visited) = layers_by_breadth_first(&g, 4);
    assert_eq!(layers, vec![0, 1, 2, 1]);
    let mut seen = visited.clone();
    seen.sort();
    seen.dedup();
    assert_eq!(seen.len(), visited.len());
    assert_eq!(visited[0], 0);
}

#[test]
fn layering_twice_gives_the_same_layers() {
    let edges = vec![(0, 1), (1, 2), (2, 0), (2, 3)];
    assert_eq!(assign_layers(4, &edges), assign_layers(4, &edges));
    let edges = vec![(3, 1), (1, 2), (0, 2)];
    assert_eq!(assign_layers(4, &edges), assign_layers(4, &edges));
    assert_eq!(assign_layers(4, &edges), vec![0, 1, 2, 0]);
}

#[test]
fn edges_with_unknown_ends_are_dropped() {
    let nodes = names(&["a", "b"]);
    let edges = named_edges(&[("a", "b"), ("a", "x"), ("y", "b"), ("b", "a")]);
    assert_eq!(resolve_edges(&nodes, &edges), vec![(0, 1), (1, 0)]);
    assert_eq!(find_node(&nodes, &"b".to_string()), Some(1));
    assert_eq!(find_node(&nodes, &"c".to_string()), None);
}

#[test]
fn lower_layers_have_smaller_y() {
    let layout = SugiyamaLayout::new(LayoutConfig::default());
    let nodes = names(&["a", "b", "c", "d"]);
    let edges = named_edges(&[("a", "b"), ("b", "c"), ("a", "d")]);
    let p = layout.calculate_positions(&nodes, &edges);
    for u in 0..4 {
        for v in 0..4 {
            if p[u].layer < p[v].layer {
                assert!(p[u].y < p[v].y);
            }
            if u != v && p[u].layer == p[v].layer {
                assert_ne!(p[u].x, p[v].x);
            }
        }
    }
}

#[test]
fn groups_hold_each_layer_in_order_of_identity() {
    let nodes = names(&["root", "zeta", "alpha", "Beta", "leaf"]);
    let layers = vec![0, 1, 1, 1, 3];
    let groups = group_by_layer(&nodes, &layers);
    assert_eq!(groups, vec![vec![0], vec![3, 2, 1], vec![], vec![4]]);
    assert_eq!(group_by_layer(&[], &vec![]), vec![Vec::<usize>::new()]);
}

#[test]
fn positions_are_found_by_identity() {
    let layout = SugiyamaLayout::new(LayoutConfig::default());
    let nodes = names(&["a", "b", "c"]);
    let edges = named_edges(&[("a", "b"), ("a", "c")]);
    let positions = layout.calculate_positions(&nodes, &edges);
    assert_eq!(position_of(&nodes, &positions, &"a".to_string()).map(|p| p.layer), Some(0));
    assert_eq!(position_of(&nodes, &positions, &"b".to_string()).map(|p| p.layer), Some(1));
    assert_eq!(
        position_of(&nodes, &positions, &"c".to_string()),
        Some(NodePosition { x: 250, y: 200, layer: 1 })
    );
    assert_eq!(position_of(&nodes, &positions, &"d".to_string()), None);
}

#[test]
fn a_repeated_identity_is_a_node_without_edges() {
    let layout = SugiyamaLayout::new(LayoutConfig::default());
    let nodes = names(&["a", "b", "b", "c"]);
    let edges = named_edges(&[("a", "b"), ("b", "c")]);
    let p = layout.calculate_positions(&nodes, &edges);
    assert_eq!(p.len(), 4);
    assert_eq!(p[0], NodePosition { x: 50, y: 50, layer: 0 });
    assert_eq!(p[1], NodePosition { x: 50, y: 200, layer: 1 });
    // The second "b" has no edges: layer zero, behind "a".
    assert_eq!(p[2], NodePosition { x: 250, y: 50, layer: 0 });
    assert_eq!(p[3], NodePosition { x: 50, y: 350, layer: 2 });
    assert_eq!(resolve_edges(&nodes, &edges), vec![(0, 1), (1, 3)]);
}

#[test]
fn order_of_identities_is_the_order_of_strings() {
    let nodes = names(&["z", "\u{e9}", "a", "\u{65e5}\u{672c}", "\u{1f600}", "ab", "", "A"]);
    let layers = vec![0; 8];
    let groups = group_by_layer(&nodes, &layers);
    let mut expected: Vec<usize> = (0..8).collect();
    expected.sort_by(|&i, &j| nodes[i].cmp(&nodes[j]));
    assert_eq!(groups, vec![expected.clone()]);
    let layout = SugiyamaLayout::new(LayoutConfig::default());
    let p = layout.calculate_positions(&nodes, &[]);
    for (place, &v) in expected.iter().enumerate() {
        assert_eq!(p[v].x, 50 + 200 * place as u64);
    }
}
