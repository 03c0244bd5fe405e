use atomic_flow_engine::layout::{LayoutConfig, SugiyamaLayout};
use atomic_flow_engine::paths::{build_links, find_matching_node, resolve_import_path};

#[test]
fn resolves_sibling_import() {
    assert_eq!(resolve_import_path("src/components/Button.tsx", "./Icon"), "src/components/Icon");
}

#[test]
fn resolves_parent_import() {
    assert_eq!(
        resolve_import_path("src/components/Button.tsx", "../utils/helpers"),
        "src/utils/helpers"
    );
}

#[test]
fn resolves_alias_import() {
    assert_eq!(resolve_import_path("src/components/Button.tsx", "@/hooks/useAuth"), "src/hooks/useAuth");
}

#[test]
fn alias_import_is_not_normalised() {
    assert_eq!(resolve_import_path("src/a.ts", "@/x/../y/./z"), "src/x/../y/./z");
    assert_eq!(resolve_import_path("src/a.ts", "@scope/pkg"), "@scope/pkg");
}

#[test]
fn only_the_leading_alias_is_replaced() {
    assert_eq!(resolve_import_path("x.ts", "@/a/@/b"), "src/a/@/b");
    assert_eq!(resolve_import_path("src/deep/x.ts", "@/@/"), "src/@/");
    assert_eq!(resolve_import_path("x.ts", "@x@/y"), "@x@/y");
    assert_eq!(resolve_import_path("x.ts", "@"), "@");
    assert_eq!(resolve_import_path("x.ts", "@/"), "src/");
}

#[test]
fn going_up_past_the_root_is_not_an_error() {
    assert_eq!(resolve_import_path("a.ts", "../../x"), "x");
    assert_eq!(resolve_import_path("src/a.ts", "../.."), "");
    assert_eq!(resolve_import_path("a.ts", "./b"), "b");
    assert_eq!(resolve_import_path("", "./b"), "b");
}

#[test]
fn empty_segments_of_the_import_are_kept() {
    assert_eq!(resolve_import_path("src/a.ts", "./x//y"), "src/x//y");
    assert_eq!(resolve_import_path("src//lib/a.ts", "./x"), "src/lib/x");
}

fn known() -> Vec<String> {
    vec!["src/utils/helpers.ts".to_string(), "src/hooks/index.tsx".to_string()]
}

#[test]
fn matches_with_extension() {
    assert_eq!(
        find_matching_node("src/utils/helpers", &known()),
        Some("src/utils/helpers.ts".to_string())
    );
}

#[test]
fn matches_index_file() {
    assert_eq!(find_matching_node("src/hooks", &known()), Some("src/hooks/index.tsx".to_string()));
}

#[test]
fn no_match_for_a_package() {
    assert_eq!(find_matching_node("lodash", &known()), None);
}

#[test]
fn exact_match_and_priority_of_endings() {
    let ids = vec![
        "m/index.js".to_string(),
        "m.jsx".to_string(),
        "m.js".to_string(),
        "m".to_string(),
    ];
    assert_eq!(find_matching_node("m", &ids), Some("m".to_string()));
    assert_eq!(find_matching_node("m", &ids[..3]), Some("m.js".to_string()));
    assert_eq!(find_matching_node("m", &ids[..2]), Some("m.jsx".to_string()));
    assert_eq!(find_matching_node("m", &ids[..1]), Some("m/index.js".to_string()));
    assert_eq!(find_matching_node("m", &[]), None);
}

#[test]
fn links_are_built_from_internal_imports_only() {
    let ids: Vec<String> = ["src/components/Button.tsx", "src/utils/helpers.ts", "src/hooks/index.tsx"]
        .iter()
        .map(|s| s.to_string())
        .collect();
    let raws: Vec<String> = ["react", "../utils/helpers", "./missing", "@/hooks", "", "../utils/helpers"]
        .iter()
        .map(|s| s.to_string())
        .collect();
    let links = build_links("src/components/Button.tsx", &raws, &ids);
    let from = "src/components/Button.tsx".to_string();
    assert_eq!(
        links,
        vec![
            (from.clone(), "src/utils/helpers.ts".to_string()),
            (from.clone(), "src/hooks/index.tsx".to_string()),
            (from.clone(), "src/utils/helpers.ts".to_string()),
        ]
    );
}

#[test]
fn pipeline_gives_the_same_result_twice() {
    let ids: Vec<String> = ["src/a.ts", "src/b.ts", "src/c/index.ts"].iter().map(|s| s.to_string()).collect();
    let run = || {
        let mut edges = build_links("src/a.ts", &["./b".to_string(), "./c".to_string()], &ids);
        edges.extend(build_links("src/b.ts", &["./c".to_string()], &ids));
        SugiyamaLayout::new(LayoutConfig::default()).calculate_positions(&ids, &edges)
    };
    let first = run();
    assert_eq!(first, run());
    let layers: Vec<usize> = first.iter().map(|p| p.layer).collect();
    assert_eq!(layers, vec![0, 1, 2]);
    assert_eq!((first[2].x, first[2].y), (50, 350));
}
