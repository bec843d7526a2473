use depcheck::graph::{
    dependency_paths, from_metadata, DepEdge, DependencyNode, GraphError, KindOptions, NodeKind, ResolvedGraph, ResolvedNode,
    ResolvedPackage,
};
use depcheck::version::SemVer;

fn package(name: &str, version: SemVer) -> Option<ResolvedPackage> {
    Some(ResolvedPackage { name: name.to_string(), version, is_registry: false })
}

fn normal(target: usize) -> DepEdge {
    DepEdge { target, normal: true, build: false, dev: false }
}

fn resolved(nodes: Vec<ResolvedNode>, members: Vec<usize>) -> ResolvedGraph {
    ResolvedGraph { resolve: Some(nodes), workspace_members: members }
}

/// chain-root → chain-mid → chain-leaf.
fn chain() -> ResolvedGraph {
    resolved(
        vec![
            ResolvedNode { package: package("chain-root", SemVer::new(0, 1, 0)), deps: vec![normal(1)] },
            ResolvedNode { package: package("chain-mid", SemVer::new(0, 1, 0)), deps: vec![normal(2)] },
            ResolvedNode { package: package("chain-leaf", SemVer::new(0, 1, 0)), deps: vec![] },
        ],
        vec![0],
    )
}

/// dep-kinds-root with a normal, a build-only and a dev-only dependency.
fn dep_kinds() -> ResolvedGraph {
    resolved(
        vec![
            ResolvedNode {
                package: package("dep-kinds-root", SemVer::new(0, 1, 0)),
                deps: vec![
                    normal(1),
                    DepEdge { target: 2, normal: false, build: true, dev: false },
                    DepEdge { target: 3, normal: false, build: false, dev: true },
                ],
            },
            ResolvedNode { package: package("normal-dep", SemVer::new(0, 1, 0)), deps: vec![] },
            ResolvedNode { package: package("build-only-dep", SemVer::new(0, 1, 0)), deps: vec![] },
            ResolvedNode { package: package("dev-only-dep", SemVer::new(0, 1, 0)), deps: vec![] },
        ],
        vec![0],
    )
}

/// member-a and member-b both depend on mm-shared.
fn multi_member() -> ResolvedGraph {
    resolved(
        vec![
            ResolvedNode { package: package("member-a", SemVer::new(0, 1, 0)), deps: vec![normal(2)] },
            ResolvedNode { package: package("member-b", SemVer::new(0, 1, 0)), deps: vec![normal(2)] },
            ResolvedNode { package: package("mm-shared", SemVer::new(0, 1, 0)), deps: vec![] },
        ],
        vec![0, 1],
    )
}

fn find<'a>(nodes: &'a [DependencyNode], name: &str) -> &'a DependencyNode {
    nodes.iter().find(|n| n.name == name).unwrap_or_else(|| panic!("{name} missing from graph output"))
}

fn defaults() -> KindOptions {
    KindOptions { include_build: false, include_dev: false }
}

#[test]
fn bfs_assigns_increasing_depth_along_a_chain() {
    let nodes = from_metadata(&chain(), defaults()).unwrap();
    assert!(nodes.iter().all(|n| n.name != "chain-root"));
    assert_eq!(find(&nodes, "chain-mid").depth, 1);
    assert_eq!(find(&nodes, "chain-leaf").depth, 2);
}

#[test]
fn transitive_dependent_count_includes_the_whole_upward_chain() {
    let nodes = from_metadata(&chain(), defaults()).unwrap();
    let mid = find(&nodes, "chain-mid");
    let leaf = find(&nodes, "chain-leaf");
    assert_eq!(mid.dependent_count, 1);
    assert_eq!(mid.transitive_dependent_count, 1);
    assert_eq!(leaf.dependent_count, 1);
    assert_eq!(leaf.transitive_dependent_count, 2);
}

#[test]
fn transitive_dependent_count_is_never_less_than_direct() {
    for graph in [chain(), dep_kinds(), multi_member()] {
        let nodes = from_metadata(&graph, defaults()).unwrap();
        for n in &nodes {
            assert!(n.transitive_dependent_count >= n.dependent_count, "{}", n.name);
        }
    }
}

#[test]
fn direct_vs_transitive_matches_depth_one() {
    let nodes = from_metadata(&chain(), defaults()).unwrap();
    assert!(find(&nodes, "chain-mid").is_direct);
    assert!(!find(&nodes, "chain-leaf").is_direct);
}

#[test]
fn dependent_count_reflects_direct_parents_in_the_resolved_graph() {
    let nodes = from_metadata(&chain(), defaults()).unwrap();
    assert_eq!(find(&nodes, "chain-leaf").dependent_count, 1);
}

#[test]
fn dev_and_build_only_dependencies_are_excluded() {
    let nodes = from_metadata(&dep_kinds(), defaults()).unwrap();
    assert!(nodes.iter().any(|n| n.name == "normal-dep"));
    assert!(nodes.iter().all(|n| n.name != "dev-only-dep"));
    assert!(nodes.iter().all(|n| n.name != "build-only-dep"));
}

#[test]
fn normal_dep_is_always_classified_normal() {
    let nodes = from_metadata(&dep_kinds(), defaults()).unwrap();
    assert_eq!(find(&nodes, "normal-dep").kind, NodeKind::Normal);
}

#[test]
fn include_build_surfaces_build_only_dep_classified_as_build() {
    let nodes = from_metadata(&dep_kinds(), KindOptions { include_build: true, include_dev: false }).unwrap();
    assert_eq!(find(&nodes, "build-only-dep").kind, NodeKind::Build);
    assert!(nodes.iter().all(|n| n.name != "dev-only-dep"));
}

#[test]
fn include_dev_surfaces_dev_only_dep_classified_as_dev() {
    let nodes = from_metadata(&dep_kinds(), KindOptions { include_build: false, include_dev: true }).unwrap();
    assert_eq!(find(&nodes, "dev-only-dep").kind, NodeKind::Dev);
    assert!(nodes.iter().all(|n| n.name != "build-only-dep"));
}

#[test]
fn include_build_and_dev_surface_both_with_correct_kinds() {
    let nodes = from_metadata(&dep_kinds(), KindOptions { include_build: true, include_dev: true }).unwrap();
    assert_eq!(find(&nodes, "normal-dep").kind, NodeKind::Normal);
    assert_eq!(find(&nodes, "build-only-dep").kind, NodeKind::Build);
    assert_eq!(find(&nodes, "dev-only-dep").kind, NodeKind::Dev);
}

#[test]
fn unreachable_packages_are_dropped_not_left_at_max_depth() {
    let nodes = from_metadata(&dep_kinds(), defaults()).unwrap();
    assert!(nodes.iter().all(|n| n.depth != usize::MAX));
    assert_eq!(nodes.len(), 1);
}

#[test]
fn bfs_starts_from_every_workspace_member_not_just_one() {
    let nodes = from_metadata(&multi_member(), defaults()).unwrap();
    assert!(nodes.iter().all(|n| n.name != "member-a" && n.name != "member-b"));
    let shared = find(&nodes, "mm-shared");
    assert_eq!(shared.depth, 1);
    assert_eq!(shared.dependent_count, 2);
    assert!(shared.is_direct);
}

#[test]
fn duplicate_resolved_versions_of_the_same_crate_both_survive() {
    let graph = resolved(
        vec![
            ResolvedNode { package: package("chain-root", SemVer::new(0, 1, 0)), deps: vec![normal(1), normal(3)] },
            ResolvedNode { package: package("chain-mid", SemVer::new(0, 1, 0)), deps: vec![normal(2)] },
            ResolvedNode { package: package("chain-leaf", SemVer::new(0, 1, 0)), deps: vec![] },
            ResolvedNode { package: package("chain-leaf", SemVer::new(9, 9, 9)), deps: vec![] },
        ],
        vec![0],
    );
    let nodes = from_metadata(&graph, defaults()).unwrap();
    let leaves: Vec<&DependencyNode> = nodes.iter().filter(|n| n.name == "chain-leaf").collect();
    assert_eq!(leaves.len(), 2);
    assert!(leaves.iter().any(|n| n.version.to_text() == "9.9.9" && n.depth == 1));
    assert!(leaves.iter().any(|n| n.version.to_text() == "0.1.0" && n.depth == 2));
}

#[test]
fn nodes_come_by_depth_then_name() {
    let nodes = from_metadata(&chain(), defaults()).unwrap();
    let names: Vec<&str> = nodes.iter().map(|n| n.name.as_str()).collect();
    assert_eq!(names, ["chain-mid", "chain-leaf"]);
}

#[test]
fn a_graph_without_resolution_is_an_error() {
    let graph = ResolvedGraph { resolve: None, workspace_members: vec![] };
    assert_eq!(from_metadata(&graph, defaults()).err(), Some(GraphError::MissingResolve));
    assert_eq!(
        GraphError::MissingResolve.message(),
        "no dependency resolution found — is this a valid Cargo project?"
    );
}

fn path_names(path: &[depcheck::graph::PathStep]) -> Vec<String> {
    path.iter().map(|step| step.name.clone()).collect()
}

#[test]
fn dependency_paths_follow_the_chain_from_the_member() {
    let paths = dependency_paths(&chain(), defaults(), "chain-leaf", 5).unwrap();
    assert_eq!(paths.len(), 1);
    assert_eq!(path_names(&paths[0]), vec!["chain-root", "chain-mid", "chain-leaf"]);
    assert!(paths[0].iter().all(|step| step.kind == NodeKind::Normal));
}

#[test]
fn dependency_paths_come_shortest_first_and_stop_at_the_limit() {
    // root → a → leaf, root → leaf, root → b → c → leaf
    let graph = resolved(
        vec![
            ResolvedNode { package: package("root", SemVer::new(1, 0, 0)), deps: vec![normal(1), normal(2), normal(3)] },
            ResolvedNode { package: package("a", SemVer::new(1, 0, 0)), deps: vec![normal(5)] },
            ResolvedNode { package: package("leaf", SemVer::new(2, 3, 4)), deps: vec![] },
            ResolvedNode { package: package("b", SemVer::new(1, 0, 0)), deps: vec![normal(4)] },
            ResolvedNode { package: package("c", SemVer::new(1, 0, 0)), deps: vec![normal(2)] },
            ResolvedNode { package: package("leaf", SemVer::new(9, 0, 0)), deps: vec![] },
        ],
        vec![0],
    );
    let all = dependency_paths(&graph, defaults(), "leaf", 10).unwrap();
    let lengths: Vec<usize> = all.iter().map(|p| p.len()).collect();
    assert_eq!(lengths, vec![2, 3, 4]);
    assert_eq!(path_names(&all[0]), vec!["root", "leaf"]);
    assert_eq!(all[0][1].version.to_text(), "2.3.4");
    assert_eq!(path_names(&all[1]), vec!["root", "a", "leaf"]);
    assert_eq!(all[1][2].version.to_text(), "9.0.0");
    assert_eq!(path_names(&all[2]), vec!["root", "b", "c", "leaf"]);
    let limited = dependency_paths(&graph, defaults(), "leaf", 2).unwrap();
    assert_eq!(limited.len(), 2);
    assert_eq!(dependency_paths(&graph, defaults(), "leaf", 0).unwrap().len(), 0);
}

#[test]
fn dependency_paths_mark_build_and_dev_hops() {
    let kinds = KindOptions { include_build: true, include_dev: true };
    let build = dependency_paths(&dep_kinds(), kinds, "build-only-dep", 5).unwrap();
    assert_eq!(build.len(), 1);
    assert_eq!(build[0][0].kind, NodeKind::Normal);
    assert_eq!(build[0][1].kind, NodeKind::Build);
    let dev = dependency_paths(&dep_kinds(), kinds, "dev-only-dep", 5).unwrap();
    assert_eq!(dev[0][1].kind, NodeKind::Dev);
    let hidden = dependency_paths(&dep_kinds(), defaults(), "dev-only-dep", 5).unwrap();
    assert!(hidden.is_empty());
}

#[test]
fn dependency_paths_need_a_resolution() {
    let graph = ResolvedGraph { resolve: None, workspace_members: vec![] };
    assert!(matches!(dependency_paths(&graph, defaults(), "x", 5), Err(GraphError::MissingResolve)));
}

#[test]
fn dependency_paths_of_equal_length_are_all_different() {
    // root → a → leaf and root → b → leaf: both two hops, both returned.
    let graph = resolved(
        vec![
            ResolvedNode { package: package("root", SemVer::new(1, 0, 0)), deps: vec![normal(1), normal(2)] },
            ResolvedNode { package: package("a", SemVer::new(1, 0, 0)), deps: vec![normal(3)] },
            ResolvedNode { package: package("b", SemVer::new(1, 0, 0)), deps: vec![normal(3)] },
            ResolvedNode { package: package("leaf", SemVer::new(1, 0, 0)), deps: vec![] },
        ],
        vec![0, 0],
    );
    let paths = dependency_paths(&graph, defaults(), "leaf", 2).unwrap();
    assert_eq!(paths.len(), 2);
    assert_eq!(path_names(&paths[0]), vec!["root", "a", "leaf"]);
    assert_eq!(path_names(&paths[1]), vec!["root", "b", "leaf"]);
    let all = dependency_paths(&graph, defaults(), "leaf", 10).unwrap();
    assert_eq!(all.len(), 2);
}
