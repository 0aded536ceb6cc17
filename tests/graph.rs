use reinda::catalog::AssetId;
use reinda::dep_graph::{DepGraph, IncludeGraph};

fn graph(edges: &[(&str, &str)]) -> DepGraph {
    let mut g = DepGraph::new();
    for &(from, to) in edges {
        g.add_dependency(from, to);
    }
    g
}

fn sorted(edges: &[(&str, &str)]) -> Result<Vec<String>, Vec<String>> {
    graph(edges).topological_sort()
}

fn owned(v: &[&str]) -> Vec<String> {
    v.iter().map(|s| s.to_string()).collect()
}

fn assert_ok_one_of(actual: Result<Vec<String>, Vec<String>>, valid: &[&[&str]]) {
    let valid: Vec<Result<Vec<String>, Vec<String>>> = valid.iter().map(|v| Ok(owned(v))).collect();
    assert!(valid.contains(&actual), "{:?} is not in {:?}", actual, valid);
}

fn assert_err_one_of(actual: Result<Vec<String>, Vec<String>>, valid: &[&[&str]]) {
    let valid: Vec<Result<Vec<String>, Vec<String>>> = valid.iter().map(|v| Err(owned(v))).collect();
    assert!(valid.contains(&actual), "{:?} is not in {:?}", actual, valid);
}

#[test]
fn dep_graph_topological_sort_empty() {
    assert_ok_one_of(sorted(&[]), &[&[]]);
}

#[test]
fn dep_graph_topological_sort_dag() {
    assert_ok_one_of(sorted(&[("a", "b")]), &[&["b", "a"]]);
    assert_ok_one_of(sorted(&[("b", "a")]), &[&["a", "b"]]);
    assert_ok_one_of(sorted(&[("b", "a"), ("c", "b")]), &[&["a", "b", "c"]]);
    assert_ok_one_of(sorted(&[("c", "f"), ("a", "c")]), &[&["f", "c", "a"]]);
    assert_ok_one_of(sorted(&[("a", "b"), ("a", "c")]), &[&["b", "c", "a"], &["c", "b", "a"]]);
}

#[test]
fn dep_graph_topological_sort_cycles() {
    assert_err_one_of(
        sorted(&[("a", "b"), ("b", "c"), ("c", "a"), ("a", "e")]),
        &[&["a", "b", "c"], &["b", "c", "a"], &["c", "a", "b"]],
    );
    assert_err_one_of(
        sorted(&[
            ("a", "b"), ("b", "c"), ("c", "a"),
            ("b", "d"), ("d", "c"),
            ("d", "e"), ("e", "f"),
        ]),
        &[
            &["a", "b", "c"], &["b", "c", "a"], &["c", "a", "b"],
            &["d", "b", "c"], &["b", "c", "d"], &["c", "d", "b"],
            &["a", "b", "d", "c"], &["b", "d", "c", "a"],
            &["d", "c", "a", "b"], &["c", "a", "b", "d"],
        ],
    );
}

#[test]
fn dep_graph_isolated_assets_are_sorted_too() {
    let mut g = DepGraph::new();
    g.add_asset("x");
    g.add_dependency("a", "b");
    let order = g.topological_sort().unwrap();
    assert_eq!(order.len(), 3);
    assert!(order.contains(&"x".to_string()));
    let pos = |n: &str| order.iter().position(|s| s == n).unwrap();
    assert!(pos("b") < pos("a"));
}

#[test]
fn dep_graph_self_dependency_is_a_cycle() {
    assert_eq!(sorted(&[("a", "a")]), Err(owned(&["a"])));
}

fn include_graph(edges: &[(u32, u32)]) -> Result<Vec<AssetId>, Vec<AssetId>> {
    let mut g = IncludeGraph::new();
    for &(from, to) in edges {
        g.add_include(AssetId(from), AssetId(to));
    }
    g.topological_sort()
}

fn ids(v: &[u32]) -> Vec<AssetId> {
    v.iter().map(|&i| AssetId(i)).collect()
}

#[test]
fn include_graph_topological_sort_empty() {
    assert_eq!(include_graph(&[]), Ok(vec![]));
}

#[test]
fn include_graph_topological_sort_dag() {
    assert_eq!(include_graph(&[(0, 1)]), Ok(ids(&[1, 0])));
    assert_eq!(include_graph(&[(1, 0)]), Ok(ids(&[0, 1])));
    assert_eq!(include_graph(&[(1, 0), (2, 1)]), Ok(ids(&[0, 1, 2])));
    assert_eq!(include_graph(&[(2, 9), (0, 2)]), Ok(ids(&[9, 2, 0])));
    let actual = include_graph(&[(0, 1), (0, 2)]);
    assert!([Ok(ids(&[1, 2, 0])), Ok(ids(&[2, 1, 0]))].contains(&actual), "{:?}", actual);
}

#[test]
fn include_graph_topological_sort_cycles() {
    let actual = include_graph(&[(0, 1), (1, 2), (2, 0), (0, 4)]);
    let valid = [Err(ids(&[0, 1, 2])), Err(ids(&[1, 2, 0])), Err(ids(&[2, 0, 1]))];
    assert!(valid.contains(&actual), "{:?}", actual);

    let actual = include_graph(&[(0, 1), (1, 2), (2, 0), (1, 3), (3, 2), (3, 4), (4, 5)]);
    let valid = [
        Err(ids(&[0, 1, 2])), Err(ids(&[1, 2, 0])), Err(ids(&[2, 0, 1])),
        Err(ids(&[3, 1, 2])), Err(ids(&[1, 2, 3])), Err(ids(&[2, 3, 1])),
        Err(ids(&[0, 1, 3, 2])), Err(ids(&[1, 3, 2, 0])), Err(ids(&[3, 2, 0, 1])),
        Err(ids(&[2, 0, 1, 3])),
    ];
    assert!(valid.contains(&actual), "{:?}", actual);
}

#[test]
fn dep_graph_isolated_node_without_edges() {
    let mut g = DepGraph::new();
    g.add_asset("only");
    assert_eq!(g.topological_sort(), Ok(owned(&["only"])));
}
