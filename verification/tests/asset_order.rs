use dep_graph::output::all_assets_from_entries;
use dep_graph::output::get_referenced_assets;
use dep_graph::output::AssetGraph;

fn position(order: &[usize], asset: usize) -> usize {
    order.iter().position(|&a| a == asset).unwrap()
}

#[test]
fn empty_entries_yield_nothing() {
    let graph = AssetGraph::new();
    let entries: Vec<usize> = Vec::new();
    assert_eq!(all_assets_from_entries(&graph, &entries), Vec::<usize>::new());
}

#[test]
fn single_asset_without_references() {
    let mut graph = AssetGraph::new();
    let a = graph.add_asset();
    assert_eq!(all_assets_from_entries(&graph, &vec![a]), vec![a]);
    assert_eq!(get_referenced_assets(&graph, a), Vec::<usize>::new());
}

#[test]
fn get_referenced_assets_returns_the_declared_list() {
    let mut graph = AssetGraph::new();
    let a = graph.add_asset();
    let b = graph.add_asset();
    let c = graph.add_asset();
    assert!(graph.add_asset_reference(a, c));
    assert!(graph.add_asset_reference(a, b));
    assert_eq!(get_referenced_assets(&graph, a), vec![c, b]);
}

#[test]
fn chain_is_emitted_in_reverse_topological_order() {
    // a -> b -> c: every dependency comes before its dependent.
    let mut graph = AssetGraph::new();
    let a = graph.add_asset();
    let b = graph.add_asset();
    let c = graph.add_asset();
    assert!(graph.add_asset_reference(a, b));
    assert!(graph.add_asset_reference(b, c));
    assert_eq!(all_assets_from_entries(&graph, &vec![a]), vec![c, b, a]);
}

#[test]
fn shared_dependency_appears_exactly_once() {
    // Two entries both reference the same asset.
    let mut graph = AssetGraph::new();
    let e1 = graph.add_asset();
    let e2 = graph.add_asset();
    let shared = graph.add_asset();
    assert!(graph.add_asset_reference(e1, shared));
    assert!(graph.add_asset_reference(e2, shared));
    let order = all_assets_from_entries(&graph, &vec![e1, e2]);
    assert_eq!(order.len(), 3);
    assert_eq!(order.iter().filter(|&&a| a == shared).count(), 1);
    assert!(position(&order, shared) < position(&order, e1));
    assert!(position(&order, shared) < position(&order, e2));
}

#[test]
fn diamond_respects_all_dependency_positions() {
    // top -> left, right; left -> bottom; right -> bottom.
    let mut graph = AssetGraph::new();
    let top = graph.add_asset();
    let left = graph.add_asset();
    let right = graph.add_asset();
    let bottom = graph.add_asset();
    assert!(graph.add_asset_reference(top, left));
    assert!(graph.add_asset_reference(top, right));
    assert!(graph.add_asset_reference(left, bottom));
    assert!(graph.add_asset_reference(right, bottom));
    let order = all_assets_from_entries(&graph, &vec![top]);
    assert_eq!(order.len(), 4);
    assert!(position(&order, bottom) < position(&order, left));
    assert!(position(&order, bottom) < position(&order, right));
    assert!(position(&order, left) < position(&order, top));
    assert!(position(&order, right) < position(&order, top));
}

#[test]
fn cycle_terminates_with_each_member_exactly_once() {
    // a references b and b references a.
    let mut graph = AssetGraph::new();
    let a = graph.add_asset();
    let b = graph.add_asset();
    assert!(graph.add_asset_reference(a, b));
    assert!(graph.add_asset_reference(b, a));
    let order = all_assets_from_entries(&graph, &vec![a]);
    assert_eq!(order, vec![b, a]);
}

#[test]
fn unreachable_assets_are_not_emitted() {
    let mut graph = AssetGraph::new();
    let a = graph.add_asset();
    let b = graph.add_asset();
    let lone = graph.add_asset();
    assert!(graph.add_asset_reference(a, b));
    let order = all_assets_from_entries(&graph, &vec![a]);
    assert_eq!(order, vec![b, a]);
    assert!(!order.contains(&lone));
}

#[test]
fn asset_reference_is_refused_for_unknown_ids() {
    let mut graph = AssetGraph::new();
    let a = graph.add_asset();
    assert!(!graph.add_asset_reference(a, a + 1));
    assert!(!graph.add_asset_reference(a + 1, a));
    assert_eq!(graph.asset_count(), 1);
    assert_eq!(get_referenced_assets(&graph, a), Vec::<usize>::new());
}
