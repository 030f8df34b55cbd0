use dep_graph::closure::all_modules;
use dep_graph::module_graph::ModuleGraph;
use dep_graph::reference::all_referenced_modules;
use dep_graph::reference::primary_referenced_modules;

fn sorted(mut values: Vec<usize>) -> Vec<usize> {
    values.sort();
    values
}

#[test]
fn no_references_yields_nothing() {
    let graph = ModuleGraph::new(1);
    assert_eq!(all_referenced_modules(&graph, 0).unwrap(), Vec::<usize>::new());
    assert_eq!(primary_referenced_modules(&graph, 0).unwrap(), Vec::<usize>::new());
    assert_eq!(all_modules(&graph, 0).unwrap(), vec![0]);
}

#[test]
fn two_single_references_in_declaration_order() {
    // A has references r1, r2; r1 resolves to [B], r2 resolves to [C];
    // B and C have no references.
    let mut graph = ModuleGraph::new(3);
    let r1 = graph.add_single_module_reference(1).unwrap();
    let r2 = graph.add_single_module_reference(2).unwrap();
    assert!(graph.add_module_reference(0, r1));
    assert!(graph.add_module_reference(0, r2));
    assert_eq!(primary_referenced_modules(&graph, 0).unwrap(), vec![1, 2]);
    assert_eq!(all_referenced_modules(&graph, 0).unwrap(), vec![1, 2]);
    assert_eq!(sorted(all_modules(&graph, 0).unwrap()), vec![0, 1, 2]);
}

#[test]
fn primary_and_full_walk_coincide_without_further_references() {
    let mut graph = ModuleGraph::new(4);
    let r1 = graph.add_resolved_reference(vec![1, 2], Vec::new()).unwrap();
    let r2 = graph.add_single_module_reference(3).unwrap();
    assert!(graph.add_module_reference(0, r1));
    assert!(graph.add_module_reference(0, r2));
    let full = all_referenced_modules(&graph, 0).unwrap();
    let primary = primary_referenced_modules(&graph, 0).unwrap();
    assert_eq!(full, vec![1, 2, 3]);
    assert_eq!(primary, full);
}

#[test]
fn secondary_reference_reached_exactly_once() {
    // r resolves to no primary target but discovers r2; r2 resolves to [D].
    let mut graph = ModuleGraph::new(2);
    let r2 = graph.add_single_module_reference(1).unwrap();
    let r = graph.add_resolved_reference(Vec::new(), vec![r2]).unwrap();
    assert!(graph.add_module_reference(0, r));
    let full = all_referenced_modules(&graph, 0).unwrap();
    assert_eq!(full, vec![1]);
    // The shallow variant ignores the secondary reference entirely.
    assert_eq!(primary_referenced_modules(&graph, 0).unwrap(), Vec::<usize>::new());
    assert_eq!(sorted(all_modules(&graph, 0).unwrap()), vec![0, 1]);
}

#[test]
fn fifo_order_puts_secondary_discoveries_after_direct_references() {
    // A declares r1 then r2; r1 emits B and discovers r3; r2 emits C;
    // r3 emits D. FIFO order: B (from r1), C (from r2), D (from r3).
    let mut graph = ModuleGraph::new(4);
    let r3 = graph.add_single_module_reference(3).unwrap();
    let r1 = graph.add_resolved_reference(vec![1], vec![r3]).unwrap();
    let r2 = graph.add_single_module_reference(2).unwrap();
    assert!(graph.add_module_reference(0, r1));
    assert!(graph.add_module_reference(0, r2));
    assert_eq!(all_referenced_modules(&graph, 0).unwrap(), vec![1, 2, 3]);
    assert_eq!(primary_referenced_modules(&graph, 0).unwrap(), vec![1, 2]);
}

#[test]
fn duplicates_are_kept_by_single_unit_traversals() {
    let mut graph = ModuleGraph::new(2);
    let r = graph.add_single_module_reference(1).unwrap();
    assert!(graph.add_module_reference(0, r));
    assert!(graph.add_module_reference(0, r));
    assert_eq!(all_referenced_modules(&graph, 0).unwrap(), vec![1, 1]);
    assert_eq!(primary_referenced_modules(&graph, 0).unwrap(), vec![1, 1]);
    // Only the closure deduplicates.
    assert_eq!(sorted(all_modules(&graph, 0).unwrap()), vec![0, 1]);
}

#[test]
fn cyclic_module_graph_closes_with_each_module_once() {
    // A references B, B references A.
    let mut graph = ModuleGraph::new(2);
    let to_b = graph.add_single_module_reference(1).unwrap();
    let to_a = graph.add_single_module_reference(0).unwrap();
    assert!(graph.add_module_reference(0, to_b));
    assert!(graph.add_module_reference(1, to_a));
    assert_eq!(sorted(all_modules(&graph, 0).unwrap()), vec![0, 1]);
    assert_eq!(sorted(all_modules(&graph, 1).unwrap()), vec![0, 1]);
}

#[test]
fn closure_is_independent_of_reference_declaration_order() {
    let mut forward = ModuleGraph::new(3);
    let r1 = forward.add_single_module_reference(1).unwrap();
    let r2 = forward.add_single_module_reference(2).unwrap();
    assert!(forward.add_module_reference(0, r1));
    assert!(forward.add_module_reference(0, r2));

    let mut swapped = ModuleGraph::new(3);
    let s1 = swapped.add_single_module_reference(1).unwrap();
    let s2 = swapped.add_single_module_reference(2).unwrap();
    assert!(swapped.add_module_reference(0, s2));
    assert!(swapped.add_module_reference(0, s1));

    // The ordered sequences differ, the closure set does not.
    assert_eq!(all_referenced_modules(&forward, 0).unwrap(), vec![1, 2]);
    assert_eq!(all_referenced_modules(&swapped, 0).unwrap(), vec![2, 1]);
    assert_eq!(
        sorted(all_modules(&forward, 0).unwrap()),
        sorted(all_modules(&swapped, 0).unwrap()),
    );
}

#[test]
fn failing_direct_reference_aborts_single_unit_traversals() {
    let mut graph = ModuleGraph::new(2);
    let good = graph.add_single_module_reference(1).unwrap();
    let bad = graph.add_failed_reference();
    assert!(graph.add_module_reference(0, good));
    assert!(graph.add_module_reference(0, bad));
    let full = all_referenced_modules(&graph, 0);
    assert!(full.is_err());
    assert_eq!(full.unwrap_err().reference, bad);
    let primary = primary_referenced_modules(&graph, 0);
    assert!(primary.is_err());
    assert_eq!(primary.unwrap_err().reference, bad);
}

#[test]
fn failing_secondary_reference_fails_the_closure_with_context() {
    // r discovers r2 and r2's resolution failed: the closure of the
    // owning module fails, annotated with the module being expanded,
    // and returns no partial set.
    let mut graph = ModuleGraph::new(2);
    let r2 = graph.add_failed_reference();
    let r = graph.add_resolved_reference(vec![1], vec![r2]).unwrap();
    assert!(graph.add_module_reference(0, r));
    let result = all_modules(&graph, 0);
    assert!(result.is_err());
    let error = result.unwrap_err();
    assert_eq!(error.module, 0);
    assert_eq!(error.reference, r2);
    assert_eq!(error.description(), "expanding references of module");
    // The shallow variant never chases r2, so it still succeeds.
    assert_eq!(primary_referenced_modules(&graph, 0).unwrap(), vec![1]);
}

#[test]
fn failure_deeper_in_the_graph_is_attributed_to_the_expanded_module() {
    // entry -> middle, and middle's own reference fails: the failure
    // names middle, not entry.
    let mut graph = ModuleGraph::new(2);
    let bad = graph.add_failed_reference();
    let to_middle = graph.add_single_module_reference(1).unwrap();
    assert!(graph.add_module_reference(0, to_middle));
    assert!(graph.add_module_reference(1, bad));
    let error = all_modules(&graph, 0).unwrap_err();
    assert_eq!(error.module, 1);
    assert_eq!(error.reference, bad);
}

#[test]
fn registration_is_refused_for_unknown_ids() {
    let mut graph = ModuleGraph::new(1);
    assert_eq!(graph.add_single_module_reference(1), None);
    assert_eq!(graph.add_resolved_reference(vec![0], vec![5]), None);
    let r = graph.add_single_module_reference(0).unwrap();
    assert!(!graph.add_module_reference(1, r));
    assert!(!graph.add_module_reference(0, r + 1));
    assert_eq!(graph.module_count(), 1);
    assert_eq!(graph.reference_count(), 1);
}
