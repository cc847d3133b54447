use spreadsheet::common_types::Index;
use spreadsheet::dependancy_graph::DependancyGraph;

fn at(x: usize, y: usize) -> Index {
    Index { x, y }
}

fn position(order: &[Index], i: Index) -> usize {
    order.iter().position(|&k| k == i).expect("node missing from the order")
}

#[test]
fn dependants_are_found_through_chains() {
    let mut g = DependancyGraph::new();
    // B1 refers to A1, C1 refers to B1, D1 refers to A1.
    g.add_node(at(1, 0), &vec![at(0, 0)]);
    g.add_node(at(2, 0), &vec![at(1, 0)]);
    g.add_node(at(3, 0), &vec![at(0, 0)]);
    let mut deps = g.get_all_dependants(at(0, 0));
    deps.sort();
    assert_eq!(deps, vec![at(1, 0), at(2, 0), at(3, 0)]);
    assert_eq!(g.get_all_dependants(at(2, 0)), vec![]);
    assert_eq!(g.get_all_dependants(at(9, 9)), vec![]);
}

#[test]
fn topological_order_puts_references_first() {
    let mut g = DependancyGraph::new();
    g.add_node(at(2, 0), &vec![at(1, 0), at(0, 0)]);
    g.add_node(at(1, 0), &vec![at(0, 0)]);
    g.add_node(at(0, 0), &vec![]);
    let split = g.topological_sort();
    assert!(split.cycles.is_empty());
    assert_eq!(split.sorted.len(), 3);
    assert!(position(&split.sorted, at(0, 0)) < position(&split.sorted, at(1, 0)));
    assert!(position(&split.sorted, at(1, 0)) < position(&split.sorted, at(2, 0)));
}

#[test]
fn cycles_and_what_follows_them_are_set_apart() {
    let mut g = DependancyGraph::new();
    g.add_node(at(0, 0), &vec![at(1, 0)]);
    g.add_node(at(1, 0), &vec![at(0, 0)]);
    g.add_node(at(2, 0), &vec![at(1, 0)]);
    g.add_node(at(3, 0), &vec![]);
    let split = g.topological_sort();
    let mut cycles = split.cycles.clone();
    cycles.sort();
    assert_eq!(cycles, vec![at(0, 0), at(1, 0), at(2, 0)]);
    assert_eq!(split.sorted, vec![at(3, 0)]);
}

#[test]
fn removing_and_changing_edges() {
    let mut g = DependancyGraph::new();
    g.add_node(at(1, 0), &vec![at(0, 0)]);
    g.remove_node(at(1, 0));
    assert_eq!(g.get_all_dependants(at(0, 0)), vec![]);
    g.change_node(at(1, 0), &vec![at(0, 0), at(2, 0)]);
    assert_eq!(g.get_all_dependants(at(0, 0)), vec![at(1, 0)]);
    assert_eq!(g.get_all_dependants(at(2, 0)), vec![at(1, 0)]);
    g.change_node(at(1, 0), &vec![at(2, 0)]);
    assert_eq!(g.get_all_dependants(at(0, 0)), vec![]);
    let split = g.topological_sort();
    assert!(split.cycles.is_empty());
    assert_eq!(split.sorted.len(), 3);
}

#[test]
fn a_self_reference_is_a_cycle() {
    let mut g = DependancyGraph::new();
    g.add_node(at(0, 0), &vec![at(0, 0)]);
    assert_eq!(g.get_all_dependants(at(0, 0)), vec![at(0, 0)]);
    let split = g.topological_sort();
    assert_eq!(split.cycles, vec![at(0, 0)]);
    assert!(split.sorted.is_empty());
}
