use tinfoil::CycleError;
use tinfoil::Declaration;
use tinfoil::DepGraph;
use tinfoil::plan;

fn decl(id: u64, deps: Vec<u64>) -> Declaration {
    Declaration { id, deps }
}

#[test]
fn acyclic_declarations_get_an_order() {
    // 10 depends on 20 and 30, 20 depends on 30, 30 depends on nothing.
    let decls = vec![decl(10, vec![20, 30]), decl(20, vec![30]), decl(30, vec![])];
    let order = plan(&decls).unwrap();
    assert_eq!(order.len(), 3);
    let pos = |node: usize| order.iter().position(|v| *v == node).unwrap();
    assert!(pos(2) < pos(1));
    assert!(pos(1) < pos(0));
    assert!(pos(2) < pos(0));
}

#[test]
fn undeclared_identifiers_constrain_nothing() {
    // Dependencies on identifiers no declaration carries are parameter or
    // default slots: no edge, any order.
    let decls = vec![decl(7, vec![100, 200]), decl(8, vec![100])];
    let order = plan(&decls).unwrap();
    assert_eq!(order.len(), 2);
}

#[test]
fn empty_declaration_set_is_fine() {
    let decls: Vec<Declaration> = Vec::new();
    let order = plan(&decls).unwrap();
    assert!(order.is_empty());
}

#[test]
fn two_cycle_fails_construction() {
    // X depends on Y and Y depends on X.
    let decls = vec![decl(1, vec![2]), decl(2, vec![1])];
    let outcome = plan(&decls);
    assert!(matches!(outcome, Err(CycleError)));
}

#[test]
fn self_cycle_fails_construction() {
    let decls = vec![decl(5, vec![5])];
    let outcome = plan(&decls);
    assert!(matches!(outcome, Err(CycleError)));
}

#[test]
fn indirect_cycle_fails_construction() {
    let decls = vec![decl(1, vec![2]), decl(2, vec![3]), decl(3, vec![1])];
    let outcome = plan(&decls);
    assert!(matches!(outcome, Err(CycleError)));
}

#[test]
fn declaration_order_does_not_change_the_outcome() {
    let forwards = vec![decl(10, vec![20, 30]), decl(20, vec![30]), decl(30, vec![])];
    let backwards = vec![decl(30, vec![]), decl(20, vec![30]), decl(10, vec![20, 30])];
    let shuffled_deps = vec![decl(10, vec![30, 20]), decl(20, vec![30]), decl(30, vec![])];
    assert!(plan(&forwards).is_ok());
    assert!(plan(&backwards).is_ok());
    assert!(plan(&shuffled_deps).is_ok());

    let cycle_forwards = vec![decl(1, vec![2]), decl(2, vec![1]), decl(3, vec![])];
    let cycle_backwards = vec![decl(3, vec![]), decl(2, vec![1]), decl(1, vec![2])];
    assert!(plan(&cycle_forwards).is_err());
    assert!(plan(&cycle_backwards).is_err());
}

#[test]
fn graph_refuses_the_edge_that_closes_a_cycle() {
    let mut graph = DepGraph::new();
    let a = graph.add_node();
    let b = graph.add_node();
    let c = graph.add_node();
    assert!(graph.add_edge(a, b).is_ok());
    assert!(graph.add_edge(b, c).is_ok());
    let closing = graph.add_edge(c, a);
    assert!(matches!(closing, Err(CycleError)));
    // The refused edge left the graph unchanged, so a valid order remains.
    let order = graph.topological_order().unwrap();
    assert_eq!(order.len(), 3);
    let pos = |node: usize| order.iter().position(|v| *v == node).unwrap();
    assert!(pos(c) < pos(b));
    assert!(pos(b) < pos(a));
}

#[test]
fn graph_refuses_a_self_edge() {
    let mut graph = DepGraph::new();
    let a = graph.add_node();
    assert!(matches!(graph.add_edge(a, a), Err(CycleError)));
    let order = graph.topological_order().unwrap();
    assert_eq!(order, vec![a]);
}
