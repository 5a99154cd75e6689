use aig_cuts::aig::AIG;
use aig_cuts::signal::Signal;

fn s(index: usize) -> Signal {
    Signal::new(index, false)
}

#[test]
fn signal_new_and_invert() {
    let x = Signal::new(4, false);
    assert_eq!(x.index, 4);
    assert!(!x.inverted);
    let y = x.invert();
    assert_eq!(y, Signal::new(4, true));
    assert_eq!(y.invert(), x);
}

#[test]
fn new_graph_is_empty() {
    let aig = AIG::new();
    assert!(aig.node_map.is_empty());
    assert!(aig.compute_table.is_empty());
}

#[test]
fn create_and_builds_canonical_gate() {
    let mut aig = AIG::new();
    let r = aig.create_and(s(2), Signal::new(1, true), 3);
    assert_eq!(r, s(3));
    assert_eq!(aig.node_map.len(), 1);
    let node = aig.node(3).unwrap();
    assert_eq!(node.left_signal, Signal::new(1, true));
    assert_eq!(node.right_signal, s(2));
    assert_eq!(aig.compute_table[0], (Signal::new(1, true), s(2), s(3)));
    assert!(aig.node(1).is_none());
}

#[test]
fn structural_hash_idempotence() {
    let mut aig = AIG::new();
    let first = aig.create_and(s(1), s(2), 3);
    let again = aig.create_and(s(1), s(2), 3);
    let swapped = aig.create_and(s(2), s(1), 3);
    assert_eq!(first, again);
    assert_eq!(first, swapped);
    assert_eq!(aig.node_map.len(), 1);
    assert_eq!(aig.compute_table.len(), 1);
}

#[test]
fn commutativity_on_fresh_table() {
    let mut aig = AIG::new();
    let r1 = aig.create_and(s(1), Signal::new(2, true), 10);
    let r2 = aig.create_and(Signal::new(2, true), s(1), 11);
    assert_eq!(r1, r2);
    assert_eq!(r1, s(10));
    assert_eq!(aig.node_map.len(), 1);
}

#[test]
fn reused_gate_is_not_inverted() {
    let mut aig = AIG::new();
    aig.create_and(s(1), s(2), 3);
    let r = aig.create_and(s(2), s(1), 9);
    assert_eq!(r, s(3));
}

#[test]
fn algebraic_simplification_rules() {
    let c0 = Signal::new(0, false);
    let c1 = Signal::new(0, true);
    let b = Signal::new(5, true);
    let x = s(7);
    let mut aig = AIG::new();
    assert_eq!(aig.create_and(c0, b, 20), c0);
    assert_eq!(aig.create_and(b, c0, 20), c0);
    assert_eq!(aig.create_and(c1, b, 20), b);
    assert_eq!(aig.create_and(b, c1, 20), b);
    assert_eq!(aig.create_and(x, x.invert(), 20), c0);
    assert_eq!(aig.create_and(x.invert(), x, 20), c0);
    assert_eq!(aig.create_and(x, x, 20), x);
    assert_eq!(aig.create_and(x.invert(), x.invert(), 20), x.invert());
    assert_eq!(aig.create_and(c1, c1, 20), c1);
    assert_eq!(aig.create_and(c0, c1, 20), c0);
    assert!(aig.node_map.is_empty());
}

#[test]
fn topological_order_puts_inputs_first() {
    let mut aig = AIG::new();
    let g4 = aig.create_and(s(1), s(2), 4);
    let g5 = aig.create_and(g4, s(3), 5);
    let g6 = aig.create_and(g5.invert(), g4, 6);
    assert_eq!(g6, s(6));
    let order = aig.topological_sort();
    let pos = |x: usize| order.iter().position(|&y| y == x).unwrap();
    assert_eq!(order.len(), 6);
    for (id, node) in &aig.node_map {
        assert!(pos(node.left_signal.index) < pos(*id));
        assert!(pos(node.right_signal.index) < pos(*id));
    }
    let mut sorted = order.clone();
    sorted.sort();
    assert_eq!(sorted, vec![1, 2, 3, 4, 5, 6]);
}

#[test]
fn topological_order_of_empty_graph() {
    let aig = AIG::new();
    assert!(aig.topological_sort().is_empty());
}

#[test]
fn topological_order_follows_creation() {
    let mut aig = AIG::new();
    let g4 = aig.create_and(s(1), s(2), 4);
    aig.create_and(g4, s(3), 5);
    assert_eq!(aig.topological_sort(), vec![1, 2, 4, 3, 5]);
}
