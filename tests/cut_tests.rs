use aig_cuts::aig::AIG;
use aig_cuts::cut::{compute_node_cuts, cut_union, filter_minimal_cuts, is_subset, same_leaves};
use aig_cuts::cut_enumerator::CutEnumerator;
use aig_cuts::signal::Signal;

fn s(index: usize) -> Signal {
    Signal::new(index, false)
}

fn sorted(cuts: &[Vec<usize>]) -> Vec<Vec<usize>> {
    cuts.iter()
        .map(|c| {
            let mut c = c.clone();
            c.sort();
            c
        })
        .collect()
}

fn cuts_of(e: &CutEnumerator, id: usize) -> Vec<Vec<usize>> {
    let p = e.topo_order.iter().position(|&x| x == id).unwrap();
    sorted(&e.cuts[p])
}

fn inputs(n: usize) -> Vec<Signal> {
    (1..=n).map(s).collect()
}

#[test]
fn single_gate_two_leaf_cut() {
    let mut aig = AIG::new();
    aig.create_and(s(1), s(2), 3);
    let mut e = CutEnumerator::new(&aig);
    e.enumerate_cuts(2, &inputs(2));
    assert_eq!(cuts_of(&e, 3), vec![vec![1, 2], vec![3]]);
    assert_eq!(cuts_of(&e, 1), vec![vec![1]]);
    assert_eq!(cuts_of(&e, 2), vec![vec![2]]);
    assert_eq!(e.num_inputs, 2);
}

#[test]
fn single_gate_k1_only_trivial() {
    let mut aig = AIG::new();
    aig.create_and(s(1), s(2), 3);
    let mut e = CutEnumerator::new(&aig);
    e.enumerate_cuts(1, &inputs(2));
    assert_eq!(cuts_of(&e, 3), vec![vec![3]]);
}

#[test]
fn chain_cuts() {
    let mut aig = AIG::new();
    let g4 = aig.create_and(s(1), s(2), 4);
    aig.create_and(g4, s(3), 5);
    let mut e = CutEnumerator::new(&aig);
    e.enumerate_cuts(3, &inputs(3));
    assert_eq!(cuts_of(&e, 4), vec![vec![1, 2], vec![4]]);
    assert_eq!(cuts_of(&e, 5), vec![vec![1, 2, 3], vec![3, 4], vec![5]]);
}

#[test]
fn chain_cuts_k2() {
    let mut aig = AIG::new();
    let g4 = aig.create_and(s(1), s(2), 4);
    aig.create_and(g4, s(3), 5);
    let mut e = CutEnumerator::new(&aig);
    e.enumerate_cuts(2, &inputs(3));
    assert_eq!(cuts_of(&e, 5), vec![vec![3, 4], vec![5]]);
}

#[test]
fn missing_target_gives_empty_result() {
    let mut aig = AIG::new();
    aig.create_and(s(1), s(2), 3);
    let mut e = CutEnumerator::new(&aig);
    let r = e.calculate_cuts_single_node(4, &inputs(2), 99);
    assert!(r.is_empty());
}

#[test]
fn single_node_matches_enumeration() {
    let mut aig = AIG::new();
    let g4 = aig.create_and(s(1), s(2), 4);
    let g5 = aig.create_and(g4, s(3).invert(), 5);
    aig.create_and(g5, g4.invert(), 6);
    let mut e = CutEnumerator::new(&aig);
    let r = e.calculate_cuts_single_node(3, &inputs(3), 5);
    assert_eq!(sorted(&r), vec![vec![1, 2, 3], vec![3, 4], vec![5]]);
    assert_eq!(*e.topo_order.last().unwrap(), 5);
    let r6 = e.calculate_cuts_single_node(3, &inputs(3), 6);
    let mut all = CutEnumerator::new(&aig);
    all.enumerate_cuts(3, &inputs(3));
    assert_eq!(sorted(&r6), cuts_of(&all, 6));
}

#[test]
fn single_node_for_input_and_constant() {
    let mut aig = AIG::new();
    aig.create_and(s(1), s(2), 4);
    let mut e = CutEnumerator::new(&aig);
    assert_eq!(e.calculate_cuts_single_node(2, &inputs(3), 3), vec![vec![3]]);
    assert_eq!(e.calculate_cuts_single_node(2, &inputs(3), 1), vec![vec![1]]);
    let empty = AIG::new();
    let mut e2 = CutEnumerator::new(&empty);
    assert_eq!(e2.calculate_cuts_single_node(2, &inputs(2), 2), vec![vec![2]]);
}

#[test]
fn graph_without_gates_uses_inputs() {
    let aig = AIG::new();
    let mut e = CutEnumerator::new(&aig);
    let ins = vec![s(1), s(2), s(1)];
    e.enumerate_cuts(4, &ins);
    assert_eq!(e.topo_order, vec![1, 2]);
    assert_eq!(e.cuts, vec![vec![vec![1]], vec![vec![2]]]);
}

#[test]
fn cut_table_laws_on_shared_graph() {
    // x1..x4; 5 = x1 & x2; 6 = x2 & x3; 7 = 5 & 6; 8 = 7 & !x4; 9 = 5 & 8
    let mut aig = AIG::new();
    let g5 = aig.create_and(s(1), s(2), 5);
    let g6 = aig.create_and(s(2), s(3), 6);
    let g7 = aig.create_and(g5, g6, 7);
    let g8 = aig.create_and(g7, s(4).invert(), 8);
    aig.create_and(g5, g8, 9);
    for k in 1..=4 {
        let mut e = CutEnumerator::new(&aig);
        e.enumerate_cuts(k, &inputs(4));
        for (p, &id) in e.topo_order.iter().enumerate() {
            let cuts = sorted(&e.cuts[p]);
            assert_eq!(*cuts.last().unwrap(), vec![id]);
            for c in &cuts {
                assert!(c.len() <= k);
            }
            for a in 0..cuts.len() {
                for b in 0..cuts.len() {
                    if a != b {
                        assert_ne!(cuts[a], cuts[b]);
                        assert!(!cuts[a].iter().all(|x| cuts[b].contains(x)));
                    }
                }
            }
            if aig.node(id).is_none() {
                assert_eq!(cuts, vec![vec![id]]);
            }
        }
    }
    let mut e = CutEnumerator::new(&aig);
    e.enumerate_cuts(3, &inputs(4));
    assert_eq!(
        cuts_of(&e, 7),
        vec![vec![1, 2, 3], vec![1, 2, 6], vec![2, 3, 5], vec![5, 6], vec![7]]
    );
}

#[test]
fn union_and_subset_helpers() {
    let a = vec![3, 1];
    let b = vec![1, 2];
    let mut u = cut_union(&a, &b);
    u.sort();
    assert_eq!(u, vec![1, 2, 3]);
    assert!(is_subset(&vec![1], &a));
    assert!(!is_subset(&b, &a));
    assert!(same_leaves(&vec![1, 3], &a));
    assert!(!same_leaves(&vec![1], &a));
}

#[test]
fn compute_node_cuts_respects_bound() {
    let left = vec![vec![1, 2], vec![4]];
    let right = vec![vec![3]];
    assert_eq!(sorted(&compute_node_cuts(&left, &right, 3)), vec![vec![1, 2, 3], vec![3, 4]]);
    assert_eq!(sorted(&compute_node_cuts(&left, &right, 2)), vec![vec![3, 4]]);
    assert!(compute_node_cuts(&left, &right, 1).is_empty());
}

#[test]
fn filter_drops_dominated_and_duplicates() {
    let all = vec![vec![1, 2, 3], vec![2, 1], vec![1, 2], vec![4]];
    assert_eq!(sorted(&filter_minimal_cuts(&all)), vec![vec![1, 2], vec![4]]);
    let empty: Vec<Vec<usize>> = Vec::new();
    assert!(filter_minimal_cuts(&empty).is_empty());
}

#[test]
fn chain_cut_lists_in_order() {
    let mut aig = AIG::new();
    let g4 = aig.create_and(s(1), s(2), 4);
    aig.create_and(g4, s(3), 5);
    let mut e = CutEnumerator::new(&aig);
    e.enumerate_cuts(3, &inputs(3));
    assert_eq!(e.topo_order, vec![1, 2, 4, 3, 5]);
    assert_eq!(sorted(&e.cuts[4]), vec![vec![1, 2, 3], vec![3, 4], vec![5]]);
}

#[test]
fn compute_node_cuts_keeps_order_and_repeats() {
    let left = vec![vec![1], vec![2]];
    let right = vec![vec![2], vec![1]];
    let r = sorted(&compute_node_cuts(&left, &right, 2));
    assert_eq!(r, vec![vec![1, 2], vec![1], vec![2], vec![1, 2]]);
}

#[test]
fn filter_keeps_first_occurrence_order() {
    let all = vec![vec![5, 6], vec![3], vec![6, 5], vec![1, 3], vec![7]];
    let once = filter_minimal_cuts(&all);
    assert_eq!(sorted(&once), vec![vec![5, 6], vec![3], vec![7]]);
    assert_eq!(filter_minimal_cuts(&once), once);
}

#[test]
fn gateless_graph_lists_inputs_in_order() {
    let aig = AIG::new();
    let mut e = CutEnumerator::new(&aig);
    e.enumerate_cuts(2, &vec![s(3), s(1), s(3), s(2)]);
    assert_eq!(e.topo_order, vec![3, 1, 2]);
}

#[test]
fn missing_target_clears_table() {
    let mut aig = AIG::new();
    aig.create_and(s(1), s(2), 3);
    let mut e = CutEnumerator::new(&aig);
    e.enumerate_cuts(2, &inputs(2));
    assert!(e.calculate_cuts_single_node(2, &inputs(2), 42).is_empty());
    assert!(e.cuts.is_empty());
}

#[test]
fn unused_input_table_holds_only_target() {
    let mut aig = AIG::new();
    aig.create_and(s(1), s(2), 4);
    let mut e = CutEnumerator::new(&aig);
    e.calculate_cuts_single_node(2, &inputs(3), 3);
    assert_eq!(e.topo_order, vec![3]);
    assert_eq!(e.cuts, vec![vec![vec![3]]]);
}
