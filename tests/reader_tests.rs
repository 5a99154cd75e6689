use aig_cuts::aig::AIG;
use aig_cuts::cut_enumerator::CutEnumerator;
use aig_cuts::read_aiger::{build_graph, read_decimal, read_leb, to_signal, AigerError, AigerReader};
use aig_cuts::signal::Signal;
use aig_cuts::visualizer::AigVisualizer;

fn file(header: &str, gates: &[u8]) -> Vec<u8> {
    let mut v = header.as_bytes().to_vec();
    v.extend_from_slice(gates);
    v
}

#[test]
fn leb_decodes_two_bytes() {
    let bytes = vec![0x85, 0x01, 0x07];
    let mut pos = 0;
    assert_eq!(read_leb(&bytes, &mut pos), Ok(133));
    assert_eq!(pos, 2);
    assert_eq!(read_leb(&bytes, &mut pos), Ok(7));
    assert_eq!(pos, 3);
    assert_eq!(read_leb(&bytes, &mut pos), Err(AigerError::UnexpectedEnd));
}

#[test]
fn leb_errors() {
    let mut pos = 0;
    assert_eq!(read_leb(&vec![0x80, 0x80], &mut pos), Err(AigerError::UnexpectedEnd));
    let mut pos = 0;
    let long = vec![0xff; 12];
    let mut long = long;
    long.push(0x01);
    assert_eq!(read_leb(&long, &mut pos), Err(AigerError::Overflow));
}

#[test]
fn decimal_reads_digits() {
    let bytes = b"42 7".to_vec();
    let mut pos = 0;
    assert_eq!(read_decimal(&bytes, &mut pos), Some(42));
    assert_eq!(pos, 2);
    assert_eq!(read_decimal(&bytes, &mut pos), None);
}

#[test]
fn literal_to_signal() {
    assert_eq!(to_signal(6), Signal::new(3, false));
    assert_eq!(to_signal(7), Signal::new(3, true));
    assert_eq!(to_signal(1), Signal::new(0, true));
}

#[test]
fn reads_single_gate_file() {
    let bytes = file("aig 3 2 0 1 1\n7\n", &[2, 2]);
    let r = AigerReader::from_bytes(&bytes).unwrap();
    assert_eq!(*r.inputs(), vec![Signal::new(1, false), Signal::new(2, false)]);
    assert_eq!(*r.outputs(), vec![Signal::new(3, true)]);
    let node = r.aig().node(3).unwrap();
    assert_eq!(node.left_signal, Signal::new(1, false));
    assert_eq!(node.right_signal, Signal::new(2, false));
    let mut e = CutEnumerator::new(r.aig());
    e.enumerate_cuts(2, r.inputs());
    let p = e.topo_order.iter().position(|&x| x == 3).unwrap();
    assert_eq!(e.cuts[p].len(), 2);
}

#[test]
fn unknown_target_after_reading() {
    let bytes = file("aig 3 2 0 1 1\n6\n", &[2, 2]);
    let r = AigerReader::from_bytes(&bytes).unwrap();
    let mut e = CutEnumerator::new(r.aig());
    assert!(e.calculate_cuts_single_node(4, r.inputs(), 7).is_empty());
}

#[test]
fn reader_errors() {
    assert_eq!(AigerReader::from_bytes(&b"aag 1 1 0 1 0\n2\n".to_vec()).err(), Some(AigerError::InvalidHeader));
    assert_eq!(AigerReader::from_bytes(&b"aig 1 1 0\n".to_vec()).err(), Some(AigerError::InvalidHeader));
    assert_eq!(AigerReader::from_bytes(&b"aig 1 1 0 1 0\nx\n".to_vec()).err(), Some(AigerError::InvalidOutput));
    assert_eq!(AigerReader::from_bytes(&file("aig 3 2 0 1 1\n6\n", &[2])).err(), Some(AigerError::UnexpectedEnd));
    assert_eq!(AigerReader::from_bytes(&file("aig 3 2 0 1 1\n6\n", &[0, 2])).err(), Some(AigerError::InvalidGate));
    assert_eq!(AigerReader::from_bytes(&file("aig 3 2 0 1 1\n6\n", &[2, 9])).err(), Some(AigerError::InvalidGate));
}

#[test]
fn reader_builds_chain() {
    // inputs 1..3; gate 4 = x2 & x1 (lhs 8, rhs 4, 2); gate 5 = 4 & x3 (lhs 10, rhs 8, 6)
    let bytes = file("aig 5 3 0 1 2\n10\n", &[4, 2, 2, 2]);
    let r = AigerReader::from_bytes(&bytes).unwrap();
    assert_eq!(r.aig().node_map.len(), 2);
    let mut e = CutEnumerator::new(r.aig());
    let cuts = e.calculate_cuts_single_node(3, r.inputs(), 5);
    let mut sorted: Vec<Vec<usize>> = cuts
        .iter()
        .map(|c| {
            let mut c = c.clone();
            c.sort();
            c
        })
        .collect();
    sorted.sort();
    assert_eq!(sorted, vec![vec![1, 2, 3], vec![3, 4], vec![5]]);
}

#[test]
fn visualizer_keeps_path() {
    let aig = AIG::new();
    let v = AigVisualizer::new(&aig, &"out".to_string());
    assert_eq!(v.base_path, "out");
    assert!(v.aig.node_map.is_empty());
}

#[test]
fn build_graph_names_gates_by_literal() {
    // 2 inputs, 1 latch: gate 0 has literal 8 (id 4), gate 1 literal 10 (id 5)
    let g = build_graph(2, 1, &vec![(3, 2), (2, 3)]).unwrap();
    assert_eq!(g.node_map.len(), 2);
    let n4 = g.node(4).unwrap();
    assert_eq!(n4.left_signal, Signal::new(1, true));
    assert_eq!(n4.right_signal, Signal::new(2, true));
    let n5 = g.node(5).unwrap();
    assert_eq!(n5.left_signal, Signal::new(2, true));
    assert_eq!(n5.right_signal, Signal::new(4, false));
}

#[test]
fn build_graph_simplifies_constants() {
    let g = build_graph(1, 0, &vec![(4, 0)]).unwrap();
    assert!(g.node_map.is_empty());
    let g = build_graph(1, 0, &vec![(1, 0)]).unwrap();
    assert!(g.node_map.is_empty());
}

#[test]
fn build_graph_rejects_bad_deltas() {
    assert_eq!(build_graph(1, 0, &vec![(0, 1)]).err(), Some(AigerError::InvalidGate));
    assert_eq!(build_graph(1, 0, &vec![(5, 0)]).err(), Some(AigerError::InvalidGate));
    assert_eq!(build_graph(1, 0, &vec![(2, 3)]).err(), Some(AigerError::InvalidGate));
    assert_eq!(build_graph(1, 0, &vec![(2, 2), (0, 0)]).err(), Some(AigerError::InvalidGate));
    assert!(build_graph(1, 0, &vec![(2, 2)]).is_ok());
}

#[test]
fn leb_ten_byte_limit() {
    let mut max = vec![0x80; 9];
    max.push(0x01);
    let mut pos = 0;
    assert_eq!(read_leb(&max, &mut pos), Ok(1u64 << 63));
    assert_eq!(pos, 10);
    let mut big = vec![0x80; 9];
    big.push(0x02);
    let mut pos = 0;
    assert_eq!(read_leb(&big, &mut pos), Err(AigerError::Overflow));
    assert_eq!(pos, 0);
}

#[test]
fn decimal_overflow_is_none() {
    let bytes = b"18446744073709551616".to_vec();
    let mut pos = 0;
    assert_eq!(read_decimal(&bytes, &mut pos), None);
    let bytes = b"18446744073709551615".to_vec();
    let mut pos = 0;
    assert_eq!(read_decimal(&bytes, &mut pos), Some(u64::MAX));
}

#[test]
fn reader_outputs_and_crlf() {
    let bytes = file("aig 3 2 0 2 1\r\n6\r\n1\n", &[2, 2]);
    let r = AigerReader::from_bytes(&bytes).unwrap();
    assert_eq!(*r.outputs(), vec![Signal::new(3, false), Signal::new(0, true)]);
    assert_eq!(r.aig().topological_sort(), vec![1, 2, 3]);
}

#[test]
fn dot_text_of_single_gate() {
    let mut aig = AIG::new();
    aig.create_and(Signal::new(1, false), Signal::new(2, true), 3);
    let v = AigVisualizer::new(&aig, &"out".to_string());
    let text = v.dot_text(&vec![Signal::new(1, false), Signal::new(2, false)], &vec![Signal::new(3, true), Signal::new(12, false)]);
    let expected = [
        "digraph AIG {\n",
        "  rankdir=LR;\n",
        "  node [shape=circle];\n",
        "  x1 [label=\"x1\", shape=box, style=filled, fillcolor=lightblue];\n",
        "  x2 [label=\"x2\", shape=box, style=filled, fillcolor=lightblue];\n",
        "  x3 [label=\"x3\"];\n",
        "  x1 -> x3 [style=solid];\n",
        "  x2 -> x3 [style=dashed];\n",
        "  f0 [label=\"f0 = \u{ac}x3\", shape=diamond, style=filled, fillcolor=lightgreen];\n",
        "  x3 -> f0 [style=dashed];\n",
        "  f1 [label=\"f1 = x12\", shape=diamond, style=filled, fillcolor=lightgreen];\n",
        "  x12 -> f1 [style=solid];\n",
        "}\n",
    ]
    .concat();
    assert_eq!(text, expected);
}
