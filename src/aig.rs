use vstd::prelude::*;

use crate::signal::{const0, const1, Signal};

verus! {

/// A two-input AND gate; each input's polarity is carried by its signal.
#[derive(Debug, Clone, Copy, PartialEq, Eq, Hash, Structural)]
pub struct AndNode {
    pub left_signal: Signal,
    pub right_signal: Signal,
}

/// An And-Inverter Graph.
///
/// `node_map` is the node table, id and gate, in order of creation.
/// `compute_table` is the structural-hashing table: for each gate its canonical
/// pair of inputs and the signal that was built for it, in the same order.
pub struct AIG {
    pub compute_table: Vec<(Signal, Signal, Signal)>,
    pub node_map: Vec<(usize, AndNode)>,
}

/// `id` names an AND gate of the node table `s`.
pub open spec fn is_node(s: Seq<(usize, AndNode)>, id: usize) -> bool {
    exists|i: int| 0 <= i < s.len() && s[i].0 == id
}

/// `id` is used in `s`, as a gate or as the input of a gate.
pub open spec fn is_used(s: Seq<(usize, AndNode)>, id: usize) -> bool {
    exists|i: int|
        0 <= i < s.len() && (s[i].0 == id || s[i].1.left_signal.index == id
            || s[i].1.right_signal.index == id)
}

/// The node table is well formed: ids are positive and unique, the inputs of
/// each gate are stored smaller index first and are distinct non-constant nodes,
/// an input that is a gate was created before that AND node that reads it, and no two
/// gates have the same inputs.
pub open spec fn graph_ok(s: Seq<(usize, AndNode)>) -> bool {
    &&& forall|i: int| 0 <= i < s.len() ==> s[i].0 != 0
    &&& forall|i: int|
        0 <= i < s.len() ==> 0 < #[trigger] s[i].1.left_signal.index
            < s[i].1.right_signal.index
    &&& forall|i: int, j: int| 0 <= i < s.len() && 0 <= j < s.len() && #[trigger] s[i].0
        == #[trigger] s[j].0 ==> i == j
    &&& forall|i: int, j: int|
        0 <= i < s.len() && 0 <= j < s.len() && #[trigger] s[j].0
            == #[trigger] s[i].1.left_signal.index ==> j < i
    &&& forall|i: int, j: int|
        0 <= i < s.len() && 0 <= j < s.len() && #[trigger] s[j].0
            == #[trigger] s[i].1.right_signal.index ==> j < i
    &&& forall|i: int, j: int|
        0 <= i < s.len() && 0 <= j < s.len() && #[trigger] s[i].1 == #[trigger] s[j].1 ==> i
            == j
}

/// The inputs of a request, smaller index first.
pub open spec fn canonical(a: Signal, b: Signal) -> (Signal, Signal) {
    if a.index > b.index {
        (b, a)
    } else {
        (a, b)
    }
}

/// No algebraic rule settles the AND of the canonical pair `(x, y)`.
pub open spec fn needs_gate(x: Signal, y: Signal) -> bool {
    x != const0() && x != const1() && x.index != y.index
}

/// A gate with inputs `(x, y)` is in the node table.
pub open spec fn has_gate(s: Seq<(usize, AndNode)>, x: Signal, y: Signal) -> bool {
    exists|i: int| 0 <= i < s.len() && s[i].1 == (AndNode { left_signal: x, right_signal: y })
}

/// Asking for the AND of `a` and `b` adds a gate to the node table `s`.
pub open spec fn allocates(s: Seq<(usize, AndNode)>, a: Signal, b: Signal) -> bool {
    let (x, y) = canonical(a, b);
    needs_gate(x, y) && !has_gate(s, x, y)
}

/// `id` may name a new gate of `s`: positive, and neither a gate nor the input of one.
pub open spec fn fresh_id(s: Seq<(usize, AndNode)>, id: usize) -> bool {
    id != 0 && !is_used(s, id)
}

/// The caller's part of a request: where a gate is to be built, `id` is
/// fresh and is not one of the request's own inputs.
pub open spec fn request_ok(s: Seq<(usize, AndNode)>, a: Signal, b: Signal, id: usize) -> bool {
    allocates(s, a, b) ==> fresh_id(s, id) && id != a.index && id != b.index
}

/// The signal that the AND of `a` and `b` yields on the node table `s`, where
/// `id` names that AND node if one is built.
pub open spec fn and_result(s: Seq<(usize, AndNode)>, a: Signal, b: Signal, id: usize) -> Signal {
    let (x, y) = canonical(a, b);
    if x == const0() {
        const0()
    } else if x == const1() {
        y
    } else if x.index == y.index && x.inverted != y.inverted {
        const0()
    } else if x.index == y.index {
        x
    } else if has_gate(s, x, y) {
        let i = choose|i: int|
            0 <= i < s.len() && s[i].1 == (AndNode { left_signal: x, right_signal: y });
        Signal { index: s[i].0, inverted: false }
    } else {
        Signal { index: id, inverted: false }
    }
}

/// The node table after the AND of `a` and `b` was asked for on `s`.
pub open spec fn and_table(s: Seq<(usize, AndNode)>, a: Signal, b: Signal, id: usize) -> Seq<
    (usize, AndNode),
> {
    let (x, y) = canonical(a, b);
    if allocates(s, a, b) {
        s.push((id, AndNode { left_signal: x, right_signal: y }))
    } else {
        s
    }
}

/// `x` is a gate of `s[0..i]` or an input of one.
pub open spec fn in_prefix(s: Seq<(usize, AndNode)>, i: int, x: usize) -> bool {
    exists|j: int|
        0 <= j < i && (s[j].0 == x || s[j].1.left_signal.index == x || s[j].1.right_signal.index
            == x)
}

/// Wherever `o` lists a gate of `s`, both inputs of that gate stand earlier in `o`.
pub open spec fn inputs_first(s: Seq<(usize, AndNode)>, o: Seq<usize>) -> bool {
    forall|p: int, i: int|
        0 <= p < o.len() && 0 <= i < s.len() && #[trigger] o[p] == #[trigger] s[i].0 ==> (exists|
            q: int,
        |
            0 <= q < p && o[q] == s[i].1.left_signal.index) && (exists|q: int|
            0 <= q < p && o[q] == s[i].1.right_signal.index)
}

/// `o` lists, once each, exactly the gates of `s[0..i]` and their inputs, and
/// lists the inputs of each gate before that AND node.
pub open spec fn topo_prefix_ok(s: Seq<(usize, AndNode)>, o: Seq<usize>, i: int) -> bool {
    &&& o.no_duplicates()
    &&& forall|p: int| 0 <= p < o.len() ==> in_prefix(s, i, #[trigger] o[p])
    &&& forall|x: usize| in_prefix(s, i, x) ==> o.contains(x)
    &&& inputs_first(s, o)
}

/// `o` is a topological order of the node table `s`: each gate and each input of a
/// gate once, nothing else, and the inputs of each gate before that AND node.
pub open spec fn topo_order_ok(s: Seq<(usize, AndNode)>, o: Seq<usize>) -> bool {
    topo_prefix_ok(s, o, s.len() as int)
}

/// One step of the topological walk: append the inputs of `node` that `o` lacks,
/// left first, then that AND node.
pub open spec fn visit_order(o: Seq<usize>, node: (usize, AndNode)) -> Seq<usize> {
    let l = node.1.left_signal.index;
    let r = node.1.right_signal.index;
    let o1 = if o.contains(l) {
        o
    } else {
        o.push(l)
    };
    let o2 = if o1.contains(r) {
        o1
    } else {
        o1.push(r)
    };
    o2.push(node.0)
}

/// The order of the topological walk over the first `n` gates of `s`, in order
/// of creation.
pub open spec fn walk_order(s: Seq<(usize, AndNode)>, n: nat) -> Seq<usize>
    decreases n,
{
    if n == 0 || n > s.len() {
        Seq::empty()
    } else {
        visit_order(walk_order(s, (n - 1) as nat), s[n - 1])
    }
}

/// An id that is missing from a prefix order is not a gate created before gate `i`.
proof fn lemma_not_gate(s: Seq<(usize, AndNode)>, o: Seq<usize>, i: int, x: usize)
    requires
        graph_ok(s),
        0 <= i < s.len(),
        topo_prefix_ok(s, o, i),
        !o.contains(x),
        x == s[i].1.left_signal.index || x == s[i].1.right_signal.index,
    ensures
        forall|m: int| 0 <= m < s.len() ==> s[m].0 != x,
{
    assert forall|m: int| 0 <= m < s.len() implies s[m].0 != x by {
        if s[m].0 == x {
            assert(m < i);
            assert(in_prefix(s, i, x));
        }
    }
}

/// Appending an id that is new, and that is either no gate or a gate whose
/// inputs are listed, keeps an order free of repeats with inputs first.
proof fn lemma_push_keeps_order(s: Seq<(usize, AndNode)>, o: Seq<usize>, x: usize)
    requires
        o.no_duplicates(),
        inputs_first(s, o),
        !o.contains(x),
        forall|m: int|
            0 <= m < s.len() && s[m].0 == x ==> o.contains(s[m].1.left_signal.index)
                && o.contains(s[m].1.right_signal.index),
    ensures
        o.push(x).no_duplicates(),
        inputs_first(s, o.push(x)),
{
    let t = o.push(x);
    assert forall|p: int, i: int|
        0 <= p < t.len() && 0 <= i < s.len() && #[trigger] t[p] == #[trigger] s[i].0 implies (exists|
            q: int,
        |
            0 <= q < p && t[q] == s[i].1.left_signal.index) && (exists|q: int|
            0 <= q < p && t[q] == s[i].1.right_signal.index) by {
        if p < o.len() {
            assert(o[p] == s[i].0);
            let q1 = choose|q: int| 0 <= q < p && o[q] == s[i].1.left_signal.index;
            let q2 = choose|q: int| 0 <= q < p && o[q] == s[i].1.right_signal.index;
            assert(t[q1] == o[q1]);
            assert(t[q2] == o[q2]);
        } else {
            let q1 = choose|q: int| 0 <= q < o.len() && o[q] == s[i].1.left_signal.index;
            let q2 = choose|q: int| 0 <= q < o.len() && o[q] == s[i].1.right_signal.index;
            assert(t[q1] == o[q1]);
            assert(t[q2] == o[q2]);
        }
    }
    assert forall|a: int, b: int| 0 <= a < t.len() && 0 <= b < t.len() && a != b implies t[a]
        != t[b] by {
        if a < o.len() && b < o.len() {
        } else if a < o.len() {
            assert(o[a] == t[a]);
        } else if b < o.len() {
            assert(o[b] == t[b]);
        }
    }
}


/// Asking again for the AND of the same two signals, in the same or the other
/// order and with any id, builds no gate and yields the signal of the first request.
pub proof fn lemma_structural_hash_idempotent(
    s: Seq<(usize, AndNode)>,
    a: Signal,
    b: Signal,
    id1: usize,
    id2: usize,
)
    requires
        request_ok(s, a, b, id1),
    ensures
        !allocates(and_table(s, a, b, id1), a, b),
        !allocates(and_table(s, a, b, id1), b, a),
        and_table(and_table(s, a, b, id1), a, b, id2) == and_table(s, a, b, id1),
        and_table(and_table(s, a, b, id1), b, a, id2) == and_table(s, a, b, id1),
        and_result(and_table(s, a, b, id1), a, b, id2) == and_result(s, a, b, id1),
        and_result(and_table(s, a, b, id1), b, a, id2) == and_result(s, a, b, id1),
{
    let (x, y) = canonical(a, b);
    let s1 = and_table(s, a, b, id1);
    lemma_and_symmetric(s1, a, b, id2);
    if allocates(s, a, b) {
        let g = AndNode { left_signal: x, right_signal: y };
        assert(s1[s.len() as int].1 == g);
        assert(has_gate(s1, x, y));
        let i = choose|i: int| 0 <= i < s1.len() && s1[i].1 == g;
        if i < s.len() {
            assert(s[i].1 == g);
            assert(has_gate(s, x, y));
        }
        assert(i == s.len());
    }
}

/// The AND of `a` and `b` yields the same signal and the same table as the AND
/// of `b` and `a`.
pub proof fn lemma_and_symmetric(s: Seq<(usize, AndNode)>, a: Signal, b: Signal, id: usize)
    ensures
        and_result(s, a, b, id) == and_result(s, b, a, id),
        and_table(s, a, b, id) == and_table(s, b, a, id),
        allocates(s, a, b) == allocates(s, b, a),
{
}

/// On a fresh table, `create_and(a, b, id1)` followed by `create_and(b, a, id2)`
/// yields one signal twice and builds at most one gate.
pub proof fn lemma_and_commutative(a: Signal, b: Signal, id1: usize, id2: usize)
    requires
        request_ok(Seq::empty(), a, b, id1),
    ensures
        and_result(and_table(Seq::empty(), a, b, id1), b, a, id2) == and_result(
            Seq::empty(),
            a,
            b,
            id1,
        ),
        and_table(and_table(Seq::empty(), a, b, id1), b, a, id2) == and_table(
            Seq::empty(),
            a,
            b,
            id1,
        ),
{
    lemma_structural_hash_idempotent(Seq::empty(), a, b, id1, id2);
}

/// The algebraic rules, on any table and with any id: `0 & b == 0`, `1 & b == b`,
/// `x & !x == 0` and `x & x == x`; none of them touches the table.
pub proof fn lemma_algebraic_simplification(
    s: Seq<(usize, AndNode)>,
    b: Signal,
    x: Signal,
    id: usize,
)
    ensures
        and_result(s, const0(), b, id) == const0(),
        and_table(s, const0(), b, id) == s,
        and_result(s, const1(), b, id) == b,
        and_table(s, const1(), b, id) == s,
        and_result(s, x, x.spec_invert(), id) == const0(),
        and_table(s, x, x.spec_invert(), id) == s,
        and_result(s, x, x, id) == x,
        and_table(s, x, x, id) == s,
{
}

impl AIG {
    /// The graph is well formed and its two tables agree.
    pub open spec fn wf(&self) -> bool {
        &&& graph_ok(self.node_map@)
        &&& self.compute_table@.len() == self.node_map@.len()
        &&& forall|i: int|
            0 <= i < self.node_map@.len() ==> #[trigger] self.compute_table@[i] == (
                self.node_map@[i].1.left_signal,
                self.node_map@[i].1.right_signal,
                Signal { index: self.node_map@[i].0, inverted: false },
            )
    }

    pub fn new() -> (r: AIG)
        ensures
            r.wf(),
            r.node_map@.len() == 0,
    {
        AIG { compute_table: Vec::new(), node_map: Vec::new() }
    }

    /// Orders two signals so that the smaller index comes first.
    fn check_swap(a: Signal, b: Signal) -> (r: (Signal, Signal))
        ensures
            r == canonical(a, b),
    {
        if a.index > b.index {
            (b, a)
        } else {
            (a, b)
        }
    }

    /// Looks the canonical pair `(x, y)` up in the structural-hashing table.
    fn lookup(&self, x: Signal, y: Signal) -> (r: Option<Signal>)
        requires
            self.wf(),
        ensures
            r.is_some() <==> has_gate(self.node_map@, x, y),
            r.is_some() ==> exists|i: int|
                0 <= i < self.node_map@.len() && self.node_map@[i].1 == (AndNode {
                    left_signal: x,
                    right_signal: y,
                }) && r == Some(Signal { index: self.node_map@[i].0, inverted: false }),
    {
        let mut i: usize = 0;
        while i < self.compute_table.len()
            invariant
                self.wf(),
                i <= self.compute_table@.len(),
                forall|j: int|
                    0 <= j < i ==> self.node_map@[j].1 != (AndNode {
                        left_signal: x,
                        right_signal: y,
                    }),
            decreases self.compute_table@.len() - i,
        {
            let entry = self.compute_table[i];
            if entry.0 == x && entry.1 == y {
                return Some(entry.2);
            }
            i = i + 1;
        }
        None
    }

    /// Returns the AND of `a` and `b`, reusing an existing gate with the same
    /// inputs and building a gate named `new_index` only where no algebraic rule
    /// and no existing gate gives the result.
    pub fn create_and(&mut self, a: Signal, b: Signal, new_index: usize) -> (r: Signal)
        requires
            old(self).wf(),
            request_ok(old(self).node_map@, a, b, new_index),
        ensures
            final(self).wf(),
            r == and_result(old(self).node_map@, a, b, new_index),
            final(self).node_map@ == and_table(old(self).node_map@, a, b, new_index),
    {
        let (a, b) = Self::check_swap(a, b);
        if a.index == 0 && !a.inverted {
            return Signal::new(0, false);
        }
        if a.index == 0 && a.inverted {
            return b;
        }
        if a.index == b.index && a.inverted != b.inverted {
            return Signal::new(0, false);
        }
        if a.index == b.index && a.inverted == b.inverted {
            return a;
        }
        if let Some(result) = self.lookup(a, b) {
            let ghost s = self.node_map@;
            proof {
                let i = choose|i: int|
                    0 <= i < s.len() && s[i].1 == (AndNode { left_signal: a, right_signal: b });
                assert(result.index == s[i].0);
            }
            return Signal::new(result.index, false);
        }
        let new_signal = Signal::new(new_index, false);
        let ghost s = self.node_map@;
        self.compute_table.push((a, b, new_signal));
        self.node_map.push((new_index, AndNode { left_signal: a, right_signal: b }));
        proof {
            let t = self.node_map@;
            assert(t == s.push((new_index, AndNode { left_signal: a, right_signal: b })));
            assert forall|i: int, j: int|
                0 <= i < t.len() && 0 <= j < t.len() && #[trigger] t[j].0
                    == #[trigger] t[i].1.left_signal.index implies j < i by {
                if j == s.len() && i < s.len() {
                    assert(is_used(s, new_index));
                }
            }
            assert forall|i: int, j: int|
                0 <= i < t.len() && 0 <= j < t.len() && #[trigger] t[j].0
                    == #[trigger] t[i].1.right_signal.index implies j < i by {
                if j == s.len() && i < s.len() {
                    assert(is_used(s, new_index));
                }
            }
            assert forall|i: int, j: int|
                0 <= i < t.len() && 0 <= j < t.len() && #[trigger] t[i].0 == #[trigger] t[j].0
                    implies i == j by {
                if j == s.len() && i < s.len() {
                    assert(is_used(s, new_index));
                }
                if i == s.len() && j < s.len() {
                    assert(is_used(s, new_index));
                }
            }
        }
        new_signal
    }
    /// The AND node named `id`, if there is one.
    pub fn node(&self, id: usize) -> (r: Option<AndNode>)
        requires
            self.wf(),
        ensures
            r.is_some() <==> is_node(self.node_map@, id),
            r.is_some() ==> exists|i: int|
                0 <= i < self.node_map@.len() && self.node_map@[i].0 == id && self.node_map@[i].1
                    == r.unwrap(),
    {
        let mut i: usize = 0;
        while i < self.node_map.len()
            invariant
                i <= self.node_map@.len(),
                forall|j: int| 0 <= j < i ==> self.node_map@[j].0 != id,
            decreases self.node_map@.len() - i,
        {
            if self.node_map[i].0 == id {
                return Some(self.node_map[i].1);
            }
            i = i + 1;
        }
        None
    }

    /// Appends to `order` the inputs of gate `i` that it lacks, then that AND node.
    fn topological_visit(&self, i: usize, order: &mut Vec<usize>)
        requires
            self.wf(),
            i < self.node_map@.len(),
            topo_prefix_ok(self.node_map@, old(order)@, i as int),
        ensures
            topo_prefix_ok(self.node_map@, final(order)@, i + 1),
            final(order)@ == visit_order(old(order)@, self.node_map@[i as int]),
    {
        let ghost s = self.node_map@;
        let ghost o0 = order@;
        let (id, node) = self.node_map[i];
        let left = node.left_signal.index;
        let right = node.right_signal.index;
        if !contains_id(order, left) {
            proof {
                lemma_not_gate(s, o0, i as int, left);
                lemma_push_keeps_order(s, order@, left);
            }
            order.push(left);
            assert(order@[order@.len() - 1] == left);
        }
        assert(order@.contains(left));
        let ghost o1 = order@;
        proof {
            assert forall|x: usize| o0.contains(x) implies order@.contains(x) by {
                let p = choose|p: int| 0 <= p < o0.len() && o0[p] == x;
                assert(order@[p] == x);
            }
        }
        if !contains_id(order, right) {
            proof {
                lemma_not_gate(s, o0, i as int, right);
                lemma_push_keeps_order(s, order@, right);
            }
            order.push(right);
            assert(order@[order@.len() - 1] == right);
        }
        assert(order@.contains(right));
        let ghost o2 = order@;
        proof {
            let p = choose|p: int| 0 <= p < o1.len() && o1[p] == left;
            assert(o2[p] == left);
            assert forall|x: usize| o0.contains(x) implies o2.contains(x) by {
                let p = choose|p: int| 0 <= p < o0.len() && o0[p] == x;
                assert(o2[p] == x);
            }
            assert(o2.contains(left));
            assert(o2.contains(right));
            if o2.contains(id) {
                let p = choose|p: int| 0 <= p < o2.len() && o2[p] == id;
                if p < o0.len() {
                    assert(o0[p] == id);
                    assert(in_prefix(s, i as int, id));
                    let j = choose|j: int|
                        0 <= j < i && (s[j].0 == id || s[j].1.left_signal.index == id
                            || s[j].1.right_signal.index == id);
                    assert(false);
                } else {
                    assert(id == left || id == right);
                }
                assert(false);
            }
            assert forall|m: int| 0 <= m < s.len() && s[m].0 == id implies o2.contains(
                s[m].1.left_signal.index,
            ) && o2.contains(s[m].1.right_signal.index) by {
                assert(m == i);
            }
            lemma_push_keeps_order(s, o2, id);
        }
        order.push(id);
        proof {
            let o3 = order@;
            assert(o1 == if o0.contains(left) {
                o0
            } else {
                o0.push(left)
            });
            assert(o2 == if o1.contains(right) {
                o1
            } else {
                o1.push(right)
            });
            assert forall|p: int| 0 <= p < o3.len() implies in_prefix(s, i + 1, #[trigger] o3[p]) by {
                if p < o0.len() {
                    assert(o0[p] == o3[p]);
                    assert(in_prefix(s, i as int, o0[p]));
                    let j = choose|j: int|
                        0 <= j < i && (s[j].0 == o3[p] || s[j].1.left_signal.index == o3[p]
                            || s[j].1.right_signal.index == o3[p]);
                    assert(0 <= j < i + 1);
                } else {
                    assert(o3[p] == left || o3[p] == right || o3[p] == id);
                    assert(0 <= i < i + 1);
                }
            }
            assert forall|x: usize| in_prefix(s, i + 1, x) implies o3.contains(x) by {
                let j = choose|j: int|
                    0 <= j < i + 1 && (s[j].0 == x || s[j].1.left_signal.index == x
                        || s[j].1.right_signal.index == x);
                if j < i {
                    assert(in_prefix(s, i as int, x));
                    assert(o0.contains(x));
                    assert(o2.contains(x));
                    let p = choose|p: int| 0 <= p < o2.len() && o2[p] == x;
                    assert(o3[p] == x);
                } else if x == id {
                    assert(o3[o3.len() - 1] == x);
                } else {
                    let p = choose|p: int| 0 <= p < o2.len() && o2[p] == x;
                    assert(o3[p] == x);
                }
            }
        }
    }

    /// A topological order of the graph: each gate and each input of a gate once,
    /// the inputs of every gate before that AND node. The gates come in order of
    /// creation, each preceded by those of its inputs not listed yet, left first.
    pub fn topological_sort(&self) -> (r: Vec<usize>)
        requires
            self.wf(),
        ensures
            topo_order_ok(self.node_map@, r@),
            r@ == walk_order(self.node_map@, self.node_map@.len()),
    {
        let mut order: Vec<usize> = Vec::new();
        let mut i: usize = 0;
        while i < self.node_map.len()
            invariant
                self.wf(),
                i <= self.node_map@.len(),
                topo_prefix_ok(self.node_map@, order@, i as int),
                order@ == walk_order(self.node_map@, i as nat),
            decreases self.node_map@.len() - i,
        {
            self.topological_visit(i, &mut order);
            i = i + 1;
        }
        order
    }
}

/// Where `x` first stands in `v`, if anywhere.
pub fn position_of(v: &Vec<usize>, x: usize) -> (r: Option<usize>)
    ensures
        r.is_none() <==> !v@.contains(x),
        r.is_some() ==> r.unwrap() < v@.len() && v@[r.unwrap() as int] == x,
{
    let mut i: usize = 0;
    while i < v.len()
        invariant
            i <= v@.len(),
            forall|j: int| 0 <= j < i ==> v@[j] != x,
        decreases v@.len() - i,
    {
        if v[i] == x {
            return Some(i);
        }
        i = i + 1;
    }
    None
}

/// Whether `v` holds `x`.
pub fn contains_id(v: &Vec<usize>, x: usize) -> (r: bool)
    ensures
        r == v@.contains(x),
{
    let mut i: usize = 0;
    while i < v.len()
        invariant
            i <= v@.len(),
            forall|j: int| 0 <= j < i ==> v@[j] != x,
        decreases v@.len() - i,
    {
        if v[i] == x {
            return true;
        }
        i = i + 1;
    }
    false
}

} // verus!
