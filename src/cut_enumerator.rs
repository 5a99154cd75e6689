use vstd::prelude::*;

use crate::aig::{
    contains_id, in_prefix, inputs_first, is_node, position_of, topo_order_ok, walk_order, AIG,
};
use crate::cut::{
    all_unions, candidates, dominated, kept_sets, lemma_kept_sets, sets_of, compute_node_cuts, cuts_view, filter_minimal_cuts, leaves, minimal_of, pool_of,
};
use crate::signal::Signal;

verus! {

/// The cut lists of a table, as nested sequences.
pub open spec fn table_view(t: Seq<Vec<Vec<usize>>>) -> Seq<Seq<Seq<usize>>> {
    t.map_values(|l: Vec<Vec<usize>>| cuts_view(l@))
}

/// `r` is the cut list of gate `n` whose inputs have the cut lists `cl` and `cr`:
/// the minimal unions of at most `k` leaves, each once, then the trivial cut `{n}`.
pub open spec fn node_cuts_ok(
    cl: Seq<Seq<usize>>,
    cr: Seq<Seq<usize>>,
    k: nat,
    n: usize,
    r: Seq<Seq<usize>>,
) -> bool {
    &&& r.len() >= 1
    &&& r.last() == seq![n]
    &&& minimal_of(candidates(cl, cr, k), r.drop_last())
    &&& sets_of(r.drop_last()) == kept_sets(
        all_unions(cl, cr, k),
        all_unions(cl, cr, k).len(),
    )
}

/// Each cut of entry `p` is non-empty, lists each leaf once, and its leaves
/// stand at or before position `p` of `o`.
pub open spec fn cuts_in_order(o: Seq<usize>, l: Seq<Seq<Seq<usize>>>) -> bool {
    forall|p: int, r: int|
        0 <= p < l.len() && 0 <= r < l[p].len() ==> (#[trigger] l[p][r]).no_duplicates()
            && l[p][r].len() > 0 && forall|x: usize|
            l[p][r].contains(x) ==> exists|q: int| 0 <= q <= p && o[q] == x
}

/// Entry `p` of the table: a leaf has only its trivial cut; a gate has the cuts
/// built from those of its inputs, which stand earlier.
pub open spec fn entry_ok(
    s: Seq<(usize, crate::aig::AndNode)>,
    o: Seq<usize>,
    l: Seq<Seq<Seq<usize>>>,
    k: nat,
    p: int,
) -> bool {
    if is_node(s, o[p]) {
        forall|i: int|
            0 <= i < s.len() && #[trigger] s[i].0 == o[p] ==> exists|pl: int, pr: int|
                0 <= pl < p && 0 <= pr < p && o[pl] == s[i].1.left_signal.index && o[pr]
                    == s[i].1.right_signal.index && node_cuts_ok(l[pl], l[pr], k, o[p], l[p])
    } else {
        l[p] == seq![seq![o[p]]]
    }
}

/// `l` holds, for each id of `o` in turn, its minimal cuts of at most `k` leaves.
pub open spec fn cuts_ok(
    s: Seq<(usize, crate::aig::AndNode)>,
    o: Seq<usize>,
    l: Seq<Seq<Seq<usize>>>,
    k: nat,
) -> bool {
    &&& l.len() == o.len()
    &&& o.no_duplicates()
    &&& cuts_in_order(o, l)
    &&& forall|p: int| 0 <= p < o.len() ==> entry_ok(s, o, l, k, p)
}

/// Appending an entry whose cuts are in order keeps the table in order.
proof fn lemma_push_in_order(o: Seq<usize>, l0: Seq<Seq<Seq<usize>>>, lv: Seq<Seq<usize>>)
    requires
        cuts_in_order(o, l0),
        forall|r: int|
            0 <= r < lv.len() ==> (#[trigger] lv[r]).no_duplicates() && lv[r].len() > 0
                && forall|x: usize|
                lv[r].contains(x) ==> exists|q: int| 0 <= q <= l0.len() && o[q] == x,
    ensures
        cuts_in_order(o, l0.push(lv)),
{
    let l1 = l0.push(lv);
    assert forall|p: int, r: int| 0 <= p < l1.len() && 0 <= r < l1[p].len() implies (
    #[trigger] l1[p][r]).no_duplicates() && l1[p][r].len() > 0 && forall|x: usize|
        l1[p][r].contains(x) ==> exists|q: int| 0 <= q <= p && o[q] == x by {
        if p < l0.len() {
            assert(l1[p][r] == l0[p][r]);
        } else {
            assert(l1[p][r] == lv[r]);
        }
    }
}

/// An entry stays right when later entries are appended.
proof fn lemma_entry_stable(
    s: Seq<(usize, crate::aig::AndNode)>,
    o: Seq<usize>,
    l1: Seq<Seq<Seq<usize>>>,
    l2: Seq<Seq<Seq<usize>>>,
    k: nat,
    p: int,
)
    requires
        0 <= p < l1.len() <= l2.len(),
        forall|q: int| 0 <= q < l1.len() ==> l1[q] == l2[q],
        entry_ok(s, o, l1, k, p),
    ensures
        entry_ok(s, o, l2, k, p),
{
    if is_node(s, o[p]) {
        assert forall|i: int| 0 <= i < s.len() && #[trigger] s[i].0 == o[p] implies exists|
            pl: int,
            pr: int,
        |
            0 <= pl < p && 0 <= pr < p && o[pl] == s[i].1.left_signal.index && o[pr]
                == s[i].1.right_signal.index && node_cuts_ok(l2[pl], l2[pr], k, o[p], l2[p]) by {
            let (pl, pr) = choose|pl: int, pr: int|
                0 <= pl < p && 0 <= pr < p && o[pl] == s[i].1.left_signal.index && o[pr]
                    == s[i].1.right_signal.index && node_cuts_ok(l1[pl], l1[pr], k, o[p], l1[p]);
            assert(l1[pl] == l2[pl] && l1[pr] == l2[pr] && l1[p] == l2[p]);
        }
    } else {
        assert(l1[p] == l2[p]);
    }
}

/// Some signal of `inputs` names `x`.
pub open spec fn is_input(inputs: Seq<Signal>, x: usize) -> bool {
    exists|i: int| 0 <= i < inputs.len() && inputs[i].index == x
}

/// A prefix of an order free of repeats, with inputs first, is one too.
proof fn lemma_prefix_order(s: Seq<(usize, crate::aig::AndNode)>, o: Seq<usize>, n: int)
    requires
        o.no_duplicates(),
        inputs_first(s, o),
        0 <= n <= o.len(),
    ensures
        o.subrange(0, n).no_duplicates(),
        inputs_first(s, o.subrange(0, n)),
{
    let t = o.subrange(0, n);
    assert forall|p: int, i: int|
        0 <= p < t.len() && 0 <= i < s.len() && #[trigger] t[p] == #[trigger] s[i].0 implies (exists|
            q: int,
        |
            0 <= q < p && t[q] == s[i].1.left_signal.index) && (exists|q: int|
            0 <= q < p && t[q] == s[i].1.right_signal.index) by {
        assert(o[p] == s[i].0);
        let q1 = choose|q: int| 0 <= q < p && o[q] == s[i].1.left_signal.index;
        let q2 = choose|q: int| 0 <= q < p && o[q] == s[i].1.right_signal.index;
        assert(t[q1] == o[q1]);
        assert(t[q2] == o[q2]);
    }
}

/// The ids of `inputs`, each once, in order of first appearance.
pub open spec fn distinct_ids(inputs: Seq<Signal>) -> Seq<usize>
    decreases inputs.len(),
{
    if inputs.len() == 0 {
        Seq::empty()
    } else {
        let o = distinct_ids(inputs.drop_last());
        if o.contains(inputs.last().index) {
            o
        } else {
            o.push(inputs.last().index)
        }
    }
}

/// The ids of `inputs`, each once, in order of first appearance.
fn input_ids(inputs: &[Signal]) -> (r: Vec<usize>)
    ensures
        r@.no_duplicates(),
        forall|x: usize| r@.contains(x) <==> is_input(inputs@, x),
        r@ == distinct_ids(inputs@),
{
    let mut r: Vec<usize> = Vec::new();
    let mut i: usize = 0;
    while i < inputs.len()
        invariant
            i <= inputs@.len(),
            r@.no_duplicates(),
            forall|x: usize|
                r@.contains(x) <==> exists|j: int| 0 <= j < i && inputs@[j].index == x,
            r@ == distinct_ids(inputs@.take(i as int)),
        decreases inputs@.len() - i,
    {
        let x = inputs[i].index;
        let ghost r0 = r@;
        proof {
            let t1 = inputs@.take(i + 1);
            assert(t1.drop_last() =~= inputs@.take(i as int));
            assert(t1.last() == inputs@[i as int]);
        }
        if !contains_id(&r, x) {
            r.push(x);
            proof {
                assert(r@[r@.len() - 1] == x);
                assert forall|a: int, b: int| 0 <= a < r@.len() && 0 <= b < r@.len() && a != b implies r@[a]
                    != r@[b] by {
                    if a < r0.len() && b < r0.len() {
                        assert(r0[a] == r@[a] && r0[b] == r@[b]);
                    } else if a < r0.len() {
                        assert(r0[a] == r@[a]);
                    } else if b < r0.len() {
                        assert(r0[b] == r@[b]);
                    }
                }
            }
        }
        proof {
            assert(r@ == r0 || r@ == r0.push(x));
            assert(r@.contains(x));
            assert forall|y: usize|
                r@.contains(y) <==> exists|j: int| 0 <= j < i + 1 && inputs@[j].index == y by {
                if r@.contains(y) {
                    let q = choose|q: int| 0 <= q < r@.len() && r@[q] == y;
                    if q < r0.len() {
                        assert(r@[q] == r0[q]);
                        assert(r0.contains(y));
                        let j = choose|j: int| 0 <= j < i && inputs@[j].index == y;
                        assert(0 <= j < i + 1 && inputs@[j].index == y);
                    } else {
                        assert(inputs@[i as int].index == y);
                    }
                }
                if exists|j: int| 0 <= j < i + 1 && inputs@[j].index == y {
                    let j = choose|j: int| 0 <= j < i + 1 && inputs@[j].index == y;
                    if j < i {
                        assert(exists|j2: int| 0 <= j2 < i && inputs@[j2].index == y);
                        assert(r0.contains(y));
                        let q = choose|q: int| 0 <= q < r0.len() && r0[q] == y;
                        assert(r@[q] == r0[q]);
                    } else {
                        assert(r@.contains(x));
                    }
                }
            }
        }
        i = i + 1;
    }
    proof {
        assert(inputs@.take(inputs@.len() as int) =~= inputs@);
    }
    r
}

/// A copy of a cut list.
fn copy_cuts(l: &Vec<Vec<usize>>) -> (r: Vec<Vec<usize>>)
    ensures
        cuts_view(r@) == cuts_view(l@),
{
    let mut r: Vec<Vec<usize>> = Vec::new();
    let mut i: usize = 0;
    while i < l.len()
        invariant
            i <= l@.len(),
            cuts_view(r@) == cuts_view(l@.take(i as int)),
        decreases l@.len() - i,
    {
        let ghost r0 = r@;
        let c = l[i].clone();
        proof {
            assert(c@ =~= l@[i as int]@);
        }
        r.push(c);
        proof {
            assert(r@ == r0.push(c));
            assert(cuts_view(l@.take(i as int)).len() == i);
            assert forall|j: int| 0 <= j < i + 1 implies cuts_view(r@)[j] == cuts_view(
                l@.take(i + 1),
            )[j] by {
                if j < i {
                    assert(cuts_view(r0)[j] == cuts_view(l@.take(i as int))[j]);
                }
            }
            assert(cuts_view(r@) =~= cuts_view(l@.take(i + 1)));
        }
        i = i + 1;
    }
    proof {
        assert(l@.take(l@.len() as int) =~= l@);
    }
    r
}

/// What a table of cuts states of each of its ids: every cut has at most `k`
/// leaves; no two cuts of an id have the same leaves, and none is a strict subset
/// of another; the last cut of an id is the trivial cut, and a leaf (an id that is
/// no gate) has that cut alone.
pub proof fn lemma_cut_table_laws(
    s: Seq<(usize, crate::aig::AndNode)>,
    o: Seq<usize>,
    l: Seq<Seq<Seq<usize>>>,
    k: nat,
)
    requires
        cuts_ok(s, o, l, k),
        k >= 1,
    ensures
        forall|p: int, r: int|
            0 <= p < l.len() && 0 <= r < l[p].len() ==> leaves(#[trigger] l[p][r]).len() <= k,
        forall|p: int, r1: int, r2: int|
            0 <= p < l.len() && 0 <= r1 < l[p].len() && 0 <= r2 < l[p].len() && r1 != r2 ==> {
                &&& leaves(#[trigger] l[p][r1]) != leaves(#[trigger] l[p][r2])
                &&& !leaves(l[p][r1]).subset_of(leaves(l[p][r2]))
            },
        forall|p: int|
            0 <= p < l.len() ==> (#[trigger] l[p]).len() > 0 && l[p].last() == seq![o[p]],
        forall|p: int| 0 <= p < l.len() && !is_node(s, o[p]) ==> #[trigger] l[p] == seq![seq![o[p]]],
{
    assert forall|p: int| 0 <= p < l.len() implies {
        &&& (#[trigger] l[p]).len() > 0
        &&& l[p].last() == seq![o[p]]
        &&& forall|r: int| 0 <= r < l[p].len() ==> leaves(#[trigger] l[p][r]).len() <= k
        &&& forall|r1: int, r2: int|
            0 <= r1 < l[p].len() && 0 <= r2 < l[p].len() && r1 != r2 ==> {
                &&& leaves(#[trigger] l[p][r1]) != leaves(#[trigger] l[p][r2])
                &&& !leaves(l[p][r1]).subset_of(leaves(l[p][r2]))
            }
        &&& !is_node(s, o[p]) ==> l[p] == seq![seq![o[p]]]
    } by {
        lemma_entry_laws(s, o, l, k, p);
        assert(entry_ok(s, o, l, k, p));
    }
}

/// The laws of `lemma_cut_table_laws` for one entry.
proof fn lemma_entry_laws(
    s: Seq<(usize, crate::aig::AndNode)>,
    o: Seq<usize>,
    l: Seq<Seq<Seq<usize>>>,
    k: nat,
    p: int,
)
    requires
        cuts_ok(s, o, l, k),
        k >= 1,
        0 <= p < l.len(),
    ensures
        l[p].len() > 0,
        l[p].last() == seq![o[p]],
        forall|r: int| 0 <= r < l[p].len() ==> leaves(#[trigger] l[p][r]).len() <= k,
        forall|r1: int, r2: int|
            0 <= r1 < l[p].len() && 0 <= r2 < l[p].len() && r1 != r2 ==> {
                &&& leaves(#[trigger] l[p][r1]) != leaves(#[trigger] l[p][r2])
                &&& !leaves(l[p][r1]).subset_of(leaves(l[p][r2]))
            },
{
    let n = o[p];
    let single = seq![n];
    assert forall|x: usize| leaves(single).contains(x) <==> x == n by {
        if x == n {
            assert(single[0] == n);
        }
    }
    assert(leaves(single) =~= set![n]);
    assert(set![n].len() == 1);
    assert(entry_ok(s, o, l, k, p));
    if is_node(s, n) {
        let i = choose|i: int| 0 <= i < s.len() && s[i].0 == n;
        assert(s[i].0 == o[p]);
        let (pl, pr) = choose|pl: int, pr: int|
            0 <= pl < p && 0 <= pr < p && o[pl] == s[i].1.left_signal.index && o[pr]
                == s[i].1.right_signal.index && node_cuts_ok(l[pl], l[pr], k, o[p], l[p]);
        let cand = candidates(l[pl], l[pr], k);
        let m = l[p].drop_last();
        let last = l[p].len() - 1;
        // The leaves of every minimal cut stand before `p`, so they miss `n`, and
        // they are not empty.
        assert forall|r: int| 0 <= r < m.len() implies !leaves(#[trigger] m[r]).contains(n)
            && leaves(m[r]).len() > 0 && leaves(m[r]).len() <= k by {
            assert(m[r] == l[p][r]);
            assert(m[r].no_duplicates());
            assert(cand.contains(leaves(m[r])));
            let (x1, y1) = choose|x1: int, y1: int|
                0 <= x1 < l[pl].len() && 0 <= y1 < l[pr].len() && leaves(m[r]) == leaves(
                    l[pl][x1],
                ).union(leaves(l[pr][y1]));
            let a = l[pl][x1];
            let b = l[pr][y1];
            assert(a.len() > 0);
            assert(leaves(m[r]).contains(a[0]));
            if leaves(m[r]).contains(n) {
                if a.contains(n) {
                    let q = choose|q: int| 0 <= q <= pl && o[q] == n;
                    assert(o[q] == o[p]);
                } else {
                    assert(b.contains(n));
                    let q = choose|q: int| 0 <= q <= pr && o[q] == n;
                    assert(o[q] == o[p]);
                }
            }
            assert(leaves(m[r]).finite());
        }
        assert forall|r: int| 0 <= r < l[p].len() implies leaves(#[trigger] l[p][r]).len() <= k by {
            if r < last {
                assert(l[p][r] == m[r]);
            }
        }
        assert forall|r1: int, r2: int|
            0 <= r1 < l[p].len() && 0 <= r2 < l[p].len() && r1 != r2 implies {
            &&& leaves(#[trigger] l[p][r1]) != leaves(#[trigger] l[p][r2])
            &&& !leaves(l[p][r1]).subset_of(leaves(l[p][r2]))
        } by {
            if r1 < last && r2 < last {
                assert(l[p][r1] == m[r1] && l[p][r2] == m[r2]);
                assert(m[r1].no_duplicates());
                assert(m[r2].no_duplicates());
                assert(leaves(m[r1]) != leaves(m[r2]));
                assert(cand.contains(leaves(m[r1])));
                assert(!dominated(cand, leaves(m[r2])));
            } else if r1 < last {
                assert(l[p][r1] == m[r1]);
                assert(!leaves(m[r1]).contains(n));
                assert(leaves(m[r1]).len() > 0);
                let e = leaves(m[r1]).choose();
                assert(leaves(m[r1]).contains(e));
            } else {
                assert(l[p][r2] == m[r2]);
                assert(!leaves(m[r2]).contains(n));
                assert(leaves(single).contains(n));
            }
        }
    } else {
        assert(l[p] == seq![single]);
    }
}

/// Computes the k-feasible cuts of the gates of an And-Inverter Graph.
///
/// After a computation `topo_order` lists the ids whose cuts were computed, the
/// inputs of each gate before that AND node, and `cuts[p]` holds the cuts of
/// `topo_order[p]`, each cut a list of distinct leaf ids.
pub struct CutEnumerator<'a> {
    pub aig: &'a AIG,
    pub cuts: Vec<Vec<Vec<usize>>>,
    pub topo_order: Vec<usize>,
    pub num_inputs: usize,
}

impl<'a> CutEnumerator<'a> {
    pub fn new(aig: &'a AIG) -> (r: CutEnumerator<'a>)
        ensures
            r.aig == aig,
            r.cuts@.len() == 0,
            r.topo_order@.len() == 0,
            r.num_inputs == 0,
    {
        CutEnumerator { aig, cuts: Vec::new(), topo_order: Vec::new(), num_inputs: 0 }
    }

    /// Fills `cuts` for each id of `order` in turn.
    fn compute_cuts(&mut self, order: Vec<usize>, cut_size: usize)
        requires
            old(self).aig.wf(),
            order@.no_duplicates(),
            inputs_first(old(self).aig.node_map@, order@),
            cut_size >= 1,
        ensures
            final(self).aig == old(self).aig,
            final(self).num_inputs == old(self).num_inputs,
            final(self).topo_order@ == order@,
            cuts_ok(
                final(self).aig.node_map@,
                final(self).topo_order@,
                table_view(final(self).cuts@),
                cut_size as nat,
            ),
    {
        let ghost s = self.aig.node_map@;
        let ghost k = cut_size as nat;
        self.topo_order = order;
        self.cuts = Vec::new();
        let mut p: usize = 0;
        while p < self.topo_order.len()
            invariant
                self.aig.wf(),
                self.aig == old(self).aig,
                self.num_inputs == old(self).num_inputs,
                s == self.aig.node_map@,
                k == cut_size as nat,
                self.topo_order@ == order@,
                order@.no_duplicates(),
                inputs_first(s, order@),
                p <= order@.len(),
                self.cuts@.len() == p,
                cuts_in_order(order@, table_view(self.cuts@)),
                forall|q: int| 0 <= q < p ==> entry_ok(s, order@, table_view(self.cuts@), k, q),
            decreases order@.len() - p,
        {
            let id = self.topo_order[p];
            let ghost l0 = table_view(self.cuts@);
            let ghost o = order@;
            match self.aig.node(id) {
                Some(node) => {
                    let left = node.left_signal.index;
                    let right = node.right_signal.index;
                    let ghost i = choose|i: int|
                        0 <= i < s.len() && s[i].0 == id && s[i].1 == node;
                    proof {
                        assert(o[p as int] == s[i].0);
                    }
                    let pl = position_of(&self.topo_order, left).unwrap();
                    let pr = position_of(&self.topo_order, right).unwrap();
                    proof {
                        let q1 = choose|q: int| 0 <= q < p && o[q] == s[i].1.left_signal.index;
                        let q2 = choose|q: int| 0 <= q < p && o[q] == s[i].1.right_signal.index;
                        assert(pl == q1);
                        assert(pr == q2);
                        assert(l0[pl as int] == cuts_view(self.cuts@[pl as int]@));
                        assert(l0[pr as int] == cuts_view(self.cuts@[pr as int]@));
                        assert forall|j: int| 0 <= j < self.cuts@[pl as int]@.len() implies (
                        #[trigger] self.cuts@[pl as int]@[j])@.no_duplicates() by {
                            assert(l0[pl as int][j] == self.cuts@[pl as int]@[j]@);
                        }
                        assert forall|j: int| 0 <= j < self.cuts@[pr as int]@.len() implies (
                        #[trigger] self.cuts@[pr as int]@[j])@.no_duplicates() by {
                            assert(l0[pr as int][j] == self.cuts@[pr as int]@[j]@);
                        }
                    }
                    let all = compute_node_cuts(&self.cuts[pl], &self.cuts[pr], cut_size);
                    let mut minimal = filter_minimal_cuts(&all);
                    proof {
                        assert(l0[pl as int] == cuts_view(self.cuts@[pl as int]@));
                        assert(l0[pr as int] == cuts_view(self.cuts@[pr as int]@));
                        assert(pool_of(cuts_view(all@)) == candidates(l0[pl as int], l0[pr as int], k));
                        lemma_kept_sets(cuts_view(all@), all@.len() as nat);
                        assert(sets_of(cuts_view(all@)).len() == all@.len());
                    }
                    let ghost m0 = cuts_view(minimal@);
                    let mut trivial: Vec<usize> = Vec::new();
                    trivial.push(id);
                    minimal.push(trivial);
                    proof {
                        let lv = cuts_view(minimal@);
                        let cand = candidates(l0[pl as int], l0[pr as int], k);
                        assert(lv.drop_last() =~= m0);
                        assert(sets_of(m0) == kept_sets(
                            all_unions(l0[pl as int], l0[pr as int], k),
                            all_unions(l0[pl as int], l0[pr as int], k).len(),
                        ));
                        assert(lv.last() =~= seq![id]);
                        assert(node_cuts_ok(l0[pl as int], l0[pr as int], k, id, lv));
                        assert(o[pl as int] == s[i].1.left_signal.index);
                        assert forall|r: int| 0 <= r < lv.len() implies (#[trigger] lv[r]).no_duplicates()
                            && lv[r].len() > 0 && forall|x: usize|
                            lv[r].contains(x) ==> exists|q: int| 0 <= q <= p && o[q] == x by {
                            if r == lv.len() - 1 {
                                assert(lv[r] == seq![id]);
                                assert forall|x: usize| lv[r].contains(x) implies exists|q: int|
                                    0 <= q <= p && o[q] == x by {
                                    assert(lv[r][0] == id);
                                    assert(o[p as int] == id);
                                }
                                assert(lv[r].no_duplicates());
                            } else {
                                assert(lv[r] == m0[r]);
                                assert(m0[r].no_duplicates());
                                assert(cand.contains(leaves(m0[r])));
                                let (x1, y1) = choose|x1: int, y1: int|
                                    0 <= x1 < l0[pl as int].len() && 0 <= y1 < l0[pr as int].len()
                                        && leaves(m0[r]) == leaves(l0[pl as int][x1]).union(
                                        leaves(l0[pr as int][y1]),
                                    );
                                let a = l0[pl as int][x1];
                                let b = l0[pr as int][y1];
                                assert(a.len() > 0);
                                assert(leaves(m0[r]).contains(a[0]));
                                assert forall|x: usize| lv[r].contains(x) implies exists|q: int|
                                    0 <= q <= p && o[q] == x by {
                                    assert(leaves(m0[r]).contains(x));
                                    if a.contains(x) {
                                        let q = choose|q: int| 0 <= q <= pl && o[q] == x;
                                    } else {
                                        assert(leaves(b).contains(x));
                                        let q = choose|q: int| 0 <= q <= pr && o[q] == x;
                                    }
                                }
                            }
                        }
                    }
                    let ghost lv = cuts_view(minimal@);
                    self.cuts.push(minimal);
                    proof {
                        let l1 = table_view(self.cuts@);
                        assert(l1 =~= l0.push(lv));
                        lemma_push_in_order(o, l0, lv);
                        assert forall|q: int| 0 <= q < p implies entry_ok(s, o, l1, k, q) by {
                            lemma_entry_stable(s, o, l0, l1, k, q);
                        }
                        assert forall|i2: int| 0 <= i2 < s.len() && #[trigger] s[i2].0 == o[p as int]
                            implies exists|pl: int, pr: int|
                            0 <= pl < p && 0 <= pr < p && o[pl] == s[i2].1.left_signal.index && o[pr]
                                == s[i2].1.right_signal.index && node_cuts_ok(
                                l1[pl],
                                l1[pr],
                                k,
                                o[p as int],
                                l1[p as int],
                            ) by {
                            assert(i == i2);
                            assert(l1[pl as int] == l0[pl as int]);
                            assert(l1[pr as int] == l0[pr as int]);
                            assert(o[pr as int] == s[i].1.right_signal.index);
                            assert(l1[p as int] == lv);
                            assert(node_cuts_ok(l0[pl as int], l0[pr as int], k, id, lv));
                            assert(0 <= pl < p && 0 <= pr < p && o[pl as int]
                                == s[i2].1.left_signal.index && o[pr as int]
                                == s[i2].1.right_signal.index && node_cuts_ok(
                                l1[pl as int],
                                l1[pr as int],
                                k,
                                o[p as int],
                                l1[p as int],
                            ));
                        }
                        assert(is_node(s, o[p as int]));
                        assert(entry_ok(s, o, l1, k, p as int));
                    }
                },
                None => {
                    let mut trivial: Vec<usize> = Vec::new();
                    trivial.push(id);
                    let mut only: Vec<Vec<usize>> = Vec::new();
                    only.push(trivial);
                    proof {
                        let lv = cuts_view(only@);
                        assert(lv =~= seq![seq![id]]);
                        assert forall|x: usize| lv[0].contains(x) implies exists|q: int|
                            0 <= q <= p && o[q] == x by {
                            assert(lv[0][0] == id);
                        }
                    }
                    let ghost lv = cuts_view(only@);
                    self.cuts.push(only);
                    proof {
                        let l1 = table_view(self.cuts@);
                        assert(l1 =~= l0.push(lv));
                        lemma_push_in_order(o, l0, lv);
                        assert forall|q: int| 0 <= q < p implies entry_ok(s, o, l1, k, q) by {
                            lemma_entry_stable(s, o, l0, l1, k, q);
                        }
                        assert(!is_node(s, o[p as int]));
                        assert(entry_ok(s, o, l1, k, p as int));
                    }
                },
            }
            p = p + 1;
        }
    }
    /// Computes the cuts of every gate of the graph and of every input of a
    /// gate, in a topological order of the graph; a graph without gates has
    /// the ids of `inputs` as its leaves.
    pub fn enumerate_cuts(&mut self, cut_size: usize, inputs: &[Signal])
        requires
            old(self).aig.wf(),
            cut_size >= 1,
        ensures
            final(self).aig == old(self).aig,
            final(self).num_inputs == inputs@.len(),
            old(self).aig.node_map@.len() > 0 ==> topo_order_ok(
                old(self).aig.node_map@,
                final(self).topo_order@,
            ),
            old(self).aig.node_map@.len() > 0 ==> final(self).topo_order@ == walk_order(
                old(self).aig.node_map@,
                old(self).aig.node_map@.len(),
            ),
            old(self).aig.node_map@.len() == 0 ==> final(self).topo_order@ == distinct_ids(inputs@),
            cuts_ok(
                old(self).aig.node_map@,
                final(self).topo_order@,
                table_view(final(self).cuts@),
                cut_size as nat,
            ),
    {
        let ghost s = self.aig.node_map@;
        self.num_inputs = inputs.len();
        let mut order = self.aig.topological_sort();
        proof {
            if s.len() > 0 {
                assert(in_prefix(s, s.len() as int, s[0].0));
                assert(order@.contains(s[0].0));
            } else if order@.len() > 0 {
                assert(in_prefix(s, 0, order@[0]));
            }
        }
        if order.len() == 0 {
            order = input_ids(inputs);
        }
        self.compute_cuts(order, cut_size);
    }

    /// The ids up to `target_node` in the order `full`, or `target_node` alone
    /// where `full` lacks it.
    #[verifier::rlimit(60)]
    fn relevant_nodes(&self, mut full: Vec<usize>, target_node: usize, is_in_input: bool) -> (r:
        Vec<usize>)
        requires
            self.aig.wf(),
            topo_order_ok(self.aig.node_map@, full@),
            is_in_input || full@.contains(target_node),
        ensures
            r@.no_duplicates(),
            inputs_first(self.aig.node_map@, r@),
            r@.len() > 0,
            r@.last() == target_node,
            !full@.contains(target_node) ==> r@ == seq![target_node],
            full@.contains(target_node) ==> r@ == full@.take(r@.len() as int),
    {
        let ghost s = self.aig.node_map@;
        match position_of(&full, target_node) {
            Some(pos) => {
                proof {
                    lemma_prefix_order(s, full@, pos + 1);
                }
                let ghost f = full@;
                let _rest = full.split_off(pos);
                full.push(target_node);
                proof {
                    assert(full@ =~= f.subrange(0, pos + 1));
                    assert(full@ =~= f.take(full@.len() as int));
                }
                full
            },
            None => {
                let mut single: Vec<usize> = Vec::new();
                single.push(target_node);
                proof {
                    assert(single@.no_duplicates());
                    assert forall|p: int, j: int|
                        0 <= p < single@.len() && 0 <= j < s.len() && #[trigger] single@[p]
                            == #[trigger] s[j].0 implies false by {
                        assert(in_prefix(s, s.len() as int, s[j].0));
                    }
                }
                single
            },
        }
    }

    /// Computes the cuts of `target_node` alone, with those of the ids before it
    /// in a topological order. An id that is neither a signal of `inputs` nor a
    /// gate or an input of one has no cuts: the result is then empty.
    pub fn calculate_cuts_single_node(
        &mut self,
        cut_size: usize,
        inputs: &[Signal],
        target_node: usize,
    ) -> (r: Vec<Vec<usize>>)
        requires
            old(self).aig.wf(),
            cut_size >= 1,
        ensures
            final(self).aig == old(self).aig,
            !(is_input(inputs@, target_node) || in_prefix(
                old(self).aig.node_map@,
                old(self).aig.node_map@.len() as int,
                target_node,
            )) ==> r@.len() == 0 && final(self).cuts@.len() == 0,
            is_input(inputs@, target_node) && !in_prefix(
                old(self).aig.node_map@,
                old(self).aig.node_map@.len() as int,
                target_node,
            ) ==> final(self).topo_order@ == seq![target_node] && table_view(final(self).cuts@)
                == seq![seq![seq![target_node]]],
            in_prefix(
                old(self).aig.node_map@,
                old(self).aig.node_map@.len() as int,
                target_node,
            ) ==> final(self).topo_order@ == walk_order(
                old(self).aig.node_map@,
                old(self).aig.node_map@.len(),
            ).take(final(self).topo_order@.len() as int),
            (is_input(inputs@, target_node) || in_prefix(
                old(self).aig.node_map@,
                old(self).aig.node_map@.len() as int,
                target_node,
            )) ==> {
                &&& cuts_ok(
                    old(self).aig.node_map@,
                    final(self).topo_order@,
                    table_view(final(self).cuts@),
                    cut_size as nat,
                )
                &&& final(self).topo_order@.len() > 0
                &&& final(self).topo_order@.last() == target_node
                &&& cuts_view(r@) == table_view(final(self).cuts@).last()
            },
    {
        let ghost s = self.aig.node_map@;
        let full = self.aig.topological_sort();
        let mut is_in_input = false;
        let mut i: usize = 0;
        while i < inputs.len()
            invariant
                i <= inputs@.len(),
                is_in_input <==> exists|j: int| 0 <= j < i && inputs@[j].index == target_node,
            decreases inputs@.len() - i,
        {
            if inputs[i].index == target_node {
                is_in_input = true;
            }
            i = i + 1;
        }
        let is_in_topo = contains_id(&full, target_node);
        if !is_in_input && !is_in_topo {
            self.cuts = Vec::new();
            self.topo_order = full;
            return Vec::new();
        }
        let relevant = self.relevant_nodes(full, target_node, is_in_input);
        self.compute_cuts(relevant, cut_size);
        let last = self.cuts.len() - 1;
        let r = copy_cuts(&self.cuts[last]);
        proof {
            if !is_in_topo {
                let l = table_view(self.cuts@);
                assert(self.topo_order@ =~= seq![target_node]);
                assert(!is_node(s, target_node)) by {
                    if is_node(s, target_node) {
                        let j = choose|j: int| 0 <= j < s.len() && s[j].0 == target_node;
                        assert(in_prefix(s, s.len() as int, target_node));
                    }
                }
                assert(entry_ok(s, self.topo_order@, l, cut_size as nat, 0));
                assert(l =~= seq![seq![seq![target_node]]]);
            }
            assert(table_view(self.cuts@)[last as int] == cuts_view(self.cuts@[last as int]@));
        }
        r
    }
}

} // verus!
