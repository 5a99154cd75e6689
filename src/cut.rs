use vstd::prelude::*;

verus! {

/// The leaves of a cut, as a set.
pub open spec fn leaves(c: Seq<usize>) -> Set<usize> {
    c.to_set()
}

/// The cuts of a list, as a sequence of leaf sequences.
pub open spec fn cuts_view(l: Seq<Vec<usize>>) -> Seq<Seq<usize>> {
    l.map_values(|c: Vec<usize>| c@)
}

/// The leaf sets of a list of cuts.
pub open spec fn pool_of(l: Seq<Seq<usize>>) -> Set<Set<usize>> {
    Set::new(|c: Set<usize>| exists|j: int| 0 <= j < l.len() && leaves(l[j]) == c)
}

/// The unions of one cut of `cl` with one cut of `cr` that have at most `k` leaves.
pub open spec fn candidates(cl: Seq<Seq<usize>>, cr: Seq<Seq<usize>>, k: nat) -> Set<Set<usize>> {
    Set::new(
        |c: Set<usize>|
            c.len() <= k && exists|x: int, y: int|
                0 <= x < cl.len() && 0 <= y < cr.len() && c == leaves(cl[x]).union(leaves(cr[y])),
    )
}

/// The leaf sets of a list of cuts, in order.
pub open spec fn sets_of(l: Seq<Seq<usize>>) -> Seq<Set<usize>> {
    l.map_values(|c: Seq<usize>| leaves(c))
}

/// The unions of cut `c` with each cut of `cr` in turn, keeping those with at
/// most `k` leaves.
pub open spec fn row_unions(c: Seq<usize>, cr: Seq<Seq<usize>>, k: nat) -> Seq<Set<usize>>
    decreases cr.len(),
{
    if cr.len() == 0 {
        Seq::empty()
    } else {
        let prev = row_unions(c, cr.drop_last(), k);
        let u = leaves(c).union(leaves(cr.last()));
        if u.len() <= k {
            prev.push(u)
        } else {
            prev
        }
    }
}

/// The rows of unions for each cut of `cl` in turn.
pub open spec fn all_unions(cl: Seq<Seq<usize>>, cr: Seq<Seq<usize>>, k: nat) -> Seq<Set<usize>>
    decreases cl.len(),
{
    if cl.len() == 0 {
        Seq::empty()
    } else {
        all_unions(cl.drop_last(), cr, k) + row_unions(cl.last(), cr, k)
    }
}

/// Some member of `pool` is a strict subset of `c`.
pub open spec fn dominated(pool: Set<Set<usize>>, c: Set<usize>) -> bool {
    exists|d: Set<usize>| pool.contains(d) && d.subset_of(c) && d != c
}

/// The leaf sets kept from the first `n` cuts of `all`, in order: each cut that
/// no cut of `all` dominates, unless an earlier cut has the same leaves.
pub open spec fn kept_prefix(all: Seq<Seq<usize>>, n: nat) -> Seq<Set<usize>>
    decreases n,
{
    if n == 0 || n > all.len() {
        Seq::empty()
    } else {
        let prev = kept_prefix(all, (n - 1) as nat);
        let c = leaves(all[n - 1]);
        if !dominated(pool_of(all), c) && !(exists|j: int|
            0 <= j < n - 1 && leaves(all[j]) == c) {
            prev.push(c)
        } else {
            prev
        }
    }
}

/// `kept_prefix` over leaf sets: from the first `n` sets of `u`, in order, each
/// set that no set of `u` is a strict subset of, unless an earlier set equals it.
pub open spec fn kept_sets(u: Seq<Set<usize>>, n: nat) -> Seq<Set<usize>>
    decreases n,
{
    if n == 0 || n > u.len() {
        Seq::empty()
    } else {
        let prev = kept_sets(u, (n - 1) as nat);
        let c = u[n - 1];
        if !dominated(u.to_set(), c) && !(exists|j: int| 0 <= j < n - 1 && u[j] == c) {
            prev.push(c)
        } else {
            prev
        }
    }
}

/// Keeping cuts depends on their leaf sets alone.
pub proof fn lemma_kept_sets(all: Seq<Seq<usize>>, n: nat)
    ensures
        kept_prefix(all, n) == kept_sets(sets_of(all), n),
    decreases n,
{
    let u = sets_of(all);
    assert(pool_of(all) =~= u.to_set()) by {
        assert forall|c: Set<usize>| pool_of(all).contains(c) implies u.to_set().contains(c) by {
            let j = choose|j: int| 0 <= j < all.len() && leaves(all[j]) == c;
            assert(u[j] == c);
        }
        assert forall|c: Set<usize>| u.to_set().contains(c) implies pool_of(all).contains(c) by {
            let j = choose|j: int| 0 <= j < u.len() && u[j] == c;
            assert(leaves(all[j]) == c);
        }
    }
    if n > 0 && n <= all.len() {
        lemma_kept_sets(all, (n - 1) as nat);
        let c = leaves(all[n - 1]);
        assert(u[n - 1] == c);
        assert((exists|j: int| 0 <= j < n - 1 && leaves(all[j]) == c) == (exists|j: int|
            0 <= j < n - 1 && u[j] == c)) by {
            if exists|j: int| 0 <= j < n - 1 && leaves(all[j]) == c {
                let j = choose|j: int| 0 <= j < n - 1 && leaves(all[j]) == c;
                assert(u[j] == c);
            }
            if exists|j: int| 0 <= j < n - 1 && u[j] == c {
                let j = choose|j: int| 0 <= j < n - 1 && u[j] == c;
                assert(leaves(all[j]) == c);
            }
        }
    }
}

/// `r` lists, once each and each leaf once, exactly the members of `pool` that no
/// other member of `pool` is a strict subset of.
pub open spec fn minimal_of(pool: Set<Set<usize>>, r: Seq<Seq<usize>>) -> bool {
    &&& forall|i: int|
        0 <= i < r.len() ==> #[trigger] r[i].no_duplicates() && pool.contains(leaves(r[i]))
            && !dominated(pool, leaves(r[i]))
    &&& forall|c: Set<usize>| pool.contains(c) && !dominated(pool, c) ==> exists|i: int|
        0 <= i < r.len() && leaves(r[i]) == c
    &&& forall|i: int, j: int|
        0 <= i < r.len() && 0 <= j < r.len() && i != j ==> leaves(#[trigger] r[i]) != leaves(
            #[trigger] r[j],
        )
}

/// The union of two cuts, each leaf once.
pub fn cut_union(a: &Vec<usize>, b: &Vec<usize>) -> (r: Vec<usize>)
    requires
        a@.no_duplicates(),
        b@.no_duplicates(),
    ensures
        r@.no_duplicates(),
        leaves(r@) == leaves(a@).union(leaves(b@)),
        r@.len() == leaves(r@).len(),
{
    let mut r: Vec<usize> = a.clone();
    let mut j: usize = 0;
    while j < b.len()
        invariant
            r@.no_duplicates(),
            j <= b@.len(),
            forall|x: usize| r@.contains(x) <==> (a@.contains(x) || b@.take(j as int).contains(x)),
        decreases b@.len() - j,
    {
        let y = b[j];
        let ghost r0 = r@;
        proof {
            assert(b@.take(j + 1) == b@.take(j as int).push(y));
        }
        if !crate::aig::contains_id(&r, y) {
            r.push(y);
            proof {
                assert forall|x: usize| r@.contains(x) <==> (r0.contains(x) || x == y) by {
                    if x == y {
                        assert(r@[r@.len() - 1] == y);
                    }
                    if r0.contains(x) {
                        let p = choose|p: int| 0 <= p < r0.len() && r0[p] == x;
                        assert(r@[p] == x);
                    }
                }
            }
        }
        proof {
            let t0 = b@.take(j as int);
            let t1 = b@.take(j + 1);
            assert forall|x: usize| t1.contains(x) <==> (t0.contains(x) || x == y) by {
                if x == y {
                    assert(t1[j as int] == y);
                }
                if t0.contains(x) {
                    let p = choose|p: int| 0 <= p < t0.len() && t0[p] == x;
                    assert(t1[p] == x);
                }
                if t1.contains(x) && x != y {
                    let p = choose|p: int| 0 <= p < t1.len() && t1[p] == x;
                    assert(t0[p] == x);
                }
            }
            assert(r@.contains(y));
            assert forall|x: usize| r@.contains(x) <==> (a@.contains(x) || t1.contains(x)) by {
                assert(r0.contains(x) <==> (a@.contains(x) || t0.contains(x)));
                if r0.contains(x) {
                    let p = choose|p: int| 0 <= p < r0.len() && r0[p] == x;
                    assert(r@[p] == x);
                }
            }
        }
        j = j + 1;
    }
    proof {
        assert(b@.take(b@.len() as int) == b@);
        assert(leaves(r@) =~= leaves(a@).union(leaves(b@)));
        r@.unique_seq_to_set();
    }
    r
}

/// Whether every leaf of `a` is a leaf of `b`.
pub fn is_subset(a: &Vec<usize>, b: &Vec<usize>) -> (r: bool)
    ensures
        r == leaves(a@).subset_of(leaves(b@)),
{
    let mut i: usize = 0;
    while i < a.len()
        invariant
            i <= a@.len(),
            forall|j: int| 0 <= j < i ==> b@.contains(a@[j]),
        decreases a@.len() - i,
    {
        if !crate::aig::contains_id(b, a[i]) {
            assert(leaves(a@).contains(a@[i as int]));
            return false;
        }
        i = i + 1;
    }
    proof {
        assert forall|x: usize| leaves(a@).contains(x) implies leaves(b@).contains(x) by {
            let j = choose|j: int| 0 <= j < a@.len() && a@[j] == x;
        }
    }
    true
}

/// Whether the two cuts have the same leaves.
pub fn same_leaves(a: &Vec<usize>, b: &Vec<usize>) -> (r: bool)
    ensures
        r == (leaves(a@) == leaves(b@)),
{
    let r = is_subset(a, b) && is_subset(b, a);
    proof {
        if leaves(a@).subset_of(leaves(b@)) && leaves(b@).subset_of(leaves(a@)) {
            assert(leaves(a@) =~= leaves(b@));
        }
    }
    r
}

/// Keeps the cuts of `all_cuts` that no other cut of it dominates (is a strict
/// subset of), each set of leaves once, in order of first appearance.
pub fn filter_minimal_cuts(all_cuts: &Vec<Vec<usize>>) -> (r: Vec<Vec<usize>>)
    requires
        forall|j: int| 0 <= j < all_cuts@.len() ==> (#[trigger] all_cuts@[j])@.no_duplicates(),
    ensures
        minimal_of(pool_of(cuts_view(all_cuts@)), cuts_view(r@)),
        sets_of(cuts_view(r@)) == kept_prefix(cuts_view(all_cuts@), all_cuts@.len() as nat),
{
    let ghost pool = pool_of(cuts_view(all_cuts@));
    let mut result: Vec<Vec<usize>> = Vec::new();
    let mut i: usize = 0;
    proof {
        assert(sets_of(cuts_view(result@)) =~= Seq::<Set<usize>>::empty());
    }
    while i < all_cuts.len()
        invariant
            i <= all_cuts@.len(),
            pool == pool_of(cuts_view(all_cuts@)),
            forall|j: int| 0 <= j < all_cuts@.len() ==> (#[trigger] all_cuts@[j])@.no_duplicates(),
            forall|m: int|
                0 <= m < result@.len() ==> (#[trigger] result@[m])@.no_duplicates()
                    && pool.contains(leaves(result@[m]@)) && !dominated(pool, leaves(result@[m]@)),
            forall|j: int|
                0 <= j < i && !dominated(pool, leaves(all_cuts@[j]@)) ==> exists|m: int|
                    0 <= m < result@.len() && leaves(result@[m]@) == leaves(#[trigger] all_cuts@[j]@),
            forall|m1: int, m2: int|
                0 <= m1 < result@.len() && 0 <= m2 < result@.len() && m1 != m2 ==> leaves(
                    (#[trigger] result@[m1])@,
                ) != leaves((#[trigger] result@[m2])@),
            sets_of(cuts_view(result@)) == kept_prefix(cuts_view(all_cuts@), i as nat),
            forall|m: int|
                0 <= m < result@.len() ==> exists|j: int|
                    0 <= j < i && leaves(all_cuts@[j]@) == leaves((#[trigger] result@[m])@),
        decreases all_cuts@.len() - i,
    {
        let c2 = &all_cuts[i];
        let ghost res0 = result@;
        let ghost av = cuts_view(all_cuts@);
        proof {
            assert(av[i as int] == c2@);
            assert(cuts_view(all_cuts@)[i as int] == c2@);
            assert(pool.contains(leaves(c2@)));
        }
        let mut j: usize = 0;
        let mut is_dominated = false;
        while j < all_cuts.len() && !is_dominated
            invariant
                j <= all_cuts@.len(),
                c2 == &all_cuts@[i as int],
                i < all_cuts@.len(),
                pool == pool_of(cuts_view(all_cuts@)),
                is_dominated ==> dominated(pool, leaves(c2@)),
                !is_dominated ==> forall|k: int|
                    0 <= k < j ==> !(leaves((#[trigger] all_cuts@[k])@).subset_of(leaves(c2@))
                        && leaves(all_cuts@[k]@) != leaves(c2@)),
            decreases all_cuts@.len() - j,
        {
            let c1 = &all_cuts[j];
            if i != j && is_subset(c1, c2) && !same_leaves(c1, c2) {
                proof {
                    assert(cuts_view(all_cuts@)[j as int] == c1@);
                    assert(pool.contains(leaves(c1@)));
                }
                is_dominated = true;
            }
            j = j + 1;
        }
        proof {
            if !is_dominated {
                assert forall|d: Set<usize>| pool.contains(d) && d.subset_of(leaves(c2@)) implies d
                    == leaves(c2@) by {
                    let k = choose|k: int|
                        0 <= k < cuts_view(all_cuts@).len() && leaves(cuts_view(all_cuts@)[k]) == d;
                    assert(cuts_view(all_cuts@)[k] == all_cuts@[k]@);
                    if k != i {
                        assert(!(leaves((all_cuts@[k])@).subset_of(leaves(c2@))
                            && leaves(all_cuts@[k]@) != leaves(c2@)));
                    }
                }
            }
        }
        if !is_dominated {
            let mut m: usize = 0;
            let mut present = false;
            while m < result.len() && !present
                invariant
                    m <= result@.len(),
                    present ==> exists|q: int|
                        0 <= q < result@.len() && leaves(result@[q]@) == leaves(c2@),
                    !present ==> forall|q: int|
                        0 <= q < m ==> leaves((#[trigger] result@[q])@) != leaves(c2@),
                decreases result@.len() - m,
            {
                if same_leaves(&result[m], c2) {
                    present = true;
                }
                m = m + 1;
            }
            if !present {
                let ghost r0 = result@;
                result.push(c2.clone());
                proof {
                    assert(result@[r0.len() as int]@ == c2@);
                    assert forall|q: int| 0 <= q < r0.len() implies result@[q] == r0[q] by {}
                    assert forall|m1: int, m2: int|
                        0 <= m1 < result@.len() && 0 <= m2 < result@.len() && m1 != m2 implies leaves(
                            (#[trigger] result@[m1])@,
                        ) != leaves((#[trigger] result@[m2])@) by {
                        if m1 < r0.len() && m2 < r0.len() {
                            assert(r0[m1] == result@[m1]);
                            assert(r0[m2] == result@[m2]);
                        } else if m1 < r0.len() {
                            assert(r0[m1] == result@[m1]);
                        } else if m2 < r0.len() {
                            assert(r0[m2] == result@[m2]);
                        }
                    }
                }
            }
        }
        proof {
            let c = leaves(c2@);
            assert forall|j: int| 0 <= j < i implies leaves(av[j]) == leaves(all_cuts@[j]@) by {
                assert(av[j] == all_cuts@[j]@);
            }
            if !is_dominated {
                assert(!dominated(pool, c));
            }
            let ex = exists|j: int| 0 <= j < i && leaves(av[j]) == c;
            if !is_dominated && ex {
                let j = choose|j: int| 0 <= j < i && leaves(av[j]) == c;
                assert(leaves(all_cuts@[j]@) == c);
                assert(!dominated(pool, leaves(all_cuts@[j]@)));
                let m = choose|m: int|
                    0 <= m < res0.len() && leaves(res0[m]@) == leaves(all_cuts@[j]@);
                assert(result@ == res0);
            }
            if !is_dominated && !ex && result@ == res0 {
                let q = choose|q: int| 0 <= q < res0.len() && leaves(res0[q]@) == c;
                let j = choose|j: int| 0 <= j < i && leaves(all_cuts@[j]@) == leaves(res0[q]@);
                assert(leaves(av[j]) == c);
            }
            assert(sets_of(cuts_view(result@)) =~= kept_prefix(av, (i + 1) as nat));
            assert forall|m: int| 0 <= m < result@.len() implies exists|j: int|
                0 <= j < i + 1 && leaves(all_cuts@[j]@) == leaves((#[trigger] result@[m])@) by {
                if m < res0.len() {
                    assert(result@[m] == res0[m]);
                    let j = choose|j: int| 0 <= j < i && leaves(all_cuts@[j]@) == leaves(res0[m]@);
                } else {
                    assert(result@[m]@ == c2@);
                    assert(leaves(all_cuts@[i as int]@) == leaves(result@[m]@));
                }
            }
        }
        i = i + 1;
    }
    proof {
        let rv = cuts_view(result@);
        let av = cuts_view(all_cuts@);
        assert forall|c: Set<usize>| pool.contains(c) && !dominated(pool, c) implies exists|q: int|
            0 <= q < rv.len() && leaves(rv[q]) == c by {
            let k = choose|k: int| 0 <= k < av.len() && leaves(av[k]) == c;
            assert(av[k] == all_cuts@[k]@);
            let m = choose|m: int|
                0 <= m < result@.len() && leaves(result@[m]@) == leaves(all_cuts@[k]@);
            assert(rv[m] == result@[m]@);
        }
        assert forall|q: int| 0 <= q < rv.len() implies #[trigger] rv[q].no_duplicates()
            && pool.contains(leaves(rv[q])) && !dominated(pool, leaves(rv[q])) by {
            assert(rv[q] == result@[q]@);
        }
        assert forall|q1: int, q2: int|
            0 <= q1 < rv.len() && 0 <= q2 < rv.len() && q1 != q2 implies leaves(
                #[trigger] rv[q1],
            ) != leaves(#[trigger] rv[q2]) by {
            assert(rv[q1] == result@[q1]@);
            assert(rv[q2] == result@[q2]@);
        }
    }
    result
}

/// Every union of a cut of `left` with a cut of `right` that has at most
/// `cut_size` leaves, in order of `left`, then of `right`.
pub fn compute_node_cuts(left: &Vec<Vec<usize>>, right: &Vec<Vec<usize>>, cut_size: usize) -> (r:
    Vec<Vec<usize>>)
    requires
        forall|j: int| 0 <= j < left@.len() ==> (#[trigger] left@[j])@.no_duplicates(),
        forall|j: int| 0 <= j < right@.len() ==> (#[trigger] right@[j])@.no_duplicates(),
    ensures
        forall|j: int| 0 <= j < r@.len() ==> (#[trigger] r@[j])@.no_duplicates(),
        pool_of(cuts_view(r@)) == candidates(cuts_view(left@), cuts_view(right@), cut_size as nat),
        sets_of(cuts_view(r@)) == all_unions(cuts_view(left@), cuts_view(right@), cut_size as nat),
{
    let ghost cl = cuts_view(left@);
    let ghost cr = cuts_view(right@);
    let ghost cand = candidates(cl, cr, cut_size as nat);
    let mut new_cuts: Vec<Vec<usize>> = Vec::new();
    let mut x: usize = 0;
    proof {
        assert(cl.take(0) =~= Seq::<Seq<usize>>::empty());
        assert(sets_of(cuts_view(new_cuts@)) =~= Seq::<Set<usize>>::empty());
    }
    while x < left.len()
        invariant
            x <= left@.len(),
            cl == cuts_view(left@),
            cr == cuts_view(right@),
            cand == candidates(cl, cr, cut_size as nat),
            forall|j: int| 0 <= j < left@.len() ==> (#[trigger] left@[j])@.no_duplicates(),
            forall|j: int| 0 <= j < right@.len() ==> (#[trigger] right@[j])@.no_duplicates(),
            forall|j: int|
                0 <= j < new_cuts@.len() ==> (#[trigger] new_cuts@[j])@.no_duplicates()
                    && cand.contains(leaves(new_cuts@[j]@)),
            forall|x1: int, y1: int|
                0 <= x1 < x && 0 <= y1 < right@.len() && leaves(left@[x1]@).union(
                    leaves(right@[y1]@),
                ).len() <= cut_size ==> exists|j: int|
                    0 <= j < new_cuts@.len() && leaves(new_cuts@[j]@) == leaves(
                        #[trigger] left@[x1]@,
                    ).union(leaves(#[trigger] right@[y1]@)),
            sets_of(cuts_view(new_cuts@)) == all_unions(cl.take(x as int), cr, cut_size as nat),
        decreases left@.len() - x,
    {
        let mut y: usize = 0;
        proof {
            assert(cr.take(0) =~= Seq::<Seq<usize>>::empty());
            assert(all_unions(cl.take(x as int), cr, cut_size as nat) + row_unions(
                cl[x as int],
                cr.take(0),
                cut_size as nat,
            ) =~= all_unions(cl.take(x as int), cr, cut_size as nat));
        }
        while y < right.len()
            invariant
                x < left@.len(),
                y <= right@.len(),
                cl == cuts_view(left@),
                cr == cuts_view(right@),
                cand == candidates(cl, cr, cut_size as nat),
                forall|j: int| 0 <= j < left@.len() ==> (#[trigger] left@[j])@.no_duplicates(),
                forall|j: int| 0 <= j < right@.len() ==> (#[trigger] right@[j])@.no_duplicates(),
                forall|j: int|
                    0 <= j < new_cuts@.len() ==> (#[trigger] new_cuts@[j])@.no_duplicates()
                        && cand.contains(leaves(new_cuts@[j]@)),
                forall|x1: int, y1: int|
                    0 <= x1 <= x && 0 <= y1 < right@.len() && (x1 < x || y1 < y) && leaves(
                        left@[x1]@,
                    ).union(leaves(right@[y1]@)).len() <= cut_size ==> exists|j: int|
                        0 <= j < new_cuts@.len() && leaves(new_cuts@[j]@) == leaves(
                            #[trigger] left@[x1]@,
                        ).union(leaves(#[trigger] right@[y1]@)),
                sets_of(cuts_view(new_cuts@)) == all_unions(cl.take(x as int), cr, cut_size as nat)
                    + row_unions(cl[x as int], cr.take(y as int), cut_size as nat),
            decreases right@.len() - y,
        {
            let union = cut_union(&left[x], &right[y]);
            let ghost s0 = sets_of(cuts_view(new_cuts@));
            proof {
                let ct = cr.take(y + 1);
                assert(ct.drop_last() =~= cr.take(y as int));
                assert(ct.last() == cr[y as int]);
                assert(cl[x as int] == left@[x as int]@);
                assert(cr[y as int] == right@[y as int]@);
            }
            if union.len() <= cut_size {
                let ghost n0 = new_cuts@;
                proof {
                    assert(cl[x as int] == left@[x as int]@);
                    assert(cr[y as int] == right@[y as int]@);
                    assert(cand.contains(leaves(union@)));
                }
                new_cuts.push(union);
                proof {
                    assert forall|j: int| 0 <= j < n0.len() implies new_cuts@[j] == n0[j] by {}
                    assert(new_cuts@[n0.len() as int]@ == union@);
                    assert(sets_of(cuts_view(new_cuts@)) =~= s0.push(leaves(union@)));
                }
            }
            proof {
                assert(sets_of(cuts_view(new_cuts@)) =~= all_unions(
                    cl.take(x as int),
                    cr,
                    cut_size as nat,
                ) + row_unions(cl[x as int], cr.take(y + 1), cut_size as nat));
            }
            y = y + 1;
        }
        proof {
            let lt = cl.take(x + 1);
            assert(lt.drop_last() =~= cl.take(x as int));
            assert(lt.last() == cl[x as int]);
            assert(cr.take(cr.len() as int) =~= cr);
        }
        x = x + 1;
    }
    proof {
        assert(cl.take(cl.len() as int) =~= cl);
        let nv = cuts_view(new_cuts@);
        assert forall|c: Set<usize>| pool_of(nv).contains(c) <==> cand.contains(c) by {
            if pool_of(nv).contains(c) {
                let j = choose|j: int| 0 <= j < nv.len() && leaves(nv[j]) == c;
                assert(nv[j] == new_cuts@[j]@);
            }
            if cand.contains(c) {
                let (x1, y1) = choose|x1: int, y1: int|
                    0 <= x1 < cl.len() && 0 <= y1 < cr.len() && c == leaves(cl[x1]).union(
                        leaves(cr[y1]),
                    );
                assert(cl[x1] == left@[x1]@);
                assert(cr[y1] == right@[y1]@);
                let j = choose|j: int|
                    0 <= j < new_cuts@.len() && leaves(new_cuts@[j]@) == leaves(left@[x1]@).union(
                        leaves(right@[y1]@),
                    );
                assert(nv[j] == new_cuts@[j]@);
            }
        }
        assert(pool_of(nv) =~= cand);
    }
    new_cuts
}

} // verus!
