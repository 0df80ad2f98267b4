//! Crossing minimisation by barycentre sweeps: each layer is reordered by
//! the mean slot of its neighbours in the adjacent, fixed layer.
//!
//! Means are compared exactly, as fractions.

use vstd::prelude::*;
use crate::layout::layering::{
    acyclic_orientation, build_layering, dfs_orientation, buckets_ok, chain_linked, chain_ok, edge_chain,
    edges_in_range, last_slot, longest_path_layering, positions, pred_upto, slot_in_layers,
    spans_one_layer, succ_upto, virtuals_before, Layering,
};

verus! {

/// Sum of the slots of the nodes listed in `ns`.
pub open spec fn slot_sum(order: Seq<usize>, ns: Seq<usize>) -> int
    decreases ns.len(),
{
    if ns.len() == 0 {
        0
    } else {
        slot_sum(order, ns.drop_last()) + order[ns.last() as int]
    }
}

/// The barycentre of node `x` as a fraction `(numerator, denominator)`: the
/// mean slot of its neighbours, or its own slot when it has none.
pub open spec fn barycenter(order: Seq<usize>, neighbors: Seq<Vec<usize>>, x: usize) -> (int, int) {
    if neighbors[x as int]@.len() == 0 {
        (order[x as int] as int, 1)
    } else {
        (slot_sum(order, neighbors[x as int]@), neighbors[x as int]@.len() as int)
    }
}

/// Fraction `a`, held at slot `i`, comes before fraction `b` held at slot
/// `j`: it is smaller, or equal and from an earlier slot (the sort is
/// stable).
pub open spec fn key_before(a: (int, int), i: int, b: (int, int), j: int) -> bool {
    a.0 * b.1 < b.0 * a.1 || (a.0 * b.1 == b.0 * a.1 && i < j)
}

/// `new` lists `old[perm[k]]` in slot `k`, `perm` being a permutation of
/// the slots of `old`.
pub open spec fn permuted(old: Seq<usize>, new: Seq<usize>, perm: Seq<int>) -> bool {
    &&& perm.len() == old.len()
    &&& new.len() == old.len()
    &&& forall|k: int| 0 <= k < perm.len() ==> 0 <= #[trigger] perm[k] < old.len()
    &&& forall|j: int, k: int| 0 <= j < k < perm.len() ==> #[trigger] perm[j] != #[trigger] perm[k]
    &&& forall|k: int| 0 <= k < perm.len() ==> #[trigger] new[k] == old[perm[k]]
    &&& forall|t: int| 0 <= t < old.len() ==> #[trigger] covers(perm, t)
}

/// Some entry of `perm` is `t`.
pub open spec fn covers(perm: Seq<int>, t: int) -> bool {
    exists|k: int| 0 <= k < perm.len() && perm[k] == t
}

/// Some entry of `perm` is `t`.
pub open spec fn covers_slot(perm: Seq<usize>, t: int) -> bool {
    exists|k: int| 0 <= k < perm.len() && perm[k] == t
}

/// `new` is `old` stably sorted by barycentre.
pub open spec fn sorted_by_barycenter(
    old: Seq<usize>,
    new: Seq<usize>,
    neighbors: Seq<Vec<usize>>,
    order: Seq<usize>,
) -> bool {
    exists|perm: Seq<int>|
        permuted(old, new, perm) && forall|k: int|
            0 <= k < perm.len() - 1 ==> key_before(
                barycenter(order, neighbors, old[#[trigger] perm[k]]),
                perm[k],
                barycenter(order, neighbors, old[perm[k + 1]]),
                perm[k + 1],
            )
}

/// Slots and neighbour counts small enough for exact fraction arithmetic.
pub open spec fn small_counts(neighbors: Seq<Vec<usize>>, order: Seq<usize>) -> bool {
    &&& forall|x: int| 0 <= x < order.len() ==> #[trigger] order[x] <= u32::MAX
    &&& forall|x: int| 0 <= x < neighbors.len() ==> (#[trigger] neighbors[x])@.len() <= u32::MAX
}

proof fn lemma_slot_sum_bound(order: Seq<usize>, ns: Seq<usize>)
    requires
        forall|k: int| 0 <= k < ns.len() ==> #[trigger] ns[k] < order.len(),
        forall|x: int| 0 <= x < order.len() ==> #[trigger] order[x] <= u32::MAX,
    ensures
        0 <= slot_sum(order, ns) <= ns.len() * (u32::MAX as int),
    decreases ns.len(),
{
    if ns.len() > 0 {
        lemma_slot_sum_bound(order, ns.drop_last());
        assert(order[ns.last() as int] <= u32::MAX);
    }
}

/// The barycentre of `x`, computed exactly.
fn barycenter_of(order: &[usize], neighbors: &[Vec<usize>], x: usize) -> (key: (u64, u64))
    requires
        x < neighbors@.len(),
        small_counts(neighbors@, order@),
        x < order@.len(),
        forall|k: int|
            0 <= k < neighbors@[x as int]@.len() ==> #[trigger] neighbors@[x as int]@[k]
                < order@.len(),
    ensures
        key.0 == barycenter(order@, neighbors@, x).0,
        key.1 == barycenter(order@, neighbors@, x).1,
        key.1 >= 1,
        key.0 <= u64::MAX,
{
    let ns = &neighbors[x];
    if ns.len() == 0 {
        return (order[x] as u64, 1);
    }
    let mut sum: u64 = 0;
    let mut k: usize = 0;
    while k < ns.len()
        invariant
            *ns == neighbors@[x as int],
            k <= ns@.len(),
            ns@.len() <= u32::MAX,
            forall|x: int| 0 <= x < order@.len() ==> #[trigger] order@[x] <= u32::MAX,
            forall|j: int| 0 <= j < ns@.len() ==> #[trigger] ns@[j] < order@.len(),
            sum == slot_sum(order@, ns@.take(k as int)),
        decreases ns@.len() - k,
    {
        proof {
            assert(ns@.take(k + 1).drop_last() =~= ns@.take(k as int));
            lemma_slot_sum_bound(order@, ns@.take(k as int));
            assert(k * (u32::MAX as int) + u32::MAX <= u32::MAX as int * u32::MAX as int) by (nonlinear_arith)
                requires
                    k < u32::MAX,
            ;
        }
        sum = sum + order[ns[k]] as u64;
        k += 1;
    }
    proof {
        assert(ns@.take(ns@.len() as int) =~= ns@);
    }
    (sum, ns.len() as u64)
}

/// Exact comparison of two fractions with positive denominators, ties
/// broken by slot.
fn key_less(a: (u64, u64), i: usize, b: (u64, u64), j: usize) -> (r: bool)
    ensures
        r == key_before((a.0 as int, a.1 as int), i as int, (b.0 as int, b.1 as int), j as int),
{
    proof {
        let (p, q, r, t) = (a.0 as int, b.1 as int, b.0 as int, a.1 as int);
        assert(p * q <= u128::MAX) by (nonlinear_arith)
            requires
                0 <= p <= u64::MAX,
                0 <= q <= u64::MAX,
        ;
        assert(r * t <= u128::MAX) by (nonlinear_arith)
            requires
                0 <= r <= u64::MAX,
                0 <= t <= u64::MAX,
        ;
    }
    let lhs = a.0 as u128 * b.1 as u128;
    let rhs = b.0 as u128 * a.1 as u128;
    lhs < rhs || (lhs == rhs && i < j)
}

/// The key order on slots of `old`, with keys as computed.
spec fn slot_before(keys: Seq<(u64, u64)>, a: int, b: int) -> bool {
    key_before((keys[a].0 as int, keys[a].1 as int), a, (keys[b].0 as int, keys[b].1 as int), b)
}

/// Slot `x` of `old` comes before slot `y` in the stable barycentre order.
pub open spec fn slot_first(old: Seq<usize>, nb: Seq<Vec<usize>>, order: Seq<usize>, x: int, y: int) -> bool {
    key_before(barycenter(order, nb, old[x]), x, barycenter(order, nb, old[y]), y)
}

/// Each slot of `perm` comes before the next one.
pub open spec fn adjacent_sorted(old: Seq<usize>, nb: Seq<Vec<usize>>, order: Seq<usize>, perm: Seq<int>) -> bool {
    forall|k: int| 0 <= k < perm.len() - 1 ==> #[trigger] slot_first(old, nb, order, perm[k], perm[k + 1])
}

proof fn lemma_key_trans(a: (int, int), i: int, b: (int, int), j: int, c: (int, int), k: int)
    requires
        a.1 > 0,
        b.1 > 0,
        c.1 > 0,
        key_before(a, i, b, j),
        key_before(b, j, c, k),
    ensures
        key_before(a, i, c, k),
{
    let x = a.0 * b.1 - b.0 * a.1;
    let y = b.0 * c.1 - c.0 * b.1;
    let z = a.0 * c.1 - c.0 * a.1;
    assert(b.1 * z == c.1 * x + a.1 * y) by (nonlinear_arith)
        requires
            x == a.0 * b.1 - b.0 * a.1,
            y == b.0 * c.1 - c.0 * b.1,
            z == a.0 * c.1 - c.0 * a.1,
    ;
    assert(x <= 0 && y <= 0);
    if x < 0 || y < 0 {
        assert(c.1 * x + a.1 * y < 0) by (nonlinear_arith)
            requires
                c.1 > 0,
                a.1 > 0,
                x <= 0,
                y <= 0,
                x < 0 || y < 0,
        ;
        assert(z < 0) by (nonlinear_arith)
            requires
                b.1 > 0,
                b.1 * z < 0,
        ;
    } else {
        assert(c.1 * x + a.1 * y == 0) by (nonlinear_arith)
            requires
                x == 0,
                y == 0,
        ;
        assert(z == 0) by (nonlinear_arith)
            requires
                b.1 > 0,
                b.1 * z == 0,
        ;
    }
}

proof fn lemma_barycenter_positive(order: Seq<usize>, nb: Seq<Vec<usize>>, x: usize)
    ensures
        barycenter(order, nb, x).1 > 0,
{
}

/// Adjacent order extends to every pair, by transitivity.
proof fn lemma_sorted_full(old: Seq<usize>, nb: Seq<Vec<usize>>, order: Seq<usize>, perm: Seq<int>, j: int, k: int)
    requires
        adjacent_sorted(old, nb, order, perm),
        forall|t: int| 0 <= t < perm.len() ==> 0 <= #[trigger] perm[t] < old.len(),
        0 <= j < k < perm.len(),
    ensures
        slot_first(old, nb, order, perm[j], perm[k]),
    decreases k - j,
{
    let km = k - 1;
    assert(slot_first(old, nb, order, perm[km], perm[km + 1]));
    assert(km + 1 == k);
    if j < k - 1 {
        lemma_sorted_full(old, nb, order, perm, j, k - 1);
        lemma_barycenter_positive(order, nb, old[perm[j]]);
        lemma_barycenter_positive(order, nb, old[perm[k - 1]]);
        lemma_barycenter_positive(order, nb, old[perm[k]]);
        lemma_key_trans(
            barycenter(order, nb, old[perm[j]]),
            perm[j],
            barycenter(order, nb, old[perm[k - 1]]),
            perm[k - 1],
            barycenter(order, nb, old[perm[k]]),
            perm[k],
        );
    }
}

/// Two sorted permutations that agree before slot `k` agree at `k`.
proof fn lemma_sorted_agree_at(
    old: Seq<usize>,
    nb: Seq<Vec<usize>>,
    order: Seq<usize>,
    n1: Seq<usize>,
    n2: Seq<usize>,
    p1: Seq<int>,
    p2: Seq<int>,
    k: int,
)
    requires
        permuted(old, n1, p1),
        permuted(old, n2, p2),
        adjacent_sorted(old, nb, order, p1),
        adjacent_sorted(old, nb, order, p2),
        0 <= k < p1.len(),
        forall|j: int| 0 <= j < k ==> #[trigger] p1[j] == p2[j],
    ensures
        p1[k] == p2[k],
{
    let a = p1[k];
    let b = p2[k];
    if a != b {
        assert(covers(p2, a));
        let k2 = choose|t: int| 0 <= t < p2.len() && p2[t] == a;
        assert(covers(p1, b));
        let k1 = choose|t: int| 0 <= t < p1.len() && p1[t] == b;
        if k2 < k {
            assert(p1[k2] == a);
        }
        if k1 < k {
            assert(p2[k1] == b);
            assert(p1[k1] == b);
        }
        assert(k2 > k && k1 > k);
        lemma_sorted_full(old, nb, order, p2, k, k2);
        lemma_sorted_full(old, nb, order, p1, k, k1);
        assert(slot_first(old, nb, order, b, a));
        assert(slot_first(old, nb, order, a, b));
    }
}

proof fn lemma_sorted_agree_upto(
    old: Seq<usize>,
    nb: Seq<Vec<usize>>,
    order: Seq<usize>,
    n1: Seq<usize>,
    n2: Seq<usize>,
    p1: Seq<int>,
    p2: Seq<int>,
    k: int,
)
    requires
        permuted(old, n1, p1),
        permuted(old, n2, p2),
        adjacent_sorted(old, nb, order, p1),
        adjacent_sorted(old, nb, order, p2),
        0 <= k <= p1.len(),
    ensures
        forall|j: int| 0 <= j < k ==> #[trigger] p1[j] == p2[j],
    decreases k,
{
    if k > 0 {
        lemma_sorted_agree_upto(old, nb, order, n1, n2, p1, p2, k - 1);
        lemma_sorted_agree_at(old, nb, order, n1, n2, p1, p2, k - 1);
    }
}

/// There is one stable barycentre order of a layer.
proof fn lemma_sorted_unique(
    old: Seq<usize>,
    n1: Seq<usize>,
    n2: Seq<usize>,
    nb: Seq<Vec<usize>>,
    order: Seq<usize>,
)
    requires
        sorted_by_barycenter(old, n1, nb, order),
        sorted_by_barycenter(old, n2, nb, order),
    ensures
        n1 == n2,
{
    let p1 = choose|perm: Seq<int>|
        permuted(old, n1, perm) && forall|k: int|
            0 <= k < perm.len() - 1 ==> key_before(
                barycenter(order, nb, old[#[trigger] perm[k]]),
                perm[k],
                barycenter(order, nb, old[perm[k + 1]]),
                perm[k + 1],
            );
    let p2 = choose|perm: Seq<int>|
        permuted(old, n2, perm) && forall|k: int|
            0 <= k < perm.len() - 1 ==> key_before(
                barycenter(order, nb, old[#[trigger] perm[k]]),
                perm[k],
                barycenter(order, nb, old[perm[k + 1]]),
                perm[k + 1],
            );
    assert(adjacent_sorted(old, nb, order, p1));
    assert(adjacent_sorted(old, nb, order, p2));
    lemma_sorted_agree_upto(old, nb, order, n1, n2, p1, p2, p1.len() as int);
    assert(n1 =~= n2);
}

/// The stable barycentre order of `old` (see `sorted_by_barycenter`).
pub open spec fn barycenter_sorted(old: Seq<usize>, nb: Seq<Vec<usize>>, order: Seq<usize>) -> Seq<usize> {
    choose|new: Seq<usize>| sorted_by_barycenter(old, new, nb, order)
}

/// Reorder `layer` stably by barycentre (see `barycenter`). Returns whether
/// the order changed.
pub fn sort_by_barycenter(layer: &mut [usize], neighbors: &[Vec<usize>], order: &[usize]) -> (changed:
    bool)
    requires
        forall|k: int|
            0 <= k < old(layer)@.len() ==> #[trigger] old(layer)@[k] < neighbors@.len()
                && old(layer)@[k] < order@.len(),
        forall|x: int, k: int|
            0 <= x < neighbors@.len() && 0 <= k < neighbors@[x]@.len() ==> #[trigger] neighbors@[x]@[k]
                < order@.len(),
        small_counts(neighbors@, order@),
    ensures
        sorted_by_barycenter(old(layer)@, final(layer)@, neighbors@, order@),
        final(layer)@ == barycenter_sorted(old(layer)@, neighbors@, order@),
        changed == (final(layer)@ != old(layer)@),
{
    let len = layer.len();
    let ghost old_layer = layer@;
    let mut keys: Vec<(u64, u64)> = Vec::new();
    let mut before: Vec<usize> = Vec::new();
    let mut j: usize = 0;
    while j < len
        invariant
            len == layer@.len(),
            layer@ == old_layer,
            j <= len,
            keys@.len() == j,
            before@.len() == j,
            forall|k: int| 0 <= k < len ==> #[trigger] layer@[k] < neighbors@.len() && layer@[k] < order@.len(),
            forall|x: int, k: int|
                0 <= x < neighbors@.len() && 0 <= k < neighbors@[x]@.len() ==> #[trigger] neighbors@[x]@[k]
                    < order@.len(),
            small_counts(neighbors@, order@),
            forall|k: int| 0 <= k < j ==> #[trigger] before@[k] == old_layer[k],
            forall|k: int|
                0 <= k < j ==> (#[trigger] keys@[k]).0 == barycenter(order@, neighbors@, old_layer[k]).0
                    && keys@[k].1 == barycenter(order@, neighbors@, old_layer[k]).1,
        decreases len - j,
    {
        let x = layer[j];
        keys.push(barycenter_of(order, neighbors, x));
        before.push(x);
        j += 1;
    }
    let mut perm: Vec<usize> = Vec::new();
    let mut j: usize = 0;
    while j < len
        invariant
            j <= len,
            perm@.len() == j,
            forall|k: int| 0 <= k < j ==> #[trigger] perm@[k] == k,
        decreases len - j,
    {
        perm.push(j);
        j += 1;
    }
    proof {
        assert forall|t: int| 0 <= t < len implies #[trigger] covers_slot(perm@, t) by {
            assert(perm@[t] == t);
        }
    }
    let mut i: usize = 1;
    while i < len
        invariant
            1 <= i,
            i <= len || len == 0,
            keys@.len() == len,
            perm@.len() == len,
            forall|k: int| 0 <= k < len ==> #[trigger] perm@[k] < len,
            forall|a: int, b: int| 0 <= a < b < len ==> #[trigger] perm@[a] != #[trigger] perm@[b],
            forall|t: int| 0 <= t < len ==> #[trigger] covers_slot(perm@, t),
            forall|k: int|
                0 <= k < i - 1 && k + 1 < len ==> slot_before(keys@, #[trigger] perm@[k] as int, perm@[k + 1] as int),
        decreases len - i,
    {
        let mut j = i;
        let mut settled = false;
        while j > 0 && !settled
            invariant
                0 <= j <= i < len,
                keys@.len() == len,
                perm@.len() == len,
                forall|k: int| 0 <= k < len ==> #[trigger] perm@[k] < len,
                forall|a: int, b: int| 0 <= a < b < len ==> #[trigger] perm@[a] != #[trigger] perm@[b],
                forall|t: int| 0 <= t < len ==> #[trigger] covers_slot(perm@, t),
                forall|k: int| 0 <= k < j - 1 ==> slot_before(keys@, #[trigger] perm@[k] as int, perm@[k + 1] as int),
                forall|k: int| j <= k < i ==> slot_before(keys@, #[trigger] perm@[k] as int, perm@[k + 1] as int),
                0 < j < i ==> slot_before(keys@, perm@[j - 1] as int, perm@[j + 1] as int),
                settled ==> j > 0 && slot_before(keys@, perm@[j - 1] as int, perm@[j as int] as int),
            decreases j + if settled { 0int } else { 1int },
        {
            let a = perm[j];
            let b = perm[j - 1];
            if !key_less(keys[a], a, keys[b], b) {
                proof {
                    assert(a != b);
                }
                settled = true;
            } else {
                let ghost before = perm@;
                perm[j - 1] = a;
                perm[j] = b;
                proof {
                    assert forall|t: int| 0 <= t < len implies #[trigger] covers_slot(perm@, t) by {
                        assert(covers_slot(before, t));
                        let k = choose|k: int| 0 <= k < len && before[k] == t;
                        if k == j - 1 {
                            assert(perm@[j as int] == t);
                        } else if k == j {
                            assert(perm@[j - 1] == t);
                        } else {
                            assert(perm@[k] == t);
                        }
                    }
                }
                j -= 1;
            }
        }
        i += 1;
    }
    let mut changed = false;
    let mut slot: usize = 0;
    while slot < len
        invariant
            slot <= len,
            len == layer@.len(),
            before@ == old_layer,
            old_layer.len() == len,
            perm@.len() == len,
            forall|k: int| 0 <= k < len ==> #[trigger] perm@[k] < len,
            forall|a: int, b: int| 0 <= a < b < len ==> #[trigger] perm@[a] != #[trigger] perm@[b],
            forall|t: int| 0 <= t < len ==> #[trigger] covers_slot(perm@, t),
            forall|k: int| 0 <= k < slot ==> #[trigger] layer@[k] == old_layer[perm@[k] as int],
            forall|k: int| slot <= k < len ==> #[trigger] layer@[k] == old_layer[k],
            changed == exists|k: int| 0 <= k < slot && #[trigger] old_layer[perm@[k] as int] != old_layer[k],
        decreases len - slot,
    {
        let v = before[perm[slot]];
        if before[slot] != v {
            changed = true;
        }
        layer[slot] = v;
        slot += 1;
    }
    proof {
        let p = perm@.map_values(|x: usize| x as int);
        assert forall|t: int| 0 <= t < old_layer.len() implies #[trigger] covers(p, t) by {
            assert(covers_slot(perm@, t));
            let k = choose|k: int| 0 <= k < len && perm@[k] == t;
            assert(p[k] == t);
        }
        assert(permuted(old_layer, layer@, p));
        assert forall|k: int| 0 <= k < p.len() - 1 implies key_before(
            barycenter(order@, neighbors@, old_layer[#[trigger] p[k]]),
            p[k],
            barycenter(order@, neighbors@, old_layer[p[k + 1]]),
            p[k + 1],
        ) by {
            assert(slot_before(keys@, perm@[k] as int, perm@[k + 1] as int));
        }
        if changed {
            let k = choose|k: int| 0 <= k < len && #[trigger] old_layer[perm@[k] as int] != old_layer[k];
            assert(layer@[k] != old_layer[k]);
        } else {
            assert(layer@ =~= old_layer);
        }
        assert(sorted_by_barycenter(old_layer, layer@, neighbors@, order@));
        let chosen = barycenter_sorted(old_layer, neighbors@, order@);
        assert(sorted_by_barycenter(old_layer, chosen, neighbors@, order@));
        lemma_sorted_unique(old_layer, layer@, chosen, neighbors@, order@);
    }
    changed
}

proof fn lemma_permuted_compose(a: Seq<usize>, b: Seq<usize>, c: Seq<usize>, p: Seq<int>, q: Seq<int>)
    requires
        permuted(a, b, p),
        permuted(b, c, q),
    ensures
        permuted(a, c, q.map_values(|k: int| p[k])),
{
    let r = q.map_values(|k: int| p[k]);
    assert forall|k: int| 0 <= k < r.len() implies 0 <= #[trigger] r[k] < a.len() by {
        assert(0 <= q[k] < b.len());
    }
    assert forall|j: int, k: int| 0 <= j < k < r.len() implies #[trigger] r[j] != #[trigger] r[k] by {
        assert(q[j] != q[k]);
        if q[j] < q[k] {
            assert(p[q[j]] != p[q[k]]);
        } else {
            assert(p[q[k]] != p[q[j]]);
        }
    }
    assert forall|t: int| 0 <= t < a.len() implies #[trigger] covers(r, t) by {
        assert(covers(p, t));
        let j = choose|j: int| 0 <= j < p.len() && p[j] == t;
        assert(covers(q, j));
        let k = choose|k: int| 0 <= k < q.len() && q[k] == j;
        assert(r[k] == t);
    }
}

proof fn lemma_permuted_refl(a: Seq<usize>)
    ensures
        permuted(a, a, Seq::new(a.len(), |k: int| k)),
{
    let id = Seq::new(a.len(), |k: int| k);
    assert forall|t: int| 0 <= t < a.len() implies #[trigger] covers(id, t) by {
        assert(id[t] == t);
    }
}

proof fn lemma_last_slot_bound(s: Seq<usize>, v: usize)
    ensures
        -1 <= last_slot(s, v) < s.len(),
    decreases s.len(),
{
    if s.len() > 0 {
        lemma_last_slot_bound(s.drop_last(), v);
    }
}

proof fn lemma_slot_bound(layers: Seq<Vec<usize>>, v: usize, b: int)
    requires
        forall|l: int| 0 <= l < layers.len() ==> (#[trigger] layers[l])@.len() <= b,
        b >= 0,
    ensures
        0 <= slot_in_layers(layers, v) <= b,
    decreases layers.len(),
{
    if layers.len() > 0 {
        lemma_last_slot_bound(layers.last()@, v);
        lemma_slot_bound(layers.drop_last(), v, b);
    }
}

/// Every layer of `new` reorders the same layer of `old`.
pub open spec fn layers_reordered(old: Seq<Vec<usize>>, new: Seq<Vec<usize>>) -> bool {
    &&& new.len() == old.len()
    &&& exists|perms: Seq<Seq<int>>|
        perms.len() == old.len() && forall|l: int|
            0 <= l < old.len() ==> permuted(old[l]@, new[l]@, #[trigger] perms[l])
}

/// Inputs of the sweeps: nodes below `n`, neighbour lists for each node,
/// counts small enough for exact means.
pub open spec fn sweep_input(
    layers: Seq<Vec<usize>>,
    pred: Seq<Vec<usize>>,
    succ: Seq<Vec<usize>>,
    n: nat,
) -> bool {
    &&& pred.len() == n
    &&& succ.len() == n
    &&& forall|l: int, k: int|
        0 <= l < layers.len() && 0 <= k < layers[l]@.len() ==> #[trigger] layers[l]@[k] < n
    &&& forall|l: int| 0 <= l < layers.len() ==> (#[trigger] layers[l])@.len() <= u32::MAX
    &&& forall|x: int, k: int|
        0 <= x < n && 0 <= k < pred[x]@.len() ==> #[trigger] pred[x]@[k] < n
    &&& forall|x: int, k: int|
        0 <= x < n && 0 <= k < succ[x]@.len() ==> #[trigger] succ[x]@[k] < n
    &&& forall|x: int| 0 <= x < n ==> (#[trigger] pred[x])@.len() <= u32::MAX
    &&& forall|x: int| 0 <= x < n ==> (#[trigger] succ[x])@.len() <= u32::MAX
}

/// Reordering one layer keeps every layer a reordering of the starting
/// layers, and keeps the nodes the layers hold.
proof fn lemma_reorder_one(
    orig: Seq<Vec<usize>>,
    all: Seq<Vec<usize>>,
    new_all: Seq<Vec<usize>>,
    i: int,
    q: Seq<int>,
    n: nat,
)
    requires
        layers_reordered(orig, all),
        0 <= i < all.len(),
        new_all.len() == all.len(),
        forall|l: int| 0 <= l < all.len() && l != i ==> #[trigger] new_all[l] == all[l],
        permuted(all[i]@, new_all[i]@, q),
        forall|l: int, k: int|
            0 <= l < all.len() && 0 <= k < all[l]@.len() ==> #[trigger] all[l]@[k] < n,
    ensures
        layers_reordered(orig, new_all),
        forall|l: int, k: int|
            0 <= l < new_all.len() && 0 <= k < new_all[l]@.len() ==> #[trigger] new_all[l]@[k] < n,
{
    let perms = choose|perms: Seq<Seq<int>>|
        perms.len() == orig.len() && forall|l: int|
            0 <= l < orig.len() ==> permuted(orig[l]@, all[l]@, #[trigger] perms[l]);
    let p = perms[i];
    lemma_permuted_compose(orig[i]@, all[i]@, new_all[i]@, p, q);
    let perms2 = perms.update(i, q.map_values(|k: int| p[k]));
    assert forall|l: int| 0 <= l < orig.len() implies permuted(
        orig[l]@,
        new_all[l]@,
        #[trigger] perms2[l],
    ) by {
        if l != i {
            assert(new_all[l] == all[l]);
            assert(permuted(orig[l]@, all[l]@, perms[l]));
        }
    }
    assert(perms2.len() == orig.len());
    assert forall|l: int, k: int|
        0 <= l < new_all.len() && 0 <= k < new_all[l]@.len() implies #[trigger] new_all[l]@[k] < n by {
        if l == i {
            assert(0 <= q[k] < all[i]@.len());
            assert(new_all[l]@[k] == all[i]@[q[k]]);
        } else {
            assert(new_all[l] == all[l]);
        }
    }
}

/// Reorder layer `i` by its neighbours in `nb`, the slots being `order`.
fn sweep_layer(
    layers: &mut Vec<Vec<usize>>,
    i: usize,
    nb: &Vec<Vec<usize>>,
    order: &Vec<usize>,
    n: usize,
    Ghost(orig): Ghost<Seq<Vec<usize>>>,
) -> (changed: bool)
    requires
        i < old(layers)@.len(),
        order@.len() == n,
        nb@.len() == n,
        forall|x: int, k: int| 0 <= x < n && 0 <= k < nb@[x]@.len() ==> #[trigger] nb@[x]@[k] < n,
        forall|x: int| 0 <= x < n ==> (#[trigger] nb@[x])@.len() <= u32::MAX,
        forall|x: int| 0 <= x < n ==> #[trigger] order@[x] <= u32::MAX,
        forall|l: int, k: int|
            0 <= l < old(layers)@.len() && 0 <= k < old(layers)@[l]@.len() ==> #[trigger] old(layers)@[l]@[k] < n,
        layers_reordered(orig, old(layers)@),
    ensures
        final(layers)@.len() == old(layers)@.len(),
        forall|l: int| 0 <= l < old(layers)@.len() && l != i ==> #[trigger] final(layers)@[l] == old(layers)@[l],
        sorted_by_barycenter(old(layers)@[i as int]@, final(layers)@[i as int]@, nb@, order@),
        final(layers)@[i as int]@ == barycenter_sorted(old(layers)@[i as int]@, nb@, order@),
        layer_views(final(layers)@) == layer_views(old(layers)@).update(
            i as int,
            barycenter_sorted(old(layers)@[i as int]@, nb@, order@),
        ),
        layers_reordered(orig, final(layers)@),
        final(layers)@[i as int]@.len() == old(layers)@[i as int]@.len(),
        forall|l: int, k: int|
            0 <= l < final(layers)@.len() && 0 <= k < final(layers)@[l]@.len() ==> #[trigger] final(layers)@[l]@[k] < n,
        changed == (final(layers)@[i as int]@ != old(layers)@[i as int]@),
{
    let ghost before = layers@[i as int]@;
    let ghost all = layers@;
    let changed = sort_by_barycenter(layers[i].as_mut_slice(), nb.as_slice(), order.as_slice());
    proof {
        let q = choose|q: Seq<int>|
            permuted(before, layers@[i as int]@, q) && forall|k: int|
                0 <= k < q.len() - 1 ==> key_before(
                    barycenter(order@, nb@, before[#[trigger] q[k]]),
                    q[k],
                    barycenter(order@, nb@, before[q[k + 1]]),
                    q[k + 1],
                );
        lemma_reorder_one(orig, all, layers@, i as int, q, n as nat);
        assert(layer_views(layers@) =~= layer_views(all).update(
            i as int,
            barycenter_sorted(all[i as int]@, nb@, order@),
        ));
    }
    changed
}

proof fn lemma_order_small(layers: Seq<Vec<usize>>, order: Seq<usize>, n: nat)
    requires
        forall|l: int| 0 <= l < layers.len() ==> (#[trigger] layers[l])@.len() <= u32::MAX,
        order.len() == n,
        forall|v: int| 0 <= v < n ==> #[trigger] order[v] == slot_in_layers(layers, v as usize),
    ensures
        forall|v: int| 0 <= v < n ==> #[trigger] order[v] <= u32::MAX,
{
    assert forall|v: int| 0 <= v < n implies #[trigger] order[v] <= u32::MAX by {
        lemma_slot_bound(layers, v as usize, u32::MAX as int);
    }
}

/// The node lists of the layers.
pub open spec fn layer_views(layers: Seq<Vec<usize>>) -> Seq<Seq<usize>> {
    layers.map_values(|l: Vec<usize>| l@)
}

/// `slot_in_layers` on node lists.
pub open spec fn slot_in_views(ls: Seq<Seq<usize>>, v: usize) -> int
    decreases ls.len(),
{
    if ls.len() == 0 {
        0
    } else if last_slot(ls.last(), v) >= 0 {
        last_slot(ls.last(), v)
    } else {
        slot_in_views(ls.drop_last(), v)
    }
}

/// The slot of every node `0..n` in the layers `ls`.
pub open spec fn slots(ls: Seq<Seq<usize>>, n: nat) -> Seq<usize> {
    Seq::new(n, |v: int| slot_in_views(ls, v as usize) as usize)
}

/// Downward sweep from layer `i` on: each layer is put in barycentre order
/// of its predecessors' current slots. Also whether any layer changed.
pub open spec fn sweep_down(ls: Seq<Seq<usize>>, pred: Seq<Vec<usize>>, n: nat, i: int) -> (
    Seq<Seq<usize>>,
    bool,
)
    decreases ls.len() - i,
{
    if i < 0 || i >= ls.len() {
        (ls, false)
    } else {
        let new = barycenter_sorted(ls[i], pred, slots(ls, n));
        let r = sweep_down(ls.update(i, new), pred, n, i + 1);
        (r.0, r.1 || new != ls[i])
    }
}

/// Upward sweep over the layers below `i`, from `i - 1` down to 0: each
/// layer is put in barycentre order of its successors' current slots.
pub open spec fn sweep_up(ls: Seq<Seq<usize>>, succ: Seq<Vec<usize>>, n: nat, i: int) -> (
    Seq<Seq<usize>>,
    bool,
)
    decreases i,
{
    if i <= 0 || i > ls.len() {
        (ls, false)
    } else {
        let j = i - 1;
        let new = barycenter_sorted(ls[j], succ, slots(ls, n));
        let r = sweep_up(ls.update(j, new), succ, n, j);
        (r.0, r.1 || new != ls[j])
    }
}

/// Up to `rounds` rounds of a downward then an upward sweep, stopping after
/// a round that changes nothing.
pub open spec fn sweep_rounds(
    ls: Seq<Seq<usize>>,
    pred: Seq<Vec<usize>>,
    succ: Seq<Vec<usize>>,
    n: nat,
    rounds: nat,
) -> Seq<Seq<usize>>
    decreases rounds,
{
    if rounds == 0 {
        ls
    } else {
        let d = sweep_down(ls, pred, n, 1);
        let u = sweep_up(d.0, succ, n, d.0.len() - 1);
        if !(d.1 || u.1) {
            u.0
        } else {
            sweep_rounds(u.0, pred, succ, n, (rounds - 1) as nat)
        }
    }
}

/// The layers after crossing minimisation of `ls` with `max_sweeps` rounds
/// (fewer than two layers stay as they are).
pub open spec fn minimized(
    ls: Seq<Seq<usize>>,
    pred: Seq<Vec<usize>>,
    succ: Seq<Vec<usize>>,
    n: nat,
    max_sweeps: nat,
) -> Seq<Seq<usize>> {
    if ls.len() < 2 {
        ls
    } else {
        sweep_rounds(ls, pred, succ, n, max_sweeps)
    }
}

proof fn lemma_slot_views(layers: Seq<Vec<usize>>, v: usize)
    ensures
        slot_in_layers(layers, v) == slot_in_views(layer_views(layers), v),
    decreases layers.len(),
{
    if layers.len() > 0 {
        assert(layer_views(layers).drop_last() =~= layer_views(layers.drop_last()));
        lemma_slot_views(layers.drop_last(), v);
    }
}

/// Slots computed by `positions` are the `slots` of the node lists.
proof fn lemma_order_is_slots(layers: Seq<Vec<usize>>, order: Seq<usize>, n: nat)
    requires
        order.len() == n,
        forall|v: int| 0 <= v < n ==> #[trigger] order[v] == slot_in_layers(layers, v as usize),
    ensures
        order == slots(layer_views(layers), n),
{
    assert forall|v: int| 0 <= v < n implies #[trigger] order[v] == slots(layer_views(layers), n)[v] by {
        lemma_slot_views(layers, v as usize);
    }
    assert(order =~= slots(layer_views(layers), n));
}

/// Crossing minimisation: up to `max_sweeps` rounds, each a downward sweep
/// (layer `i` ordered by its predecessors' slots) and an upward one (by its
/// successors' slots), slots refreshed after every layer; it stops after a
/// round that changes nothing. Layers are only reordered.
pub fn minimize(lg: &mut Layering, max_sweeps: usize)
    requires
        sweep_input(old(lg).layers@, old(lg).pred@, old(lg).succ@, old(lg).layer@.len()),
    ensures
        layers_reordered(old(lg).layers@, final(lg).layers@),
        layer_views(final(lg).layers@) == minimized(
            layer_views(old(lg).layers@),
            old(lg).pred@,
            old(lg).succ@,
            old(lg).layer@.len(),
            max_sweeps as nat,
        ),
        final(lg).succ == old(lg).succ,
        final(lg).pred == old(lg).pred,
        final(lg).layer == old(lg).layer,
        final(lg).real_count == old(lg).real_count,
        final(lg).edge_chains == old(lg).edge_chains,
{
    let nl = lg.layers.len();
    let n = lg.layer.len();
    let ghost orig = lg.layers@;
    proof {
        let perms = Seq::new(orig.len(), |l: int| Seq::new(orig[l]@.len(), |k: int| k));
        assert forall|l: int| 0 <= l < orig.len() implies permuted(orig[l]@, orig[l]@, #[trigger] perms[l]) by {
            lemma_permuted_refl(orig[l]@);
        }
        assert(perms.len() == orig.len());
    }
    if nl < 2 {
        return;
    }
    let ghost lv0 = layer_views(lg.layers@);
    let ghost pred = lg.pred@;
    let ghost succ = lg.succ@;
    let mut order = positions(&lg.layers, n);
    proof {
        lemma_order_small(lg.layers@, order@, n as nat);
        lemma_order_is_slots(lg.layers@, order@, n as nat);
    }
    let mut sweep: usize = 0;
    while sweep < max_sweeps
        invariant_except_break
            sweep_rounds(lv0, pred, succ, n as nat, max_sweeps as nat) == sweep_rounds(
                layer_views(lg.layers@),
                pred,
                succ,
                n as nat,
                (max_sweeps - sweep) as nat,
            ),
        invariant
            sweep <= max_sweeps,
            pred == lg.pred@,
            succ == lg.succ@,
            order@ == slots(layer_views(lg.layers@), n as nat),
            nl == lg.layers@.len(),
            nl >= 2,
            lg.succ == old(lg).succ,
            lg.pred == old(lg).pred,
            lg.layer == old(lg).layer,
            lg.real_count == old(lg).real_count,
            lg.edge_chains == old(lg).edge_chains,
            n == lg.layer@.len(),
            sweep_input(lg.layers@, lg.pred@, lg.succ@, n as nat),
            layers_reordered(orig, lg.layers@),
            order@.len() == n,
            forall|v: int| 0 <= v < n ==> #[trigger] order@[v] <= u32::MAX,
        ensures
            layer_views(lg.layers@) == sweep_rounds(lv0, pred, succ, n as nat, max_sweeps as nat),
            lg.succ == old(lg).succ,
            lg.pred == old(lg).pred,
            lg.layer == old(lg).layer,
            lg.real_count == old(lg).real_count,
            lg.edge_chains == old(lg).edge_chains,
            layers_reordered(orig, lg.layers@),
        decreases max_sweeps - sweep,
    {
        let ghost start = layer_views(lg.layers@);
        let ghost dn = sweep_down(start, pred, n as nat, 1);
        let mut changed = false;
        let mut i: usize = 1;
        while i < nl
            invariant
                pred == lg.pred@,
                succ == lg.succ@,
                order@ == slots(layer_views(lg.layers@), n as nat),
                dn.0 == sweep_down(layer_views(lg.layers@), pred, n as nat, i as int).0,
                dn.1 == (sweep_down(layer_views(lg.layers@), pred, n as nat, i as int).1 || changed),
                1 <= i <= nl,
                nl == lg.layers@.len(),
                n == lg.layer@.len(),
                lg.succ == old(lg).succ,
                lg.pred == old(lg).pred,
                lg.layer == old(lg).layer,
                lg.real_count == old(lg).real_count,
                lg.edge_chains == old(lg).edge_chains,
                sweep_input(lg.layers@, lg.pred@, lg.succ@, n as nat),
                layers_reordered(orig, lg.layers@),
                order@.len() == n,
                forall|v: int| 0 <= v < n ==> #[trigger] order@[v] <= u32::MAX,
            decreases nl - i,
        {
            let ghost before = lg.layers@;
            let ghost lv_before = layer_views(lg.layers@);
            let c = sweep_layer(&mut lg.layers, i, &lg.pred, &order, n, Ghost(orig));
            changed = changed || c;
            proof {
                assert(before[i as int]@ == lv_before[i as int]);
                assert forall|l: int| 0 <= l < lg.layers@.len() implies (#[trigger] lg.layers@[l])@.len() <= u32::MAX by {
                    if l != i {
                        assert(lg.layers@[l] == before[l]);
                    }
                }
            }
            order = positions(&lg.layers, n);
            proof {
                lemma_order_small(lg.layers@, order@, n as nat);
                lemma_order_is_slots(lg.layers@, order@, n as nat);
            }
            i += 1;
        }
        let ghost c1 = changed;
        let ghost up = sweep_up(dn.0, succ, n as nat, dn.0.len() - 1);
        proof {
            assert(dn.0 == layer_views(lg.layers@));
            assert(dn.1 == c1);
        }
        let mut i: usize = nl - 1;
        while i > 0
            invariant
                pred == lg.pred@,
                succ == lg.succ@,
                order@ == slots(layer_views(lg.layers@), n as nat),
                dn.0.len() == nl,
                up.0 == sweep_up(layer_views(lg.layers@), succ, n as nat, i as int).0,
                (up.1 || c1) == (sweep_up(layer_views(lg.layers@), succ, n as nat, i as int).1 || changed),
                i < nl,
                nl == lg.layers@.len(),
                n == lg.layer@.len(),
                lg.succ == old(lg).succ,
                lg.pred == old(lg).pred,
                lg.layer == old(lg).layer,
                lg.real_count == old(lg).real_count,
                lg.edge_chains == old(lg).edge_chains,
                sweep_input(lg.layers@, lg.pred@, lg.succ@, n as nat),
                layers_reordered(orig, lg.layers@),
                order@.len() == n,
                forall|v: int| 0 <= v < n ==> #[trigger] order@[v] <= u32::MAX,
            decreases i,
        {
            i -= 1;
            let ghost before = lg.layers@;
            let ghost lv_before = layer_views(lg.layers@);
            let c = sweep_layer(&mut lg.layers, i, &lg.succ, &order, n, Ghost(orig));
            changed = changed || c;
            proof {
                assert(before[i as int]@ == lv_before[i as int]);
                assert forall|l: int| 0 <= l < lg.layers@.len() implies (#[trigger] lg.layers@[l])@.len() <= u32::MAX by {
                    if l != i {
                        assert(lg.layers@[l] == before[l]);
                    }
                }
            }
            order = positions(&lg.layers, n);
            proof {
                lemma_order_small(lg.layers@, order@, n as nat);
                lemma_order_is_slots(lg.layers@, order@, n as nat);
            }
        }
        proof {
            assert(up.0 == layer_views(lg.layers@));
            assert((up.1 || c1) == changed);
            assert(sweep_rounds(start, pred, succ, n as nat, (max_sweeps - sweep) as nat) == if !changed {
                up.0
            } else {
                sweep_rounds(up.0, pred, succ, n as nat, (max_sweeps - sweep - 1) as nat)
            });
        }
        if !changed {
            break;
        }
        sweep += 1;
    }
}

proof fn lemma_reordered_lengths(old: Seq<Vec<usize>>, new: Seq<Vec<usize>>)
    requires
        layers_reordered(old, new),
    ensures
        forall|l: int| 0 <= l < old.len() ==> (#[trigger] new[l])@.len() == old[l]@.len(),
{
    let perms = choose|perms: Seq<Seq<int>>|
        perms.len() == old.len() && forall|l: int|
            0 <= l < old.len() ==> permuted(old[l]@, new[l]@, #[trigger] perms[l]);
    assert forall|l: int| 0 <= l < old.len() implies (#[trigger] new[l])@.len() == old[l]@.len() by {
        assert(permuted(old[l]@, new[l]@, perms[l]));
    }
}

/// Every layer and every neighbour list has at most `u32::MAX` entries.
pub open spec fn counts_fit(lg: Layering) -> bool {
    &&& forall|l: int| 0 <= l < lg.layers@.len() ==> (#[trigger] lg.layers@[l])@.len() <= u32::MAX
    &&& forall|x: int| 0 <= x < lg.pred@.len() ==> (#[trigger] lg.pred@[x])@.len() <= u32::MAX
    &&& forall|x: int| 0 <= x < lg.succ@.len() ==> (#[trigger] lg.succ@[x])@.len() <= u32::MAX
}

fn check_counts(lg: &Layering) -> (ok: bool)
    ensures
        ok == counts_fit(*lg),
{
    let mut l: usize = 0;
    while l < lg.layers.len()
        invariant
            l <= lg.layers@.len(),
            forall|j: int| 0 <= j < l ==> (#[trigger] lg.layers@[j])@.len() <= u32::MAX,
        decreases lg.layers@.len() - l,
    {
        if lg.layers[l].len() > u32::MAX as usize {
            return false;
        }
        l += 1;
    }
    let mut x: usize = 0;
    while x < lg.pred.len()
        invariant
            x <= lg.pred@.len(),
            forall|j: int| 0 <= j < lg.layers@.len() ==> (#[trigger] lg.layers@[j])@.len() <= u32::MAX,
            forall|j: int| 0 <= j < x ==> (#[trigger] lg.pred@[j])@.len() <= u32::MAX,
        decreases lg.pred@.len() - x,
    {
        if lg.pred[x].len() > u32::MAX as usize {
            return false;
        }
        x += 1;
    }
    let mut x: usize = 0;
    while x < lg.succ.len()
        invariant
            x <= lg.succ@.len(),
            forall|j: int| 0 <= j < lg.layers@.len() ==> (#[trigger] lg.layers@[j])@.len() <= u32::MAX,
            forall|j: int| 0 <= j < lg.pred@.len() ==> (#[trigger] lg.pred@[j])@.len() <= u32::MAX,
            forall|j: int| 0 <= j < x ==> (#[trigger] lg.succ@[j])@.len() <= u32::MAX,
        decreases lg.succ@.len() - x,
    {
        if lg.succ[x].len() > u32::MAX as usize {
            return false;
        }
        x += 1;
    }
    true
}

/// Phases one to four of the layered layout for `n` nodes: cycle
/// breaking, longest-path layering, virtual nodes, then crossing
/// minimisation with up to `max_sweeps` rounds. `None` when the node and
/// edge counts are beyond what the split graph can index
/// (`n * (edges + 1)` over `usize::MAX`). Crossing minimisation is skipped
/// only where a layer or a neighbour list holds more than `u32::MAX`
/// entries.
pub fn layered(n: usize, edges: &Vec<(usize, usize)>, max_sweeps: usize) -> (r: Option<Layering>)
    requires
        edges_in_range(n as nat, edges@),
    ensures
        r is None <==> n as int * (edges@.len() + 1) > usize::MAX,
        r matches Some(lg) ==> {
            &&& lg.real_count == n
            &&& lg.layer@.len() >= n
            &&& acyclic_orientation(n as nat, edges@, dfs_orientation(n as nat, edges@))
            &&& longest_path_layering(
                n as nat,
                edges@,
                dfs_orientation(n as nat, edges@),
                lg.layer@.subrange(0, n as int),
            )
            &&& spans_one_layer(lg.layer@, lg.succ@, lg.pred@)
            &&& lg.edge_chains@.len() == edges@.len()
            &&& forall|i: int|
                0 <= i < edges@.len() ==> chain_ok(
                    lg.layer@.subrange(0, n as int),
                    lg.layer@,
                    #[trigger] edges@[i],
                    lg.edge_chains@[i]@,
                ) && chain_linked(
                    lg.layer@.subrange(0, n as int),
                    lg.succ@,
                    lg.pred@,
                    edges@[i],
                    lg.edge_chains@[i]@,
                )
            &&& lg.layer@.len() == n + virtuals_before(
                lg.layer@.subrange(0, n as int),
                edges@,
                edges@.len() as int,
            )
            &&& forall|i: int|
                0 <= i < edges@.len() ==> (#[trigger] lg.edge_chains@[i])@ == edge_chain(
                    lg.layer@.subrange(0, n as int),
                    edges@,
                    i,
                )
            &&& forall|x: int|
                0 <= x < lg.layer@.len() ==> (#[trigger] lg.succ@[x])@ == succ_upto(
                    lg.layer@.subrange(0, n as int),
                    edges@,
                    edges@.len() as int,
                    x,
                )
            &&& forall|y: int|
                0 <= y < lg.layer@.len() ==> (#[trigger] lg.pred@[y])@ == pred_upto(
                    lg.layer@.subrange(0, n as int),
                    edges@,
                    edges@.len() as int,
                    y,
                )
            &&& exists|bucketed: Seq<Vec<usize>>|
                {
                    &&& buckets_ok(lg.layer@, bucketed)
                    &&& layers_reordered(bucketed, lg.layers@)
                    &&& layer_views(lg.layers@) == if counts_fit(lg) {
                        minimized(
                            layer_views(bucketed),
                            lg.pred@,
                            lg.succ@,
                            lg.layer@.len(),
                            max_sweeps as nat,
                        )
                    } else {
                        layer_views(bucketed)
                    }
                }
        },
{
    let m = edges.len();
    proof {
        assert(n as int * (m as int + 1) <= u128::MAX) by (nonlinear_arith)
            requires
                n <= u64::MAX,
                m <= u64::MAX,
        ;
    }
    let total = (n as u128) * (m as u128 + 1);
    if total > usize::MAX as u128 {
        return None;
    }
    let mut lg = build_layering(n, edges);
    let ghost bucketed = lg.layers@;
    proof {
        let perms = Seq::new(bucketed.len(), |l: int| Seq::new(bucketed[l]@.len(), |k: int| k));
        assert forall|l: int| 0 <= l < bucketed.len() implies permuted(bucketed[l]@, bucketed[l]@, #[trigger] perms[l]) by {
            lemma_permuted_refl(bucketed[l]@);
        }
        assert(perms.len() == bucketed.len());
        assert(buckets_ok(lg.layer@, bucketed));
    }
    let ghost before = lg;
    if check_counts(&lg) {
        minimize(&mut lg, max_sweeps);
        proof {
            lemma_reordered_lengths(bucketed, lg.layers@);
            assert(counts_fit(lg));
        }
    }
    Some(lg)
}

} // verus!
