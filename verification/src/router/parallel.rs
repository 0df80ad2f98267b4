//! Edges that join the same two nodes, in either direction. The router fans
//! such edges apart and staggers their labels by each edge's rank among
//! them.

use vstd::prelude::*;

verus! {

/// The unordered node pair that edge `e` joins, smaller end first.
pub open spec fn pair_of(e: (u32, u32)) -> (u32, u32) {
    if e.0 <= e.1 {
        e
    } else {
        (e.1, e.0)
    }
}

/// How many of the first `upto` edges are counted and join the same node
/// pair as edge `i`.
pub open spec fn same_pair_count(edges: Seq<(u32, u32)>, counted: Seq<bool>, i: int, upto: int) -> nat
    decreases upto,
{
    if upto <= 0 {
        0
    } else {
        same_pair_count(edges, counted, i, upto - 1) + if counted[upto - 1] && pair_of(edges[upto - 1])
            == pair_of(edges[i]) {
            1nat
        } else {
            0nat
        }
    }
}

fn pair_key(e: (u32, u32)) -> (k: (u32, u32))
    ensures
        k == pair_of(e),
{
    if e.0 <= e.1 {
        e
    } else {
        (e.1, e.0)
    }
}

/// For each edge `(source, target)`, among the counted edges that join the
/// same two nodes in either direction: how many come before it, and how
/// many there are.
pub fn pair_ranks(edges: &Vec<(u32, u32)>, counted: &Vec<bool>) -> (r: Vec<(usize, usize)>)
    requires
        counted@.len() == edges@.len(),
    ensures
        r@.len() == edges@.len(),
        forall|i: int|
            0 <= i < edges@.len() ==> (#[trigger] r@[i]).0 == same_pair_count(edges@, counted@, i, i)
                && r@[i].1 == same_pair_count(edges@, counted@, i, edges@.len() as int),
{
    let n = edges.len();
    let mut r: Vec<(usize, usize)> = Vec::new();
    let mut i: usize = 0;
    while i < n
        invariant
            i <= n,
            n == edges@.len(),
            counted@.len() == n,
            r@.len() == i,
            forall|k: int|
                0 <= k < i ==> (#[trigger] r@[k]).0 == same_pair_count(edges@, counted@, k, k)
                    && r@[k].1 == same_pair_count(edges@, counted@, k, n as int),
        decreases n - i,
    {
        let key = pair_key(edges[i]);
        let mut before: usize = 0;
        let mut total: usize = 0;
        let mut j: usize = 0;
        while j < n
            invariant
                i < n,
                j <= n,
                n == edges@.len(),
                counted@.len() == n,
                key == pair_of(edges@[i as int]),
                total <= j,
                total == same_pair_count(edges@, counted@, i as int, j as int),
                before == same_pair_count(
                    edges@,
                    counted@,
                    i as int,
                    if j <= i {
                        j as int
                    } else {
                        i as int
                    },
                ),
            decreases n - j,
        {
            let other = pair_key(edges[j]);
            if counted[j] && other.0 == key.0 && other.1 == key.1 {
                if j < i {
                    before += 1;
                }
                total += 1;
            }
            j += 1;
        }
        r.push((before, total));
        i += 1;
    }
    r
}

/// Edges joining the same pair count the same edges.
proof fn lemma_count_same_pair(edges: Seq<(u32, u32)>, counted: Seq<bool>, i: int, j: int, upto: int)
    requires
        pair_of(edges[i]) == pair_of(edges[j]),
    ensures
        same_pair_count(edges, counted, i, upto) == same_pair_count(edges, counted, j, upto),
    decreases upto,
{
    if upto > 0 {
        lemma_count_same_pair(edges, counted, i, j, upto - 1);
    }
}

/// Counting over a longer prefix never finds fewer edges.
proof fn lemma_count_grows(edges: Seq<(u32, u32)>, counted: Seq<bool>, i: int, a: int, b: int)
    requires
        0 <= a <= b,
    ensures
        same_pair_count(edges, counted, i, a) <= same_pair_count(edges, counted, i, b),
    decreases b,
{
    if b > a {
        lemma_count_grows(edges, counted, i, a, b - 1);
    }
}

/// Among the counted edges joining one pair of nodes, an earlier edge has a
/// smaller rank, every rank stays below the group's size, and every edge of
/// the group sees the same size: offsets taken from the ranks never put two
/// edges of a group on the same line.
pub proof fn law_pair_ranks_number_the_group(edges: Seq<(u32, u32)>, counted: Seq<bool>, i: int, j: int)
    requires
        counted.len() == edges.len(),
        0 <= i < j < edges.len(),
        counted[i],
        counted[j],
        pair_of(edges[i]) == pair_of(edges[j]),
    ensures
        same_pair_count(edges, counted, i, i) < same_pair_count(edges, counted, j, j),
        same_pair_count(edges, counted, j, j) < same_pair_count(edges, counted, j, edges.len() as int),
        same_pair_count(edges, counted, i, edges.len() as int) == same_pair_count(
            edges,
            counted,
            j,
            edges.len() as int,
        ),
{
    let len = edges.len() as int;
    lemma_count_same_pair(edges, counted, i, j, i);
    lemma_count_same_pair(edges, counted, i, j, len);
    lemma_count_grows(edges, counted, j, i + 1, j);
    lemma_count_grows(edges, counted, j, j + 1, len);
}

} // verus!
