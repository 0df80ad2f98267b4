//! Cycle breaking, longest-path layer assignment and virtual-node insertion.
//!
//! Edges are `(source, target)` pairs of node indices below `n`.

use vstd::prelude::*;

verus! {

/// Every endpoint names one of the `n` nodes.
pub open spec fn edges_in_range(n: nat, edges: Seq<(usize, usize)>) -> bool {
    forall|i: int| 0 <= i < edges.len() ==> (#[trigger] edges[i]).0 < n && edges[i].1 < n
}

pub open spec fn is_loop(e: (usize, usize)) -> bool {
    e.0 == e.1
}

/// Where edge `e` starts once the orientation `flip` is applied.
pub open spec fn tail(e: (usize, usize), flip: bool) -> int {
    if flip { e.1 as int } else { e.0 as int }
}

/// Where edge `e` ends once the orientation `flip` is applied.
pub open spec fn head(e: (usize, usize), flip: bool) -> int {
    if flip { e.0 as int } else { e.1 as int }
}

/// `rank` strictly decreases along every oriented edge that is not a self
/// loop: it witnesses that the oriented graph has no cycle.
pub open spec fn ranks_orientation(
    n: nat,
    edges: Seq<(usize, usize)>,
    flipped: Seq<bool>,
    rank: Seq<int>,
) -> bool {
    &&& rank.len() == n
    &&& forall|w: int| 0 <= w < n ==> 0 <= #[trigger] rank[w] < n
    &&& forall|i: int|
        0 <= i < edges.len() && !is_loop(#[trigger] edges[i]) ==> rank[head(edges[i], flipped[i])]
            < rank[tail(edges[i], flipped[i])]
}

/// Orienting each edge as `flipped` says leaves no cycle but self loops.
pub open spec fn acyclic_orientation(
    n: nat,
    edges: Seq<(usize, usize)>,
    flipped: Seq<bool>,
) -> bool {
    &&& flipped.len() == edges.len()
    &&& exists|rank: Seq<int>| ranks_orientation(n, edges, flipped, rank)
}

/// How many of the first `k` entries of `c` equal `x`.
pub open spec fn count_of(c: Seq<u8>, k: int, x: u8) -> nat
    decreases k,
{
    if k <= 0 {
        0
    } else {
        count_of(c, k - 1, x) + if c[k - 1] == x { 1nat } else { 0nat }
    }
}

proof fn lemma_count_bound(c: Seq<u8>, k: int, x: u8)
    requires
        0 <= k,
    ensures
        count_of(c, k, x) <= k,
    decreases k,
{
    if k > 0 {
        lemma_count_bound(c, k - 1, x);
    }
}

proof fn lemma_count_update(c: Seq<u8>, k: int, i: int, v: u8, x: u8)
    requires
        0 <= i < c.len(),
        0 <= k <= c.len(),
    ensures
        i < k ==> count_of(c.update(i, v), k, x) + (if c[i] == x { 1int } else { 0int })
            == count_of(c, k, x) + (if v == x { 1int } else { 0int }),
        k <= i ==> count_of(c.update(i, v), k, x) == count_of(c, k, x),
    decreases k,
{
    if k > 0 {
        lemma_count_update(c, k - 1, i, v, x);
    }
}

/// Fewer positions hold `x` in `c1` than in `c2` when every `x` of `c1` is
/// an `x` of `c2` and `c2` has one more at `w`.
proof fn lemma_count_shrinks(c1: Seq<u8>, c2: Seq<u8>, k: int, x: u8, w: int)
    requires
        0 <= k <= c1.len(),
        c1.len() == c2.len(),
        forall|j: int| 0 <= j < k && c1[j] == x ==> c2[j] == x,
    ensures
        count_of(c1, k, x) <= count_of(c2, k, x),
        0 <= w < k && c2[w] == x && c1[w] != x ==> count_of(c1, k, x) < count_of(c2, k, x),
    decreases k,
{
    if k > 0 {
        lemma_count_shrinks(c1, c2, k - 1, x, w);
    }
}

/// Search state: colours (0 unvisited, 1 on the stack, 2 finished), the
/// orientation chosen so far, and the bookkeeping of the acyclicity proof.
struct Search {
    color: Vec<u8>,
    flipped: Vec<bool>,
    done: Ghost<Seq<bool>>,
    fin: Ghost<Seq<int>>,
    depth: Ghost<Seq<int>>,
    time: Ghost<int>,
}

spec fn edge_ok(s: Search, e: (usize, usize), f: bool) -> bool {
    is_loop(e) || {
        let a = tail(e, f);
        let b = head(e, f);
        &&& s.color@[a] != 0
        &&& s.color@[b] != 0
        &&& s.color@[a] == 2 ==> s.color@[b] == 2 && s.fin@[b] < s.fin@[a]
        &&& s.color@[a] == 1 ==> s.color@[b] == 2 || (s.color@[b] == 1 && s.depth@[b]
            > s.depth@[a])
    }
}

spec fn search_inv(s: Search, n: nat, edges: Seq<(usize, usize)>) -> bool {
    &&& edges_in_range(n, edges)
    &&& s.color@.len() == n
    &&& s.fin@.len() == n
    &&& s.depth@.len() == n
    &&& s.flipped@.len() == edges.len()
    &&& s.done@.len() == edges.len()
    &&& forall|w: int| 0 <= w < n ==> #[trigger] s.color@[w] <= 2
    &&& s.time@ == count_of(s.color@, n as int, 2)
    &&& forall|w: int| 0 <= w < n && #[trigger] s.color@[w] == 2 ==> 0 <= s.fin@[w] < s.time@
    &&& forall|i: int|
        0 <= i < edges.len() && #[trigger] s.done@[i] ==> edge_ok(s, edges[i], s.flipped@[i])
    &&& forall|i: int|
        0 <= i < edges.len() && s.color@[(#[trigger] edges[i]).0 as int] == 2 ==> s.done@[i]
    &&& forall|i: int| 0 <= i < edges.len() && is_loop(#[trigger] edges[i]) ==> !s.flipped@[i]
    &&& forall|i: int|
        0 <= i < edges.len() && #[trigger] s.done@[i] ==> s.color@[edges[i].0 as int] != 0
    &&& forall|i: int| 0 <= i < edges.len() && !(#[trigger] s.done@[i]) ==> !s.flipped@[i]
}

/// What a finished visit leaves alone, and what it may change.
spec fn search_frame(o: Search, s: Search, n: nat, edges: Seq<(usize, usize)>) -> bool {
    search_frame_except(o, s, n, edges, -1)
}

/// As `search_frame`, but the edges leaving `x` may be oriented meanwhile.
spec fn search_frame_except(
    o: Search,
    s: Search,
    n: nat,
    edges: Seq<(usize, usize)>,
    x: int,
) -> bool {
    &&& forall|w: int|
        0 <= w < n && #[trigger] o.color@[w] == 2 ==> s.color@[w] == 2 && s.fin@[w] == o.fin@[w]
    &&& forall|w: int|
        0 <= w < n && #[trigger] o.color@[w] == 1 ==> s.color@[w] == 1 && s.depth@[w]
            == o.depth@[w]
    &&& forall|w: int| 0 <= w < n && #[trigger] s.color@[w] == 1 ==> o.color@[w] == 1
    &&& forall|i: int|
        0 <= i < edges.len() && o.color@[(#[trigger] edges[i]).0 as int] != 0 && edges[i].0
            != x ==> s.done@[i] == o.done@[i] && s.flipped@[i] == o.flipped@[i]
    &&& forall|i: int|
        0 <= i < edges.len() && #[trigger] o.done@[i] ==> s.done@[i] && s.flipped@[i]
            == o.flipped@[i]
}

proof fn lemma_frame_keeps_edges(o: Search, s: Search, n: nat, edges: Seq<(usize, usize)>)
    requires
        search_inv(o, n, edges),
        s.color@.len() == n,
        s.flipped@.len() == edges.len(),
        s.done@.len() == edges.len(),
        search_frame(o, s, n, edges),
        forall|w: int| 0 <= w < n && o.color@[w] != 0 ==> #[trigger] s.color@[w] != 0,
    ensures
        forall|i: int|
            0 <= i < edges.len() && #[trigger] o.done@[i] ==> edge_ok(s, edges[i], s.flipped@[i]),
{
    assert forall|i: int| 0 <= i < edges.len() && #[trigger] o.done@[i] implies edge_ok(
        s,
        edges[i],
        s.flipped@[i],
    ) by {
        assert(edge_ok(o, edges[i], o.flipped@[i]));
        let e = edges[i];
        if !is_loop(e) {
            let f = o.flipped@[i];
            let a = tail(e, f);
            let b = head(e, f);
            assert(0 <= a < n && 0 <= b < n);
            assert(o.color@[a] != 0 && o.color@[b] != 0);
            if o.color@[a] == 2 {
                assert(s.color@[a] == 2);
                assert(s.color@[b] == 2);
            } else {
                assert(o.color@[a] == 1);
                assert(s.color@[a] == 1);
                if o.color@[b] == 2 {
                    assert(s.color@[b] == 2);
                } else {
                    assert(s.color@[b] == 1);
                }
            }
        }
    }
}

/// Recording edge `i` as oriented keeps the invariant when its orientation
/// is sound in the current state.
proof fn lemma_mark_done(mid: Search, s: Search, n: nat, edges: Seq<(usize, usize)>, i: int)
    requires
        search_inv(mid, n, edges),
        0 <= i < edges.len(),
        s.color@ == mid.color@,
        s.fin@ == mid.fin@,
        s.depth@ == mid.depth@,
        s.time@ == mid.time@,
        s.done@ == mid.done@.update(i, true),
        s.flipped@.len() == mid.flipped@.len(),
        forall|j: int| 0 <= j < edges.len() && j != i ==> s.flipped@[j] == mid.flipped@[j],
        !mid.done@[i],
        edge_ok(s, edges[i], s.flipped@[i]),
        mid.color@[edges[i].0 as int] != 0,
        is_loop(edges[i]) ==> !s.flipped@[i],
    ensures
        search_inv(s, n, edges),
{
    assert forall|j: int| 0 <= j < edges.len() && #[trigger] s.done@[j] implies edge_ok(
        s,
        edges[j],
        s.flipped@[j],
    ) by {
        if j != i {
            assert(edge_ok(mid, edges[j], mid.flipped@[j]));
        }
    }
}

proof fn lemma_frame_chain(
    a: Search,
    b: Search,
    c: Search,
    n: nat,
    edges: Seq<(usize, usize)>,
    x: int,
)
    requires
        search_frame_except(a, b, n, edges, x),
        search_frame(b, c, n, edges),
        edges_in_range(n, edges),
        a.color@.len() == n,
        b.color@.len() == n,
        forall|w: int| 0 <= w < n && a.color@[w] != 0 ==> #[trigger] b.color@[w] != 0,
    ensures
        search_frame_except(a, c, n, edges, x),
{
    assert forall|i: int|
        0 <= i < edges.len() && a.color@[(#[trigger] edges[i]).0 as int] != 0 && edges[i].0
            != x implies c.done@[i] == a.done@[i] && c.flipped@[i] == a.flipped@[i] by {
        assert(edges[i].0 != -1);
        assert(edges[i].0 < n);
        assert(b.color@[edges[i].0 as int] != 0);
    }
}

/// Colours and orientation flags of the depth-first search.
pub type Walk = (Seq<u8>, Seq<bool>);

/// Depth-first visit of `u` with `f` levels of nesting left: `u` goes on the
/// stack, its edges are scanned in input order, and it is finished.
pub open spec fn visit_walk(edges: Seq<(usize, usize)>, st: Walk, u: int, f: nat) -> Walk
    decreases f, edges.len() + 1,
{
    if f == 0 {
        st
    } else {
        let st2 = scan_walk(edges, (st.0.update(u, 1), st.1), u, 0, f);
        (st2.0.update(u, 2), st2.1)
    }
}

/// Scan of the edges of `u` from index `i` on: an edge to a node on the
/// stack is reversed, an edge to an unvisited node is followed.
pub open spec fn scan_walk(edges: Seq<(usize, usize)>, st: Walk, u: int, i: int, f: nat) -> Walk
    decreases f, edges.len() - i,
{
    if i < 0 || i >= edges.len() || f == 0 {
        st
    } else {
        let a = edges[i].0 as int;
        let v = edges[i].1 as int;
        let st2 = if a != u || v == u {
            st
        } else if st.0[v] == 1 {
            (st.0, st.1.update(i, true))
        } else if st.0[v] == 0 {
            visit_walk(edges, st, v, (f - 1) as nat)
        } else {
            st
        };
        scan_walk(edges, st2, u, i + 1, f)
    }
}

/// The search from each node `u..n` still unvisited, in index order.
pub open spec fn walk_from(edges: Seq<(usize, usize)>, n: nat, st: Walk, u: int) -> Walk
    decreases n - u,
{
    if u < 0 || u >= n {
        st
    } else {
        let st2 = if st.0[u] == 0 {
            visit_walk(edges, st, u, n)
        } else {
            st
        };
        walk_from(edges, n, st2, u + 1)
    }
}

/// The orientation the depth-first search gives: `true` for the edges it
/// reverses.
pub open spec fn dfs_orientation(n: nat, edges: Seq<(usize, usize)>) -> Seq<bool> {
    walk_from(edges, n, (Seq::new(n, |w: int| 0u8), Seq::new(edges.len(), |i: int| false)), 0).1
}

proof fn lemma_count_lt(c: Seq<u8>, k: int, x: u8, w: int)
    requires
        0 <= w < k <= c.len(),
        c[w] != x,
    ensures
        count_of(c, k, x) < k,
    decreases k,
{
    lemma_count_bound(c, k - 1, x);
    if w < k - 1 {
        lemma_count_lt(c, k - 1, x, w);
    }
}

/// Depth-first visit from `u`: every edge leaving a visited node is
/// oriented, and an edge that reaches back to a node still on the stack is
/// reversed.
fn visit(
    n: usize,
    edges: &Vec<(usize, usize)>,
    st: &mut Search,
    u: usize,
    Ghost(d): Ghost<int>,
    Ghost(budget): Ghost<nat>,
)
    requires
        search_inv(*old(st), n as nat, edges@),
        u < n,
        old(st).color@[u as int] == 0,
        forall|w: int| 0 <= w < n && #[trigger] old(st).color@[w] == 1 ==> old(st).depth@[w] < d,
        budget == count_of(old(st).color@, n as int, 0),
        0 <= d,
        count_of(old(st).color@, n as int, 1) == d,
    ensures
        search_inv(*final(st), n as nat, edges@),
        count_of(final(st).color@, n as int, 1) == d,
        (final(st).color@, final(st).flipped@) == visit_walk(
            edges@,
            (old(st).color@, old(st).flipped@),
            u as int,
            (n - d) as nat,
        ),
        search_frame(*old(st), *final(st), n as nat, edges@),
        final(st).color@[u as int] == 2,
        forall|w: int|
            0 <= w < n && #[trigger] old(st).color@[w] == 0 ==> final(st).color@[w] == 0
                || final(st).color@[w] == 2,
        final(st).time@ >= old(st).time@,
    decreases budget,
{
    let ghost o = *st;
    let m = edges.len();
    let ghost f: nat = (n - d) as nat;
    proof {
        lemma_count_update(st.color@, n as int, u as int, 1, 2);
        lemma_count_update(st.color@, n as int, u as int, 1, 0);
        lemma_count_update(st.color@, n as int, u as int, 1, 1);
        lemma_count_lt(st.color@, n as int, 1, u as int);
    }
    st.color[u] = 1;
    st.depth = Ghost(st.depth@.update(u as int, d));
    let ghost s0 = *st;
    proof {
        assert forall|i: int| 0 <= i < m && #[trigger] s0.done@[i] implies edge_ok(
            s0,
            edges@[i],
            s0.flipped@[i],
        ) by {
            assert(edge_ok(o, edges@[i], o.flipped@[i]));
        }
        assert(search_inv(s0, n as nat, edges@));
    }
    let mut i: usize = 0;
    while i < m
        invariant
            m == edges@.len(),
            u < n,
            i <= m,
            search_inv(*st, n as nat, edges@),
            search_frame_except(s0, *st, n as nat, edges@, u as int),
            forall|w: int| 0 <= w < n && s0.color@[w] != 0 ==> #[trigger] st.color@[w] != 0,
            forall|w: int|
                0 <= w < n && #[trigger] s0.color@[w] == 0 ==> st.color@[w] == 0 || st.color@[w]
                    == 2,
            st.color@[u as int] == 1,
            st.depth@[u as int] == d,
            forall|w: int|
                0 <= w < n && w != u && #[trigger] st.color@[w] == 1 ==> st.depth@[w] < d,
            forall|j: int|
                0 <= j < m && (#[trigger] edges@[j]).0 == u ==> (st.done@[j] <==> j < i),
            s0.color@ == o.color@.update(u as int, 1),
            s0.depth@ == o.depth@.update(u as int, d),
            s0.fin@ == o.fin@,
            s0.done@ == o.done@,
            s0.flipped@ == o.flipped@,
            s0.time@ == o.time@,
            search_inv(o, n as nat, edges@),
            o.color@[u as int] == 0,
            forall|w: int| 0 <= w < n && #[trigger] o.color@[w] == 1 ==> o.depth@[w] < d,
            count_of(st.color@, n as int, 0) < budget,
            st.time@ >= o.time@,
            0 <= d < n,
            f == n - d,
            count_of(st.color@, n as int, 1) == d + 1,
            scan_walk(edges@, (s0.color@, s0.flipped@), u as int, 0, f) == scan_walk(
                edges@,
                (st.color@, st.flipped@),
                u as int,
                i as int,
                f,
            ),
        decreases m - i,
    {
        let (a, v) = edges[i];
        if a == u {
            let ghost before = *st;
            if v == u {
                let ghost mid = *st;
                st.done = Ghost(st.done@.update(i as int, true));
                proof {
                    lemma_mark_done(mid, *st, n as nat, edges@, i as int);
                }
            } else if st.color[v] == 1 {
                let ghost mid = *st;
                st.flipped[i] = true;
                st.done = Ghost(st.done@.update(i as int, true));
                proof {
                    lemma_mark_done(mid, *st, n as nat, edges@, i as int);
                }
            } else {
                if st.color[v] == 0 {
                    let ghost before_call = *st;
                    visit(n, edges, st, v, Ghost(d + 1), Ghost(count_of(st.color@, n as int, 0)));
                    assert((n - (d + 1)) as nat == (f - 1) as nat);
                    proof {
                        lemma_frame_keeps_edges(before_call, *st, n as nat, edges@);
                        lemma_frame_chain(s0, before_call, *st, n as nat, edges@, u as int);
                        lemma_count_shrinks(
                            st.color@,
                            before_call.color@,
                            n as int,
                            0,
                            v as int,
                        );
                    }
                }
                let ghost mid = *st;
                st.done = Ghost(st.done@.update(i as int, true));
                proof {
                    assert(st.color@[u as int] == 1);
                    assert(st.color@[v as int] == 2);
                    lemma_mark_done(mid, *st, n as nat, edges@, i as int);
                }
            }
            proof {
                assert(!before.done@[i as int]);
            }
        }
        i += 1;
    }
    let ghost s1 = *st;
    proof {
        lemma_count_update(st.color@, n as int, u as int, 2, 2);
        lemma_count_update(st.color@, n as int, u as int, 2, 0);
        lemma_count_update(st.color@, n as int, u as int, 2, 1);
    }
    st.color[u] = 2;
    st.fin = Ghost(st.fin@.update(u as int, st.time@));
    st.time = Ghost(st.time@ + 1);
    proof {
        assert forall|j: int| 0 <= j < m && #[trigger] st.done@[j] implies edge_ok(
            *st,
            edges@[j],
            st.flipped@[j],
        ) by {
            assert(edge_ok(s1, edges@[j], s1.flipped@[j]));
        }
        assert forall|w: int| 0 <= w < n && #[trigger] o.color@[w] == 2 implies st.color@[w] == 2
            && st.fin@[w] == o.fin@[w] by {
            assert(w != u);
            assert(s0.color@[w] == 2);
        }
        assert forall|w: int| 0 <= w < n && #[trigger] o.color@[w] == 1 implies st.color@[w] == 1
            && st.depth@[w] == o.depth@[w] by {
            assert(w != u);
            assert(s0.color@[w] == 1);
        }
        assert forall|w: int| 0 <= w < n && #[trigger] st.color@[w] == 1 implies o.color@[w]
            == 1 by {
            assert(w != u);
            assert(s1.color@[w] == 1);
            assert(s0.color@[w] == 1);
        }
        assert forall|j: int|
            0 <= j < m && o.color@[(#[trigger] edges@[j]).0 as int] != 0 implies st.done@[j]
            == o.done@[j] && st.flipped@[j] == o.flipped@[j] by {
            assert(edges@[j].0 != u);
            assert(s0.color@[edges@[j].0 as int] != 0);
        }
    }
}

proof fn lemma_count_zero(c: Seq<u8>, k: int, x: u8)
    requires
        0 <= k <= c.len(),
        forall|j: int| 0 <= j < c.len() ==> c[j] != x,
    ensures
        count_of(c, k, x) == 0,
    decreases k,
{
    if k > 0 {
        lemma_count_zero(c, k - 1, x);
    }
}

/// Cycle breaking. A depth-first search from each unvisited node in index
/// order, following each node's edges in input order, reverses every edge
/// that closes a cycle (one whose target is still on the search stack).
/// `flipped[i]` says whether edge `i` is reversed for layering; self loops
/// are never reversed and take no part in the layering.
pub fn break_cycles(n: usize, edges: &Vec<(usize, usize)>) -> (flipped: Vec<bool>)
    requires
        edges_in_range(n as nat, edges@),
    ensures
        flipped@ == dfs_orientation(n as nat, edges@),
        acyclic_orientation(n as nat, edges@, flipped@),
        forall|i: int| 0 <= i < edges@.len() && is_loop(#[trigger] edges@[i]) ==> !flipped@[i],
{
    let m = edges.len();
    let mut st = Search {
        color: vec![0u8; n],
        flipped: vec![false; m],
        done: Ghost(Seq::new(m as nat, |i: int| false)),
        fin: Ghost(Seq::new(n as nat, |w: int| 0)),
        depth: Ghost(Seq::new(n as nat, |w: int| 0)),
        time: Ghost(0),
    };
    proof {
        assert forall|k: int| 0 <= k <= n implies count_of(st.color@, k, 2) == 0 by {
            lemma_count_zero(st.color@, k, 2);
        }
    }
    let ghost init: Walk = (st.color@, st.flipped@);
    proof {
        assert(init == (Seq::new(n as nat, |w: int| 0u8), Seq::new(m as nat, |i: int| false)));
        lemma_count_zero(st.color@, n as int, 1);
    }
    let mut u: usize = 0;
    while u < n
        invariant
            u <= n,
            m == edges@.len(),
            search_inv(st, n as nat, edges@),
            count_of(st.color@, n as int, 1) == 0,
            walk_from(edges@, n as nat, init, 0) == walk_from(
                edges@,
                n as nat,
                (st.color@, st.flipped@),
                u as int,
            ),
            forall|w: int| 0 <= w < n ==> #[trigger] st.color@[w] != 1,
            forall|w: int| 0 <= w < u ==> #[trigger] st.color@[w] == 2,
        decreases n - u,
    {
        if st.color[u] == 0 {
            let ghost before = st;
            let ghost budget = count_of(st.color@, n as int, 0);
            visit(n, edges, &mut st, u, Ghost(0), Ghost(budget));
            proof {
                assert forall|w: int| 0 <= w < n implies #[trigger] st.color@[w] != 1 by {
                    if st.color@[w] == 1 {
                        assert(before.color@[w] == 1);
                    }
                }
                assert forall|w: int| 0 <= w < u implies #[trigger] st.color@[w] == 2 by {
                    assert(before.color@[w] == 2);
                }
            }
        }
        u += 1;
    }
    proof {
        assert forall|i: int| 0 <= i < m && !is_loop(#[trigger] edges@[i]) implies st.fin@[head(
            edges@[i],
            st.flipped@[i],
        )] < st.fin@[tail(edges@[i], st.flipped@[i])] by {
            assert(st.color@[edges@[i].0 as int] == 2);
            assert(st.done@[i]);
            assert(edge_ok(st, edges@[i], st.flipped@[i]));
        }
        lemma_count_bound(st.color@, n as int, 2);
        assert forall|w: int| 0 <= w < n implies 0 <= #[trigger] st.fin@[w] < n by {
            assert(st.color@[w] == 2);
        }
        assert(ranks_orientation(n as nat, edges@, st.flipped@, st.fin@));
    }
    st.flipped
}

/// Edge `i` is a proper edge that, as oriented, ends at `w`.
pub open spec fn enters(edges: Seq<(usize, usize)>, flipped: Seq<bool>, i: int, w: int) -> bool {
    !is_loop(edges[i]) && head(edges[i], flipped[i]) == w
}

/// Longest-path layering of the oriented graph: every proper edge goes at
/// least one layer down, and each node sits exactly one layer below its
/// deepest predecessor (layer 0 when it has none).
pub open spec fn longest_path_layering(
    n: nat,
    edges: Seq<(usize, usize)>,
    flipped: Seq<bool>,
    layer: Seq<usize>,
) -> bool {
    &&& layer.len() == n
    &&& forall|i: int|
        0 <= i < edges.len() && !is_loop(#[trigger] edges[i]) ==> layer[head(edges[i], flipped[i])]
            >= layer[tail(edges[i], flipped[i])] + 1
    &&& forall|w: int|
        0 <= w < n ==> #[trigger] layer[w] == 0 || exists|i: int|
            0 <= i < edges.len() && enters(edges, flipped, i, w) && layer[w] == layer[tail(
                edges[i],
                flipped[i],
            )] + 1
}

/// Layers computed so far satisfy the longest-path rule towards nodes
/// whose layer is known, and stay below the bound the ranking gives.
spec fn memo_ok(
    n: nat,
    edges: Seq<(usize, usize)>,
    flipped: Seq<bool>,
    rank: Seq<int>,
    known: Seq<bool>,
    layer: Seq<usize>,
) -> bool {
    &&& known.len() == n
    &&& layer.len() == n
    &&& forall|w: int| 0 <= w < n && #[trigger] known[w] ==> layer[w] + rank[w] < n
    &&& forall|i: int|
        0 <= i < edges.len() && !is_loop(#[trigger] edges[i]) && known[head(edges[i], flipped[i])]
            ==> known[tail(edges[i], flipped[i])] && layer[head(edges[i], flipped[i])] >= layer[tail(
            edges[i],
            flipped[i],
        )] + 1
    &&& forall|w: int|
        0 <= w < n && #[trigger] known[w] ==> layer[w] == 0 || exists|i: int|
            0 <= i < edges.len() && enters(edges, flipped, i, w) && layer[w] == layer[tail(
                edges[i],
                flipped[i],
            )] + 1
}

/// The layer of `u`, computing (and recording) those of its predecessors
/// first.
fn depth_of(
    n: usize,
    edges: &Vec<(usize, usize)>,
    flipped: &Vec<bool>,
    u: usize,
    known: &mut Vec<bool>,
    layer: &mut Vec<usize>,
    Ghost(rank): Ghost<Seq<int>>,
) -> (d: usize)
    requires
        edges_in_range(n as nat, edges@),
        flipped@.len() == edges@.len(),
        ranks_orientation(n as nat, edges@, flipped@, rank),
        memo_ok(n as nat, edges@, flipped@, rank, old(known)@, old(layer)@),
        u < n,
    ensures
        memo_ok(n as nat, edges@, flipped@, rank, final(known)@, final(layer)@),
        final(known)@[u as int],
        final(layer)@[u as int] == d,
        forall|w: int|
            0 <= w < n && #[trigger] old(known)@[w] ==> final(known)@[w] && final(layer)@[w]
                == old(layer)@[w],
        forall|w: int|
            0 <= w < n && #[trigger] final(known)@[w] && !old(known)@[w] ==> rank[w] >= rank[u as int],
    decreases n - rank[u as int],
{
    if known[u] {
        return layer[u];
    }
    let ghost k0 = known@;
    let ghost l0 = layer@;
    let m = edges.len();
    let mut best: usize = 0;
    let mut i: usize = 0;
    while i < m
        invariant
            m == edges@.len(),
            i <= m,
            u < n,
            edges_in_range(n as nat, edges@),
            flipped@.len() == edges@.len(),
            ranks_orientation(n as nat, edges@, flipped@, rank),
            memo_ok(n as nat, edges@, flipped@, rank, known@, layer@),
            !known@[u as int],
            !k0[u as int],
            k0.len() == n,
            l0.len() == n,
            forall|w: int|
                0 <= w < n && #[trigger] k0[w] ==> known@[w] && layer@[w] == l0[w],
            forall|w: int|
                0 <= w < n && #[trigger] known@[w] && !k0[w] ==> rank[w] > rank[u as int],
            best + rank[u as int] < n,
            forall|j: int|
                0 <= j < i && enters(edges@, flipped@, j, u as int) ==> known@[tail(
                    edges@[j],
                    flipped@[j],
                )] && best >= layer@[tail(edges@[j], flipped@[j])] + 1,
            best == 0 || exists|j: int|
                0 <= j < i && enters(edges@, flipped@, j, u as int) && best == layer@[tail(
                    edges@[j],
                    flipped@[j],
                )] + 1,
        decreases m - i,
    {
        let (s, t) = edges[i];
        if s != t {
            let (a, b) = if flipped[i] {
                (t, s)
            } else {
                (s, t)
            };
            if b == u {
                proof {
                    assert(!is_loop(edges@[i as int]));
                    assert(rank[a as int] > rank[u as int]);
                }
                let ghost kb = known@;
                let ghost lb = layer@;
                let da = depth_of(n, edges, flipped, a, known, layer, Ghost(rank));
                proof {
                    assert(rank[a as int] < n);
                }
                if da + 1 > best {
                    best = da + 1;
                }
                proof {
                    assert forall|j: int|
                        0 <= j < i + 1 && enters(edges@, flipped@, j, u as int) implies known@[tail(
                            edges@[j],
                            flipped@[j],
                        )] && best >= layer@[tail(edges@[j], flipped@[j])] + 1 by {
                        if j < i {
                            assert(kb[tail(edges@[j], flipped@[j])]);
                        }
                    }
                    if best != 0 {
                        if best == da + 1 {
                            assert(enters(edges@, flipped@, i as int, u as int));
                        } else {
                            let j = choose|j: int|
                                0 <= j < i && enters(edges@, flipped@, j, u as int) && best
                                    == lb[tail(edges@[j], flipped@[j])] + 1;
                            assert(kb[tail(edges@[j], flipped@[j])]);
                        }
                    }
                }
            }
        }
        i += 1;
    }
    known[u] = true;
    layer[u] = best;
    proof {
        let kn = known@;
        let ln = layer@;
        assert forall|i: int|
            0 <= i < edges@.len() && !is_loop(#[trigger] edges@[i]) && kn[head(
                edges@[i],
                flipped@[i],
            )] implies kn[tail(edges@[i], flipped@[i])] && ln[head(edges@[i], flipped@[i])]
            >= ln[tail(edges@[i], flipped@[i])] + 1 by {
            assert(rank[head(edges@[i], flipped@[i])] < rank[tail(edges@[i], flipped@[i])]);
            if head(edges@[i], flipped@[i]) == u {
                assert(enters(edges@, flipped@, i, u as int));
            }
        }
        assert forall|w: int| 0 <= w < n && #[trigger] kn[w] implies ln[w] == 0 || exists|i: int|
            0 <= i < edges@.len() && enters(edges@, flipped@, i, w) && ln[w] == ln[tail(
                edges@[i],
                flipped@[i],
            )] + 1 by {
            if w == u {
                if best != 0 {
                    let j = choose|j: int|
                        0 <= j < m && enters(edges@, flipped@, j, u as int) && best == layer@[tail(
                            edges@[j],
                            flipped@[j],
                        )] + 1;
                    assert(rank[tail(edges@[j], flipped@[j])] > rank[u as int]);
                }
            } else {
                if ln[w] != 0 {
                    let j = choose|j: int|
                        0 <= j < edges@.len() && enters(edges@, flipped@, j, w) && ln[w] == ln[tail(
                            edges@[j],
                            flipped@[j],
                        )] + 1;
                }
            }
        }
    }
    best
}

/// Longest-path layer assignment on an acyclic orientation.
pub fn assign_layers(n: usize, edges: &Vec<(usize, usize)>, flipped: &Vec<bool>) -> (layer: Vec<
    usize,
>)
    requires
        edges_in_range(n as nat, edges@),
        acyclic_orientation(n as nat, edges@, flipped@),
    ensures
        longest_path_layering(n as nat, edges@, flipped@, layer@),
        forall|w: int| 0 <= w < n ==> #[trigger] layer@[w] < n,
{
    let ghost rank = choose|rank: Seq<int>| ranks_orientation(n as nat, edges@, flipped@, rank);
    let mut known: Vec<bool> = vec![false; n];
    let mut layer: Vec<usize> = vec![0usize; n];
    let mut u: usize = 0;
    while u < n
        invariant
            u <= n,
            edges_in_range(n as nat, edges@),
            flipped@.len() == edges@.len(),
            ranks_orientation(n as nat, edges@, flipped@, rank),
            memo_ok(n as nat, edges@, flipped@, rank, known@, layer@),
            forall|w: int| 0 <= w < u ==> #[trigger] known@[w],
        decreases n - u,
    {
        let ghost before = known@;
        depth_of(n, edges, flipped, u, &mut known, &mut layer, Ghost(rank));
        proof {
            assert forall|w: int| 0 <= w < u + 1 implies #[trigger] known@[w] by {
                if w < u {
                    assert(before[w]);
                }
            }
        }
        u += 1;
    }
    proof {
        assert forall|w: int| 0 <= w < n implies #[trigger] layer@[w] < n by {
            assert(known@[w]);
        }
        assert forall|i: int| 0 <= i < edges@.len() && !is_loop(#[trigger] edges@[i]) implies layer@[head(
            edges@[i],
            flipped@[i],
        )] >= layer@[tail(edges@[i], flipped@[i])] + 1 by {
            assert(known@[head(edges@[i], flipped@[i])]);
        }
        assert forall|w: int| 0 <= w < n implies #[trigger] layer@[w] == 0 || exists|i: int|
            0 <= i < edges@.len() && enters(edges@, flipped@, i, w) && layer@[w] == layer@[tail(
                edges@[i],
                flipped@[i],
            )] + 1 by {
            assert(known@[w]);
        }
    }
    layer
}

/// Every listed neighbour exists and sits one layer below (successors) or
/// above (predecessors): each edge of the split graph spans one layer.
pub open spec fn spans_one_layer(
    lay: Seq<usize>,
    succ: Seq<Vec<usize>>,
    pred: Seq<Vec<usize>>,
) -> bool {
    &&& succ.len() == lay.len()
    &&& pred.len() == lay.len()
    &&& forall|x: int, k: int|
        0 <= x < lay.len() && 0 <= k < succ[x]@.len() ==> #[trigger] succ[x]@[k] < lay.len()
            && lay[succ[x]@[k] as int] == lay[x] + 1
    &&& forall|y: int, k: int|
        0 <= y < lay.len() && 0 <= k < pred[y]@.len() ==> #[trigger] pred[y]@[k] < lay.len()
            && lay[pred[y]@[k] as int] + 1 == lay[y]
}

/// `new` keeps every list of `old` as a prefix of its own.
pub open spec fn lists_grow(old: Seq<Vec<usize>>, new: Seq<Vec<usize>>) -> bool {
    &&& old.len() <= new.len()
    &&& forall|x: int|
        0 <= x < old.len() ==> old[x]@.len() <= (#[trigger] new[x])@.len() && forall|k: int|
            0 <= k < old[x]@.len() ==> new[x]@[k] == old[x]@[k]
}

proof fn lemma_grow_keeps(old: Seq<Vec<usize>>, new: Seq<Vec<usize>>, x: int, y: usize)
    requires
        lists_grow(old, new),
        0 <= x < old.len(),
        old[x]@.contains(y),
    ensures
        new[x]@.contains(y),
{
    let k = choose|k: int| 0 <= k < old[x]@.len() && old[x]@[k] == y;
    assert(new[x]@[k] == y);
}

proof fn lemma_grow_trans(a: Seq<Vec<usize>>, b: Seq<Vec<usize>>, c: Seq<Vec<usize>>)
    requires
        lists_grow(a, b),
        lists_grow(b, c),
    ensures
        lists_grow(a, c),
{
    assert forall|x: int| 0 <= x < a.len() implies a[x]@.len() <= (#[trigger] c[x])@.len()
        && forall|k: int| 0 <= k < a[x]@.len() ==> c[x]@[k] == a[x]@[k] by {
        assert(b[x]@.len() <= c[x]@.len());
    }
}

/// Appending `v` to list `x` lets the lists grow.
proof fn lemma_push_grows(old: Seq<Vec<usize>>, new: Seq<Vec<usize>>, x: int, v: usize)
    requires
        0 <= x < old.len(),
        new == old.update(x, new[x]),
        new[x]@ == old[x]@.push(v),
    ensures
        lists_grow(old, new),
        new[x]@.contains(v),
{
    assert(new[x]@[old[x]@.len() as int] == v);
}

/// Successors node `x` gains from the downward chain `c` whose virtual nodes
/// are numbered from `base` on.
pub open spec fn succ_gain(c: Seq<usize>, base: int, x: int) -> Seq<usize> {
    if c.len() >= 2 && x == c[0] {
        seq![c[1]]
    } else if base <= x && x - base + 2 < c.len() {
        seq![c[x - base + 2]]
    } else {
        seq![]
    }
}

/// Predecessors node `y` gains from the downward chain `c` whose virtual
/// nodes are numbered from `base` on.
pub open spec fn pred_gain(c: Seq<usize>, base: int, y: int) -> Seq<usize> {
    if c.len() >= 2 && y == c[c.len() - 1] {
        seq![c[c.len() - 2]]
    } else if base <= y && y - base + 2 < c.len() {
        seq![c[y - base]]
    } else {
        seq![]
    }
}

/// Virtual nodes edge `e` needs: one per layer strictly between its ends.
pub open spec fn gap(layer0: Seq<usize>, e: (usize, usize)) -> nat {
    if is_loop(e) {
        0
    } else {
        let a = layer0[e.0 as int] as int;
        let b = layer0[e.1 as int] as int;
        let d = if a < b { b - a } else { a - b };
        if d >= 1 { (d - 1) as nat } else { 0 }
    }
}

/// Virtual nodes the edges before edge `i` need.
pub open spec fn virtuals_before(layer0: Seq<usize>, edges: Seq<(usize, usize)>, i: int) -> nat
    decreases i,
{
    if i <= 0 {
        0
    } else {
        virtuals_before(layer0, edges, i - 1) + gap(layer0, edges[i - 1])
    }
}

/// The chain of proper edge `i` read downwards: its end on the upper layer,
/// its virtual nodes (numbered after those of the edges before it), its end
/// on the lower layer.
pub open spec fn down_chain(layer0: Seq<usize>, edges: Seq<(usize, usize)>, i: int) -> Seq<usize> {
    let e = edges[i];
    let from = if layer0[e.0 as int] <= layer0[e.1 as int] { e.0 } else { e.1 };
    let to = if layer0[e.0 as int] <= layer0[e.1 as int] { e.1 } else { e.0 };
    let base = layer0.len() + virtuals_before(layer0, edges, i);
    seq![from] + Seq::new(gap(layer0, e), |t: int| (base + t) as usize) + seq![to]
}

pub open spec fn reversed(c: Seq<usize>) -> Seq<usize> {
    Seq::new(c.len(), |j: int| c[c.len() - 1 - j])
}

/// The recorded chain of edge `i`, in the edge's own direction.
pub open spec fn edge_chain(layer0: Seq<usize>, edges: Seq<(usize, usize)>, i: int) -> Seq<usize> {
    let e = edges[i];
    if is_loop(e) {
        seq![e.0, e.1]
    } else if layer0[e.0 as int] < layer0[e.1 as int] {
        down_chain(layer0, edges, i)
    } else {
        reversed(down_chain(layer0, edges, i))
    }
}

/// Successors of node `x` after splitting the first `i` edges, in the
/// order they were added.
pub open spec fn succ_upto(layer0: Seq<usize>, edges: Seq<(usize, usize)>, i: int, x: int) -> Seq<usize>
    decreases i,
{
    if i <= 0 {
        seq![]
    } else {
        succ_upto(layer0, edges, i - 1, x) + if is_loop(edges[i - 1]) {
            seq![]
        } else {
            succ_gain(
                down_chain(layer0, edges, i - 1),
                (layer0.len() + virtuals_before(layer0, edges, i - 1)) as int,
                x,
            )
        }
    }
}

/// Predecessors of node `y` after splitting the first `i` edges.
pub open spec fn pred_upto(layer0: Seq<usize>, edges: Seq<(usize, usize)>, i: int, y: int) -> Seq<usize>
    decreases i,
{
    if i <= 0 {
        seq![]
    } else {
        pred_upto(layer0, edges, i - 1, y) + if is_loop(edges[i - 1]) {
            seq![]
        } else {
            pred_gain(
                down_chain(layer0, edges, i - 1),
                (layer0.len() + virtuals_before(layer0, edges, i - 1)) as int,
                y,
            )
        }
    }
}

/// Nodes numbered past the virtual nodes of the first `i` edges have no
/// neighbours yet.
proof fn lemma_fresh_nodes_bare(layer0: Seq<usize>, edges: Seq<(usize, usize)>, i: int, x: int)
    requires
        0 <= i <= edges.len(),
        edges_in_range(layer0.len(), edges),
        x >= layer0.len() + virtuals_before(layer0, edges, i),
    ensures
        succ_upto(layer0, edges, i, x) == Seq::<usize>::empty(),
        pred_upto(layer0, edges, i, x) == Seq::<usize>::empty(),
    decreases i,
{
    if i > 0 {
        lemma_fresh_nodes_bare(layer0, edges, i - 1, x);
        if !is_loop(edges[i - 1]) {
            let c = down_chain(layer0, edges, i - 1);
            assert(c.len() == gap(layer0, edges[i - 1]) + 2);
            assert(c[0] < layer0.len());
            assert(c[c.len() - 1] < layer0.len());
        }
    }
}

/// Replace the edge `from -> to`, which goes down by `span` layers, by a
/// chain through `span - 1` new virtual nodes, one per layer in between.
fn split_edge(
    lay: &mut Vec<usize>,
    succ: &mut Vec<Vec<usize>>,
    pred: &mut Vec<Vec<usize>>,
    from: usize,
    to: usize,
) -> (chain: Vec<usize>)
    requires
        spans_one_layer(old(lay)@, old(succ)@, old(pred)@),
        from < old(lay)@.len(),
        to < old(lay)@.len(),
        old(lay)@[from as int] < old(lay)@[to as int],
        old(lay)@.len() + old(lay)@[to as int] <= usize::MAX,
    ensures
        spans_one_layer(final(lay)@, final(succ)@, final(pred)@),
        final(lay)@.len() == old(lay)@.len() + old(lay)@[to as int] - old(lay)@[from as int] - 1,
        final(lay)@.subrange(0, old(lay)@.len() as int) == old(lay)@,
        forall|x: int|
            old(lay)@.len() <= x < final(lay)@.len() ==> old(lay)@[from as int] < #[trigger] final(lay)@[x]
                < old(lay)@[to as int],
        lists_grow(old(succ)@, final(succ)@),
        lists_grow(old(pred)@, final(pred)@),
        chain@.len() == old(lay)@[to as int] - old(lay)@[from as int] + 1,
        chain@[0] == from,
        chain@[chain@.len() - 1] == to,
        forall|k: int|
            0 <= k < chain@.len() ==> #[trigger] chain@[k] < final(lay)@.len() && final(lay)@[chain@[k] as int] == old(lay)@[from as int] + k,
        forall|k: int| 0 < k < chain@.len() - 1 ==> #[trigger] chain@[k] >= old(lay)@.len(),
        forall|k: int|
            0 <= k < chain@.len() - 1 ==> final(succ)@[#[trigger] chain@[k] as int]@.contains(
                chain@[k + 1],
            ) && final(pred)@[chain@[k + 1] as int]@.contains(chain@[k]),
        forall|k: int| 0 < k < chain@.len() - 1 ==> #[trigger] chain@[k] == old(lay)@.len() + k - 1,
        final(succ)@.len() == final(lay)@.len(),
        final(pred)@.len() == final(lay)@.len(),
        forall|x: int|
            0 <= x < final(lay)@.len() ==> (#[trigger] final(succ)@[x])@ == (if x < old(lay)@.len() {
                old(succ)@[x]@
            } else {
                seq![]
            }) + succ_gain(chain@, old(lay)@.len() as int, x),
        forall|y: int|
            0 <= y < final(lay)@.len() ==> (#[trigger] final(pred)@[y])@ == (if y < old(lay)@.len() {
                old(pred)@[y]@
            } else {
                seq![]
            }) + pred_gain(chain@, old(lay)@.len() as int, y),
{
    let ghost lay0 = lay@;
    let ghost succ0 = succ@;
    let ghost pred0 = pred@;
    let base = lay[from];
    let span = lay[to] - base;
    let mut chain: Vec<usize> = vec![from];
    let mut prev = from;
    let mut step: usize = 1;
    while step < span
        invariant
            1 <= step <= span || (span <= 1 && step == 1),
            span == lay0[to as int] - lay0[from as int],
            base == lay0[from as int],
            from < lay0.len(),
            to < lay0.len(),
            lay0.len() + lay0[to as int] <= usize::MAX,
            lay@.len() == lay0.len() + step - 1,
            lay@.subrange(0, lay0.len() as int) == lay0,
            forall|x: int| lay0.len() <= x < lay@.len() ==> base < #[trigger] lay@[x] < lay0[to as int],
            spans_one_layer(lay@, succ@, pred@),
            lists_grow(succ0, succ@),
            lists_grow(pred0, pred@),
            chain@.len() == step,
            chain@[0] == from,
            prev == chain@[step - 1],
            forall|k: int|
                0 <= k < chain@.len() ==> #[trigger] chain@[k] < lay@.len() && lay@[chain@[k] as int] == base + k,
            forall|k: int| 0 < k < chain@.len() ==> #[trigger] chain@[k] >= lay0.len(),
            forall|k: int|
                0 <= k < chain@.len() - 1 ==> succ@[#[trigger] chain@[k] as int]@.contains(
                    chain@[k + 1],
                ) && pred@[chain@[k + 1] as int]@.contains(chain@[k]),
            forall|k: int| 0 < k < chain@.len() ==> #[trigger] chain@[k] == lay0.len() + k - 1,
            succ0.len() == lay0.len(),
            pred0.len() == lay0.len(),
            forall|x: int|
                0 <= x < lay@.len() ==> (#[trigger] succ@[x])@ == (if x < lay0.len() {
                    succ0[x]@
                } else {
                    seq![]
                }) + succ_gain(chain@, lay0.len() as int, x),
            forall|y: int|
                0 <= y < lay@.len() ==> (#[trigger] pred@[y])@ == (if y < lay0.len() {
                    pred0[y]@
                } else {
                    seq![]
                }) + pred_gain(chain@, lay0.len() as int, y),
        decreases span - step,
    {
        let vid = lay.len();
        let ghost l1 = lay@;
        let ghost s1 = succ@;
        let ghost p1 = pred@;
        lay.push(base + step);
        succ.push(Vec::new());
        pred.push(Vec::new());
        let ghost s2 = succ@;
        let ghost p2 = pred@;
        succ[prev].push(vid);
        pred[vid].push(prev);
        let ghost c1 = chain@;
        chain.push(vid);
        proof {
            let b = lay0.len() as int;
            assert(chain@ == c1.push(vid));
            assert forall|x: int| 0 <= x < lay@.len() implies (#[trigger] succ@[x])@ == (if x < lay0.len() {
                succ0[x]@
            } else {
                seq![]
            }) + succ_gain(chain@, b, x) by {
                if x == prev {
                    assert(succ@[x]@ == s1[x]@.push(vid));
                    assert(succ_gain(chain@, b, x) == succ_gain(c1, b, x).push(vid));
                } else if x == vid {
                    assert(succ@[x]@ == Seq::<usize>::empty());
                } else {
                    assert(succ@[x]@ == s1[x]@);
                    assert(succ_gain(chain@, b, x) == succ_gain(c1, b, x));
                }
            }
            assert forall|y: int| 0 <= y < lay@.len() implies (#[trigger] pred@[y])@ == (if y < lay0.len() {
                pred0[y]@
            } else {
                seq![]
            }) + pred_gain(chain@, b, y) by {
                if y == vid {
                    assert(pred@[y]@ == seq![prev]);
                    assert(pred_gain(chain@, b, y) == seq![prev]);
                } else {
                    assert(pred@[y]@ == p1[y]@);
                    assert(pred_gain(chain@, b, y) == pred_gain(c1, b, y));
                }
            }
            assert(lists_grow(s1, s2));
            assert(lists_grow(p1, p2));
            lemma_push_grows(s2, succ@, prev as int, vid);
            lemma_push_grows(p2, pred@, vid as int, prev);
            lemma_grow_trans(s1, s2, succ@);
            lemma_grow_trans(p1, p2, pred@);
            lemma_grow_trans(succ0, s1, succ@);
            lemma_grow_trans(pred0, p1, pred@);
            assert(lay@.subrange(0, lay0.len() as int) =~= lay0);
            assert forall|x: int, k: int|
                0 <= x < lay@.len() && 0 <= k < succ@[x]@.len() implies #[trigger] succ@[x]@[k]
                < lay@.len() && lay@[succ@[x]@[k] as int] == lay@[x] + 1 by {
                if x == prev && k == s2[x]@.len() {
                } else if x < l1.len() {
                    assert(succ@[x]@[k] == s1[x]@[k]);
                }
            }
            assert forall|y: int, k: int|
                0 <= y < lay@.len() && 0 <= k < pred@[y]@.len() implies #[trigger] pred@[y]@[k]
                < lay@.len() && lay@[pred@[y]@[k] as int] + 1 == lay@[y] by {
                if y < l1.len() {
                    assert(pred@[y]@[k] == p1[y]@[k]);
                }
            }
            assert forall|k: int| 0 <= k < chain@.len() - 1 implies succ@[#[trigger] chain@[k] as int]@.contains(chain@[k + 1]) && pred@[chain@[k + 1] as int]@.contains(chain@[k]) by {
                if k < chain@.len() - 2 {
                    lemma_grow_keeps(s1, succ@, chain@[k] as int, chain@[k + 1]);
                    lemma_grow_keeps(p1, pred@, chain@[k + 1] as int, chain@[k]);
                }
            }
        }
        prev = vid;
        step += 1;
    }
    let ghost s1 = succ@;
    let ghost p1 = pred@;
    let ghost c1 = chain@;
    succ[prev].push(to);
    pred[to].push(prev);
    chain.push(to);
    proof {
        let b = lay0.len() as int;
        assert(chain@ == c1.push(to));
        assert forall|x: int| 0 <= x < lay@.len() implies (#[trigger] succ@[x])@ == (if x < lay0.len() {
            succ0[x]@
        } else {
            seq![]
        }) + succ_gain(chain@, b, x) by {
            if x == prev {
                assert(succ@[x]@ == s1[x]@.push(to));
                assert(succ_gain(chain@, b, x) == succ_gain(c1, b, x).push(to));
            } else {
                assert(succ@[x]@ == s1[x]@);
                assert(succ_gain(chain@, b, x) == succ_gain(c1, b, x));
            }
        }
        assert forall|y: int| 0 <= y < lay@.len() implies (#[trigger] pred@[y])@ == (if y < lay0.len() {
            pred0[y]@
        } else {
            seq![]
        }) + pred_gain(chain@, b, y) by {
            if y == to {
                assert(pred@[y]@ == p1[y]@.push(prev));
                assert(pred_gain(chain@, b, y) == pred_gain(c1, b, y).push(prev));
            } else {
                assert(pred@[y]@ == p1[y]@);
                assert(pred_gain(chain@, b, y) == pred_gain(c1, b, y));
            }
        }
        lemma_push_grows(s1, succ@, prev as int, to);
        lemma_push_grows(p1, pred@, to as int, prev);
        lemma_grow_trans(succ0, s1, succ@);
        lemma_grow_trans(pred0, p1, pred@);
        assert(lay@[to as int] == lay0[to as int]);
        assert forall|x: int, k: int|
            0 <= x < lay@.len() && 0 <= k < succ@[x]@.len() implies #[trigger] succ@[x]@[k]
            < lay@.len() && lay@[succ@[x]@[k] as int] == lay@[x] + 1 by {
            if x != prev || k != s1[x]@.len() {
                assert(succ@[x]@[k] == s1[x]@[k]);
            }
        }
        assert forall|y: int, k: int|
            0 <= y < lay@.len() && 0 <= k < pred@[y]@.len() implies #[trigger] pred@[y]@[k]
            < lay@.len() && lay@[pred@[y]@[k] as int] + 1 == lay@[y] by {
            if y != to || k != p1[y]@.len() {
                assert(pred@[y]@[k] == p1[y]@[k]);
            }
        }
        assert forall|k: int| 0 <= k < chain@.len() - 1 implies succ@[#[trigger] chain@[k] as int]@.contains(chain@[k + 1]) && pred@[chain@[k + 1] as int]@.contains(chain@[k]) by {
            if k < chain@.len() - 2 {
                lemma_grow_keeps(s1, succ@, chain@[k] as int, chain@[k + 1]);
                lemma_grow_keeps(p1, pred@, chain@[k + 1] as int, chain@[k]);
            }
        }
    }
    chain
}

/// The layered working graph: real nodes first, then virtual ones.
pub struct Layering {
    /// Successors of each node, one layer down.
    pub succ: Vec<Vec<usize>>,
    /// Predecessors of each node, one layer up.
    pub pred: Vec<Vec<usize>>,
    /// Layer of each node, virtual nodes included.
    pub layer: Vec<usize>,
    /// Nodes at indices from here on are virtual.
    pub real_count: usize,
    /// For each input edge, the nodes it passes: its source, the virtual
    /// nodes in between, its target.
    pub edge_chains: Vec<Vec<usize>>,
    /// The nodes of each layer, in index order.
    pub layers: Vec<Vec<usize>>,
}

/// Edge `e` with real-node layers `layer0` is represented by `chain` in the
/// split graph with layers `lay`: from source to target, one layer per
/// step, through virtual nodes only. A self loop keeps the chain
/// `[node, node]`.
pub open spec fn chain_ok(
    layer0: Seq<usize>,
    lay: Seq<usize>,
    e: (usize, usize),
    chain: Seq<usize>,
) -> bool {
    if is_loop(e) {
        chain == seq![e.0, e.1]
    } else {
        let lu = layer0[e.0 as int] as int;
        let lv = layer0[e.1 as int] as int;
        &&& chain.len() >= 2
        &&& chain[0] == e.0
        &&& chain[chain.len() - 1] == e.1
        &&& forall|k: int| 0 < k < chain.len() - 1 ==> #[trigger] chain[k] >= layer0.len()
        &&& forall|k: int| 0 <= k < chain.len() ==> #[trigger] chain[k] < lay.len()
        &&& lu < lv ==> chain.len() == lv - lu + 1 && forall|k: int|
            0 <= k < chain.len() ==> lay[#[trigger] chain[k] as int] == lu + k
        &&& lv < lu ==> chain.len() == lu - lv + 1 && forall|k: int|
            0 <= k < chain.len() ==> lay[#[trigger] chain[k] as int] == lu - k
    }
}

/// Step `k` of the chain, taken downwards, is an edge of the split graph.
pub open spec fn chain_step_linked(
    layer0: Seq<usize>,
    succ: Seq<Vec<usize>>,
    pred: Seq<Vec<usize>>,
    e: (usize, usize),
    chain: Seq<usize>,
    k: int,
) -> bool {
    let (x, y) = if layer0[e.0 as int] < layer0[e.1 as int] {
        (chain[k], chain[k + 1])
    } else {
        (chain[k + 1], chain[k])
    };
    succ[x as int]@.contains(y) && pred[y as int]@.contains(x)
}

/// Each step of a proper edge's chain, taken downwards, is an edge of the
/// split graph.
pub open spec fn chain_linked(
    layer0: Seq<usize>,
    succ: Seq<Vec<usize>>,
    pred: Seq<Vec<usize>>,
    e: (usize, usize),
    chain: Seq<usize>,
) -> bool {
    !is_loop(e) ==> forall|k: int|
        0 <= k < chain.len() - 1 ==> #[trigger] chain_step_linked(layer0, succ, pred, e, chain, k)
}

/// `layers` buckets the nodes `0..lay.len()` by layer, each bucket in
/// increasing index order, with one bucket per layer up to the deepest.
pub open spec fn buckets_ok(lay: Seq<usize>, layers: Seq<Vec<usize>>) -> bool {
    &&& layers.len() >= 1
    &&& forall|w: int| 0 <= w < lay.len() ==> #[trigger] lay[w] < layers.len()
    &&& lay.len() > 0 ==> exists|w: int| 0 <= w < lay.len() && lay[w] == layers.len() - 1
    &&& forall|l: int, k: int|
        0 <= l < layers.len() && 0 <= k < layers[l]@.len() ==> #[trigger] layers[l]@[k] < lay.len()
            && lay[layers[l]@[k] as int] == l
    &&& forall|l: int, j: int, k: int|
        0 <= l < layers.len() && 0 <= j < k < layers[l]@.len() ==> #[trigger] layers[l]@[j]
            < #[trigger] layers[l]@[k]
    &&& forall|w: int| 0 <= w < lay.len() ==> layers[lay[w] as int]@.contains(w as usize)
}

/// A chain stays valid when the layer list only gets longer and the
/// neighbour lists only grow.
proof fn lemma_chain_persists(
    layer0: Seq<usize>,
    l1: Seq<usize>,
    lay: Seq<usize>,
    s1: Seq<Vec<usize>>,
    p1: Seq<Vec<usize>>,
    succ: Seq<Vec<usize>>,
    pred: Seq<Vec<usize>>,
    e: (usize, usize),
    c: Seq<usize>,
)
    requires
        chain_ok(layer0, l1, e, c),
        chain_linked(layer0, s1, p1, e, c),
        s1.len() == l1.len(),
        p1.len() == l1.len(),
        l1.len() <= lay.len(),
        lay.subrange(0, l1.len() as int) == l1,
        lists_grow(s1, succ),
        lists_grow(p1, pred),
    ensures
        chain_ok(layer0, lay, e, c),
        chain_linked(layer0, succ, pred, e, c),
{
    if !is_loop(e) {
        assert forall|k: int| 0 <= k < c.len() implies #[trigger] c[k] < lay.len() && lay[c[k] as int]
            == l1[c[k] as int] by {
            assert(lay.subrange(0, l1.len() as int)[c[k] as int] == l1[c[k] as int]);
        }
        assert forall|k: int| 0 <= k < c.len() - 1 implies #[trigger] chain_step_linked(
            layer0,
            succ,
            pred,
            e,
            c,
            k,
        ) by {
            assert(chain_step_linked(layer0, s1, p1, e, c, k));
            let (x, y) = if layer0[e.0 as int] < layer0[e.1 as int] {
                (c[k], c[k + 1])
            } else {
                (c[k + 1], c[k])
            };
            lemma_grow_keeps(s1, succ, x as int, y);
            lemma_grow_keeps(p1, pred, y as int, x);
        }
    }
}

/// The chain `split_edge` builds for proper edge `i` is its downward chain.
proof fn lemma_split_chain(
    layer0: Seq<usize>,
    edges: Seq<(usize, usize)>,
    i: int,
    old_len: int,
    fwd: Seq<usize>,
)
    requires
        0 <= i < edges.len(),
        edges_in_range(layer0.len(), edges),
        !is_loop(edges[i]),
        old_len == layer0.len() + virtuals_before(layer0, edges, i),
        fwd.len() == (if layer0[edges[i].0 as int] <= layer0[edges[i].1 as int] {
            layer0[edges[i].1 as int] - layer0[edges[i].0 as int]
        } else {
            layer0[edges[i].0 as int] - layer0[edges[i].1 as int]
        }) + 1,
        fwd.len() >= 2,
        fwd[0] == (if layer0[edges[i].0 as int] <= layer0[edges[i].1 as int] {
            edges[i].0
        } else {
            edges[i].1
        }),
        fwd[fwd.len() - 1] == (if layer0[edges[i].0 as int] <= layer0[edges[i].1 as int] {
            edges[i].1
        } else {
            edges[i].0
        }),
        forall|k: int| 0 < k < fwd.len() - 1 ==> #[trigger] fwd[k] == old_len + k - 1,
    ensures
        fwd == down_chain(layer0, edges, i),
        gap(layer0, edges[i]) == fwd.len() - 2,
{
    let dc = down_chain(layer0, edges, i);
    assert(gap(layer0, edges[i]) == fwd.len() - 2);
    assert forall|k: int| 0 <= k < fwd.len() implies fwd[k] == dc[k] by {
        if 0 < k < fwd.len() - 1 {
            assert(fwd[k] == old_len + k - 1);
        }
    }
    assert(fwd =~= dc);
}

/// Splitting proper edge `i` turns the neighbour lists after the first `i`
/// edges into those after the first `i + 1`.
proof fn lemma_split_neighbours(
    layer0: Seq<usize>,
    edges: Seq<(usize, usize)>,
    i: int,
    old_len: int,
    new_len: int,
    s1: Seq<Vec<usize>>,
    p1: Seq<Vec<usize>>,
    succ: Seq<Vec<usize>>,
    pred: Seq<Vec<usize>>,
)
    requires
        0 <= i < edges.len(),
        edges_in_range(layer0.len(), edges),
        !is_loop(edges[i]),
        old_len == layer0.len() + virtuals_before(layer0, edges, i),
        forall|x: int| 0 <= x < old_len ==> (#[trigger] s1[x])@ == succ_upto(layer0, edges, i, x),
        forall|y: int| 0 <= y < old_len ==> (#[trigger] p1[y])@ == pred_upto(layer0, edges, i, y),
        forall|x: int|
            0 <= x < new_len ==> (#[trigger] succ[x])@ == (if x < old_len {
                s1[x]@
            } else {
                seq![]
            }) + succ_gain(down_chain(layer0, edges, i), old_len, x),
        forall|y: int|
            0 <= y < new_len ==> (#[trigger] pred[y])@ == (if y < old_len {
                p1[y]@
            } else {
                seq![]
            }) + pred_gain(down_chain(layer0, edges, i), old_len, y),
    ensures
        forall|x: int| 0 <= x < new_len ==> (#[trigger] succ[x])@ == succ_upto(layer0, edges, i + 1, x),
        forall|y: int| 0 <= y < new_len ==> (#[trigger] pred[y])@ == pred_upto(layer0, edges, i + 1, y),
{
    assert forall|x: int| 0 <= x < new_len implies (#[trigger] succ[x])@ == succ_upto(
        layer0,
        edges,
        i + 1,
        x,
    ) by {
        if x >= old_len {
            lemma_fresh_nodes_bare(layer0, edges, i, x);
        }
    }
    assert forall|y: int| 0 <= y < new_len implies (#[trigger] pred[y])@ == pred_upto(
        layer0,
        edges,
        i + 1,
        y,
    ) by {
        if y >= old_len {
            lemma_fresh_nodes_bare(layer0, edges, i, y);
        }
    }
}

/// The downward chain of a proper edge, turned to the edge's direction, is
/// a valid and linked chain for it.
proof fn lemma_oriented_chain(
    layer0: Seq<usize>,
    lay: Seq<usize>,
    succ: Seq<Vec<usize>>,
    pred: Seq<Vec<usize>>,
    e: (usize, usize),
    fwd: Seq<usize>,
    c: Seq<usize>,
)
    requires
        !is_loop(e),
        layer0[e.0 as int] != layer0[e.1 as int],
        fwd.len() >= 2,
        fwd.len() == (if layer0[e.0 as int] < layer0[e.1 as int] {
            layer0[e.1 as int] - layer0[e.0 as int]
        } else {
            layer0[e.0 as int] - layer0[e.1 as int]
        }) + 1,
        fwd[0] == (if layer0[e.0 as int] < layer0[e.1 as int] {
            e.0
        } else {
            e.1
        }),
        fwd[fwd.len() - 1] == (if layer0[e.0 as int] < layer0[e.1 as int] {
            e.1
        } else {
            e.0
        }),
        forall|k: int|
            0 <= k < fwd.len() ==> #[trigger] fwd[k] < lay.len() && lay[fwd[k] as int] == (if layer0[e.0 as int]
                < layer0[e.1 as int] {
                layer0[e.0 as int]
            } else {
                layer0[e.1 as int]
            }) + k,
        forall|k: int| 0 < k < fwd.len() - 1 ==> #[trigger] fwd[k] >= layer0.len(),
        forall|k: int|
            0 <= k < fwd.len() - 1 ==> succ[#[trigger] fwd[k] as int]@.contains(fwd[k + 1])
                && pred[fwd[k + 1] as int]@.contains(fwd[k]),
        c == (if layer0[e.0 as int] < layer0[e.1 as int] {
            fwd
        } else {
            reversed(fwd)
        }),
    ensures
        chain_ok(layer0, lay, e, c),
        chain_linked(layer0, succ, pred, e, c),
{
    if layer0[e.0 as int] < layer0[e.1 as int] {
        assert forall|k: int| 0 <= k < c.len() - 1 implies #[trigger] chain_step_linked(
            layer0,
            succ,
            pred,
            e,
            c,
            k,
        ) by {
            assert(succ[fwd[k] as int]@.contains(fwd[k + 1]));
        }
    } else {
        assert forall|k: int| 0 <= k < c.len() - 1 implies #[trigger] chain_step_linked(
            layer0,
            succ,
            pred,
            e,
            c,
            k,
        ) by {
            assert(c[k + 1] == fwd[fwd.len() - 2 - k]);
            assert(c[k] == fwd[fwd.len() - 1 - k]);
            assert(succ[fwd[fwd.len() - 2 - k] as int]@.contains(fwd[fwd.len() - 1 - k]));
        }
        assert forall|k: int| 0 <= k < c.len() implies #[trigger] c[k] < lay.len() && lay[c[k] as int]
            == layer0[e.0 as int] - k by {
            assert(c[k] == fwd[fwd.len() - 1 - k]);
        }
        assert forall|k: int| 0 < k < c.len() - 1 implies #[trigger] c[k] >= layer0.len() by {
            assert(c[k] == fwd[fwd.len() - 1 - k]);
        }
    }
}

/// Splits the proper edge `i` of `edges` in the working graph and returns
/// its chain in the edge's own direction.
#[verifier::spinoff_prover]
fn split_proper_edge(
    lay: &mut Vec<usize>,
    succ: &mut Vec<Vec<usize>>,
    pred: &mut Vec<Vec<usize>>,
    edges: &Vec<(usize, usize)>,
    i: usize,
    Ghost(layer0): Ghost<Seq<usize>>,
) -> (oriented: Vec<usize>)
    requires
        i < edges@.len(),
        edges_in_range(layer0.len(), edges@),
        !is_loop(edges@[i as int]),
        layer0[edges@[i as int].0 as int] != layer0[edges@[i as int].1 as int],
        old(lay)@.len() == layer0.len() + virtuals_before(layer0, edges@, i as int),
        old(lay)@.subrange(0, layer0.len() as int) == layer0,
        old(lay)@.len() + layer0[edges@[i as int].0 as int] <= usize::MAX,
        old(lay)@.len() + layer0[edges@[i as int].1 as int] <= usize::MAX,
        spans_one_layer(old(lay)@, old(succ)@, old(pred)@),
        forall|x: int|
            0 <= x < old(lay)@.len() ==> (#[trigger] old(succ)@[x])@ == succ_upto(
                layer0,
                edges@,
                i as int,
                x,
            ),
        forall|y: int|
            0 <= y < old(lay)@.len() ==> (#[trigger] old(pred)@[y])@ == pred_upto(
                layer0,
                edges@,
                i as int,
                y,
            ),
    ensures
        spans_one_layer(final(lay)@, final(succ)@, final(pred)@),
        final(lay)@.len() == layer0.len() + virtuals_before(layer0, edges@, i + 1),
        final(lay)@.subrange(0, old(lay)@.len() as int) == old(lay)@,
        forall|x: int|
            old(lay)@.len() <= x < final(lay)@.len() ==> #[trigger] final(lay)@[x] < layer0[edges@[i as int].0 as int]
                || final(lay)@[x] < layer0[edges@[i as int].1 as int],
        lists_grow(old(succ)@, final(succ)@),
        lists_grow(old(pred)@, final(pred)@),
        oriented@ == edge_chain(layer0, edges@, i as int),
        chain_ok(layer0, final(lay)@, edges@[i as int], oriented@),
        chain_linked(layer0, final(succ)@, final(pred)@, edges@[i as int], oriented@),
        forall|x: int|
            0 <= x < final(lay)@.len() ==> (#[trigger] final(succ)@[x])@ == succ_upto(
                layer0,
                edges@,
                i + 1,
                x,
            ),
        forall|y: int|
            0 <= y < final(lay)@.len() ==> (#[trigger] final(pred)@[y])@ == pred_upto(
                layer0,
                edges@,
                i + 1,
                y,
            ),
{
    let (u, v) = edges[i];
    let ghost n = layer0.len();
    let ghost l1 = lay@;
    let ghost s1 = succ@;
    let ghost p1 = pred@;
    proof {
        assert(lay@[u as int] == lay@.subrange(0, n as int)[u as int]);
        assert(lay@[v as int] == lay@.subrange(0, n as int)[v as int]);
    }
    let forward = lay[u] <= lay[v];
    let (from, to) = if forward {
        (u, v)
    } else {
        (v, u)
    };
    let chain = split_edge(lay, succ, pred, from, to);
    let ghost fwd = chain@;
    let mut oriented: Vec<usize> = Vec::new();
    if forward {
        oriented = chain;
    } else {
        let mut k = chain.len();
        while k > 0
            invariant
                k <= fwd.len(),
                chain@ == fwd,
                oriented@.len() == fwd.len() - k,
                forall|j: int|
                    0 <= j < oriented@.len() ==> #[trigger] oriented@[j] == fwd[fwd.len() - 1 - j],
            decreases k,
        {
            k -= 1;
            oriented.push(chain[k]);
        }
    }
    proof {
        let old_len = l1.len() as int;
        lemma_split_chain(layer0, edges@, i as int, old_len, fwd);
        if !forward {
            assert(oriented@ =~= reversed(fwd));
        }
        assert(oriented@ == edge_chain(layer0, edges@, i as int));
        lemma_split_neighbours(layer0, edges@, i as int, old_len, lay@.len() as int, s1, p1, succ@, pred@);
        lemma_oriented_chain(layer0, lay@, succ@, pred@, edges@[i as int], fwd, oriented@);
    }
    oriented
}

/// Virtual-node insertion: every edge spanning more than one layer is split
/// by one zero-size virtual node per layer crossed, so that each edge of the
/// result spans exactly one layer; each input edge records its chain, in
/// the edge's own direction. Then the nodes are bucketed by layer.
pub fn insert_virtual_nodes(layer: Vec<usize>, edges: &Vec<(usize, usize)>) -> (lg: Layering)
    requires
        edges_in_range(layer@.len(), edges@),
        forall|i: int|
            0 <= i < edges@.len() && !is_loop(#[trigger] edges@[i]) ==> layer@[edges@[i].0 as int]
                != layer@[edges@[i].1 as int],
        forall|w: int| 0 <= w < layer@.len() ==> #[trigger] layer@[w] < layer@.len(),
        layer@.len() * (edges@.len() + 1) <= usize::MAX,
    ensures
        lg.real_count == layer@.len(),
        lg.layer@.len() >= layer@.len(),
        lg.layer@.subrange(0, layer@.len() as int) == layer@,
        spans_one_layer(lg.layer@, lg.succ@, lg.pred@),
        lg.edge_chains@.len() == edges@.len(),
        forall|i: int|
            0 <= i < edges@.len() ==> chain_ok(
                layer@,
                lg.layer@,
                #[trigger] edges@[i],
                lg.edge_chains@[i]@,
            ) && chain_linked(layer@, lg.succ@, lg.pred@, edges@[i], lg.edge_chains@[i]@),
        buckets_ok(lg.layer@, lg.layers@),
        lg.layer@.len() == layer@.len() + virtuals_before(layer@, edges@, edges@.len() as int),
        forall|i: int|
            0 <= i < edges@.len() ==> (#[trigger] lg.edge_chains@[i])@ == edge_chain(layer@, edges@, i),
        forall|x: int|
            0 <= x < lg.layer@.len() ==> (#[trigger] lg.succ@[x])@ == succ_upto(
                layer@,
                edges@,
                edges@.len() as int,
                x,
            ),
        forall|y: int|
            0 <= y < lg.layer@.len() ==> (#[trigger] lg.pred@[y])@ == pred_upto(
                layer@,
                edges@,
                edges@.len() as int,
                y,
            ),
{
    let n = layer.len();
    let m = edges.len();
    let ghost layer0 = layer@;
    let mut lay = layer;
    let mut succ: Vec<Vec<usize>> = Vec::new();
    let mut pred: Vec<Vec<usize>> = Vec::new();
    let mut w: usize = 0;
    while w < n
        invariant
            w <= n,
            n == lay@.len(),
            succ@.len() == w,
            pred@.len() == w,
            forall|x: int| 0 <= x < w ==> (#[trigger] succ@[x])@.len() == 0,
            forall|x: int| 0 <= x < w ==> (#[trigger] pred@[x])@.len() == 0,
        decreases n - w,
    {
        succ.push(Vec::new());
        pred.push(Vec::new());
        w += 1;
    }
    let mut chains: Vec<Vec<usize>> = Vec::new();
    let mut i: usize = 0;
    while i < m
        invariant
            i <= m,
            m == edges@.len(),
            n == layer0.len(),
            edges_in_range(n as nat, edges@),
            forall|j: int|
                0 <= j < m && !is_loop(#[trigger] edges@[j]) ==> layer0[edges@[j].0 as int]
                    != layer0[edges@[j].1 as int],
            forall|x: int| 0 <= x < n ==> #[trigger] layer0[x] < n,
            n * (m + 1) <= usize::MAX,
            lay@.len() <= n * (i + 1),
            lay@.len() >= n,
            forall|x: int| 0 <= x < lay@.len() ==> #[trigger] lay@[x] < n,
            lay@.subrange(0, n as int) == layer0,
            spans_one_layer(lay@, succ@, pred@),
            chains@.len() == i,
            forall|j: int|
                0 <= j < i ==> chain_ok(layer0, lay@, #[trigger] edges@[j], chains@[j]@)
                    && chain_linked(layer0, succ@, pred@, edges@[j], chains@[j]@),
            lay@.len() == n + virtuals_before(layer0, edges@, i as int),
            forall|j: int| 0 <= j < i ==> (#[trigger] chains@[j])@ == edge_chain(layer0, edges@, j),
            forall|x: int|
                0 <= x < lay@.len() ==> (#[trigger] succ@[x])@ == succ_upto(layer0, edges@, i as int, x),
            forall|y: int|
                0 <= y < lay@.len() ==> (#[trigger] pred@[y])@ == pred_upto(layer0, edges@, i as int, y),
        decreases m - i,
    {
        let (u, v) = edges[i];
        let ghost l1 = lay@;
        let ghost s1 = succ@;
        let ghost p1 = pred@;
        if u == v {
            chains.push(vec![u, v]);
            proof {
                assert(chains@[i as int]@ =~= seq![u, v]);
                assert(n * (i + 1) <= n * (i + 2)) by (nonlinear_arith);
                assert(virtuals_before(layer0, edges@, i + 1) == virtuals_before(layer0, edges@, i as int));
                assert forall|x: int| 0 <= x < lay@.len() implies (#[trigger] succ@[x])@ == succ_upto(
                    layer0,
                    edges@,
                    i + 1,
                    x,
                ) by {
                    assert(succ_upto(layer0, edges@, i + 1, x) =~= succ_upto(layer0, edges@, i as int, x));
                }
                assert forall|y: int| 0 <= y < lay@.len() implies (#[trigger] pred@[y])@ == pred_upto(
                    layer0,
                    edges@,
                    i + 1,
                    y,
                ) by {
                    assert(pred_upto(layer0, edges@, i + 1, y) =~= pred_upto(layer0, edges@, i as int, y));
                }
            }
        } else {
            proof {
                assert(lay@[u as int] == lay@.subrange(0, n as int)[u as int]);
                assert(lay@[v as int] == lay@.subrange(0, n as int)[v as int]);
                assert(n * (i + 1) + n <= n * (m + 1)) by (nonlinear_arith)
                    requires
                        i < m,
                ;
            }
            let ghost c1 = chains@;
            let oriented = split_proper_edge(&mut lay, &mut succ, &mut pred, edges, i, Ghost(layer0));
            chains.push(oriented);
            proof {
                assert(chains@ == c1.push(chains@[i as int]));
                assert(lay@.subrange(0, n as int) =~= layer0) by {
                    assert forall|x: int| 0 <= x < n implies lay@[x] == layer0[x] by {
                        assert(lay@.subrange(0, l1.len() as int)[x] == l1[x]);
                        assert(l1.subrange(0, n as int)[x] == layer0[x]);
                    }
                }
                assert(n * (i + 1) + n == n * (i + 2)) by (nonlinear_arith);
                assert forall|x: int| 0 <= x < lay@.len() implies #[trigger] lay@[x] < n by {
                    if x < l1.len() {
                        assert(lay@.subrange(0, l1.len() as int)[x] == l1[x]);
                    }
                }
                assert forall|j: int| 0 <= j < i + 1 implies chain_ok(
                    layer0,
                    lay@,
                    #[trigger] edges@[j],
                    chains@[j]@,
                ) && chain_linked(layer0, succ@, pred@, edges@[j], chains@[j]@) by {
                    if j < i {
                        assert(chains@[j] == c1[j]);
                        lemma_chain_persists(layer0, l1, lay@, s1, p1, succ@, pred@, edges@[j], c1[j]@);
                    }
                }
                assert forall|j: int| 0 <= j < i + 1 implies (#[trigger] chains@[j])@ == edge_chain(layer0, edges@, j) by {
                    if j < i {
                        assert(chains@[j] == c1[j]);
                    }
                }
            }
        }
        i += 1;
    }
    let total = lay.len();
    let mut max_layer: usize = 0;
    let mut w: usize = 0;
    while w < total
        invariant
            w <= total,
            total == lay@.len(),
            forall|x: int| 0 <= x < w ==> #[trigger] lay@[x] <= max_layer,
            w > 0 ==> exists|x: int| 0 <= x < w && lay@[x] == max_layer,
            w == 0 ==> max_layer == 0,
            n * (m + 1) <= usize::MAX,
            forall|x: int| 0 <= x < total ==> #[trigger] lay@[x] < n,
        decreases total - w,
    {
        if lay[w] > max_layer || w == 0 {
            max_layer = lay[w];
        }
        w += 1;
    }
    proof {
        if total > 0 {
            let x = choose|x: int| 0 <= x < total && lay@[x] == max_layer;
            assert(lay@[x] < n);
        }
    }
    let mut layers: Vec<Vec<usize>> = Vec::new();
    let mut l: usize = 0;
    while l <= max_layer
        invariant
            l <= max_layer + 1,
            max_layer < usize::MAX,
            layers@.len() == l,
            forall|x: int| 0 <= x < l ==> (#[trigger] layers@[x])@.len() == 0,
        decreases max_layer + 1 - l,
    {
        layers.push(Vec::new());
        l += 1;
    }
    let mut w: usize = 0;
    while w < total
        invariant
            w <= total,
            total == lay@.len(),
            layers@.len() == max_layer + 1,
            forall|x: int| 0 <= x < total ==> #[trigger] lay@[x] <= max_layer,
            forall|l: int, k: int|
                0 <= l < layers@.len() && 0 <= k < layers@[l]@.len() ==> #[trigger] layers@[l]@[k]
                    < w && lay@[layers@[l]@[k] as int] == l,
            forall|l: int, j: int, k: int|
                0 <= l < layers@.len() && 0 <= j < k < layers@[l]@.len() ==> #[trigger] layers@[l]@[j]
                    < #[trigger] layers@[l]@[k],
            forall|x: int| 0 <= x < w ==> layers@[lay@[x] as int]@.contains(x as usize),
        decreases total - w,
    {
        let ghost b = layers@;
        let lw = lay[w];
        layers[lw].push(w);
        proof {
            lemma_push_grows(b, layers@, lw as int, w);
            assert forall|x: int| 0 <= x < w + 1 implies layers@[lay@[x] as int]@.contains(x as usize) by {
                if x < w {
                    lemma_grow_keeps(b, layers@, lay@[x] as int, x as usize);
                }
            }
            assert forall|l: int, j: int, k: int|
                0 <= l < layers@.len() && 0 <= j < k < layers@[l]@.len() implies #[trigger] layers@[l]@[j]
                    < #[trigger] layers@[l]@[k] by {
                if l == lw && k == b[l]@.len() {
                    assert(layers@[l]@[j] == b[l]@[j]);
                } else {
                    assert(layers@[l]@[j] == b[l]@[j]);
                    assert(layers@[l]@[k] == b[l]@[k]);
                }
            }
            assert forall|l: int, k: int|
                0 <= l < layers@.len() && 0 <= k < layers@[l]@.len() implies #[trigger] layers@[l]@[k]
                    < w + 1 && lay@[layers@[l]@[k] as int] == l by {
                if !(l == lw && k == b[l]@.len()) {
                    assert(layers@[l]@[k] == b[l]@[k]);
                }
            }
        }
        w += 1;
    }
    Layering { succ, pred, layer: lay, real_count: n, edge_chains: chains, layers }
}

/// Phases one to three of the layered layout for `n` nodes: cycle breaking,
/// longest-path layering, virtual-node insertion and bucketing.
pub fn build_layering(n: usize, edges: &Vec<(usize, usize)>) -> (lg: Layering)
    requires
        edges_in_range(n as nat, edges@),
        n * (edges@.len() + 1) <= usize::MAX,
    ensures
        lg.real_count == n,
        lg.layer@.len() >= n,
        acyclic_orientation(n as nat, edges@, dfs_orientation(n as nat, edges@)),
        longest_path_layering(
            n as nat,
            edges@,
            dfs_orientation(n as nat, edges@),
            lg.layer@.subrange(0, n as int),
        ),
        spans_one_layer(lg.layer@, lg.succ@, lg.pred@),
        lg.edge_chains@.len() == edges@.len(),
        forall|i: int|
            0 <= i < edges@.len() ==> chain_ok(
                lg.layer@.subrange(0, n as int),
                lg.layer@,
                #[trigger] edges@[i],
                lg.edge_chains@[i]@,
            ) && chain_linked(
                lg.layer@.subrange(0, n as int),
                lg.succ@,
                lg.pred@,
                edges@[i],
                lg.edge_chains@[i]@,
            ),
        buckets_ok(lg.layer@, lg.layers@),
        lg.layer@.len() == n + virtuals_before(
            lg.layer@.subrange(0, n as int),
            edges@,
            edges@.len() as int,
        ),
        forall|i: int|
            0 <= i < edges@.len() ==> (#[trigger] lg.edge_chains@[i])@ == edge_chain(
                lg.layer@.subrange(0, n as int),
                edges@,
                i,
            ),
        forall|x: int|
            0 <= x < lg.layer@.len() ==> (#[trigger] lg.succ@[x])@ == succ_upto(
                lg.layer@.subrange(0, n as int),
                edges@,
                edges@.len() as int,
                x,
            ),
        forall|y: int|
            0 <= y < lg.layer@.len() ==> (#[trigger] lg.pred@[y])@ == pred_upto(
                lg.layer@.subrange(0, n as int),
                edges@,
                edges@.len() as int,
                y,
            ),
{
    let flipped = break_cycles(n, edges);
    let layer = assign_layers(n, edges, &flipped);
    let ghost layer0 = layer@;
    proof {
        assert forall|i: int|
            0 <= i < edges@.len() && !is_loop(#[trigger] edges@[i]) implies layer@[edges@[i].0 as int]
            != layer@[edges@[i].1 as int] by {
            assert(layer@[head(edges@[i], flipped@[i])] >= layer@[tail(edges@[i], flipped@[i])] + 1);
        }
    }
    let lg = insert_virtual_nodes(layer, edges);
    proof {
        assert(lg.layer@.subrange(0, n as int) == layer0);
    }
    lg
}

/// The last slot of `s` holding `v`, or -1.
pub open spec fn last_slot(s: Seq<usize>, v: usize) -> int
    decreases s.len(),
{
    if s.len() == 0 {
        -1
    } else if s.last() == v {
        s.len() - 1
    } else {
        last_slot(s.drop_last(), v)
    }
}

/// The slot of `v` in the last layer that lists it, or 0 when none does.
pub open spec fn slot_in_layers(layers: Seq<Vec<usize>>, v: usize) -> int
    decreases layers.len(),
{
    if layers.len() == 0 {
        0
    } else if last_slot(layers.last()@, v) >= 0 {
        last_slot(layers.last()@, v)
    } else {
        slot_in_layers(layers.drop_last(), v)
    }
}

/// Each node's slot within its layer; a node listed twice keeps the slot it
/// was listed at last, and a node listed nowhere gets 0.
pub fn positions(layers: &Vec<Vec<usize>>, n: usize) -> (pos: Vec<usize>)
    requires
        forall|l: int, i: int|
            0 <= l < layers@.len() && 0 <= i < layers@[l]@.len() ==> #[trigger] layers@[l]@[i] < n,
    ensures
        pos@.len() == n,
        forall|v: int| 0 <= v < n ==> #[trigger] pos@[v] == slot_in_layers(layers@, v as usize),
{
    let mut pos: Vec<usize> = vec![0usize; n];
    let mut l: usize = 0;
    while l < layers.len()
        invariant
            l <= layers@.len(),
            pos@.len() == n,
            forall|l1: int, i1: int|
                0 <= l1 < layers@.len() && 0 <= i1 < layers@[l1]@.len() ==> #[trigger] layers@[l1]@[i1]
                    < n,
            forall|v: int|
                0 <= v < n ==> #[trigger] pos@[v] == slot_in_layers(layers@.take(l as int), v as usize),
        decreases layers@.len() - l,
    {
        let layer = &layers[l];
        let mut i: usize = 0;
        while i < layer.len()
            invariant
                l < layers@.len(),
                *layer == layers@[l as int],
                i <= layer@.len(),
                pos@.len() == n,
                forall|i1: int| 0 <= i1 < layer@.len() ==> #[trigger] layer@[i1] < n,
                forall|v: int|
                    0 <= v < n ==> #[trigger] pos@[v] == if last_slot(layer@.take(i as int), v as usize)
                        >= 0 {
                        last_slot(layer@.take(i as int), v as usize)
                    } else {
                        slot_in_layers(layers@.take(l as int), v as usize)
                    },
            decreases layer@.len() - i,
        {
            let x = layer[i];
            pos[x] = i;
            proof {
                assert(layer@.take(i + 1).drop_last() =~= layer@.take(i as int));
            }
            i += 1;
        }
        proof {
            assert(layers@.take(l + 1).drop_last() =~= layers@.take(l as int));
            assert(layer@.take(layer@.len() as int) =~= layer@);
        }
        l += 1;
    }
    proof {
        assert(layers@.take(layers@.len() as int) =~= layers@);
    }
    pos
}

} // verus!
