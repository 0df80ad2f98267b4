//! Uniform spatial grid over cell coordinates. Each item occupies an
//! inclusive block of cells of a row-major grid; a query collects the items
//! registered in a block of cells, each once, in the order a row-major scan
//! first meets them.
//!
//! Turning coordinates into cell blocks is left to the caller.

use vstd::prelude::*;

verus! {

/// An inclusive block of cells: columns `c0..=c1`, rows `r0..=r1`. A block
/// with `c0 > c1` or `r0 > r1` holds no cell.
#[derive(Clone, Copy, Debug, PartialEq, Eq)]
pub struct CellSpan {
    pub c0: usize,
    pub c1: usize,
    pub r0: usize,
    pub r1: usize,
}

/// Every bound of `s` names a column or row of a `cols` by `rows` grid.
pub open spec fn span_fits(s: CellSpan, cols: nat, rows: nat) -> bool {
    s.c0 < cols && s.c1 < cols && s.r0 < rows && s.r1 < rows
}

/// Block `s` holds the cell at column `col` and row `row`.
pub open spec fn covers(s: CellSpan, col: int, row: int) -> bool {
    s.c0 <= col <= s.c1 && s.r0 <= row <= s.r1
}

/// Block `s` holds cell `k` of a row-major grid with `cols` columns.
pub open spec fn covers_cell(s: CellSpan, cols: nat, k: int) -> bool {
    covers(s, k % (cols as int), k / (cols as int))
}

/// Two blocks share at least one cell.
pub open spec fn meets(a: CellSpan, b: CellSpan) -> bool {
    &&& a.c0 <= a.c1 && a.r0 <= a.r1
    &&& b.c0 <= b.c1 && b.r0 <= b.r1
    &&& a.c0 <= b.c1 && b.c0 <= a.c1
    &&& a.r0 <= b.r1 && b.r0 <= a.r1
}

/// The items among the first `n` whose block holds cell `k`, in index order.
pub open spec fn cell_members(spans: Seq<CellSpan>, cols: nat, k: int, n: int) -> Seq<u32>
    decreases n,
{
    if n <= 0 {
        seq![]
    } else {
        cell_members(spans, cols, k, n - 1) + if covers_cell(spans[n - 1], cols, k) {
            seq![(n - 1) as u32]
        } else {
            seq![]
        }
    }
}

/// The items listed in the cells before cell `k` that block `q` holds,
/// cell by cell in row-major order.
pub open spec fn scan(cells: Seq<Vec<u32>>, cols: nat, q: CellSpan, k: int) -> Seq<u32>
    decreases k,
{
    if k <= 0 {
        seq![]
    } else {
        scan(cells, cols, q, k - 1) + if covers_cell(q, cols, k - 1) {
            cells[k - 1]@
        } else {
            seq![]
        }
    }
}

/// The items of `s` in the order of their first occurrence, each once.
pub open spec fn first_seen(s: Seq<u32>) -> Seq<usize>
    decreases s.len(),
{
    if s.len() == 0 {
        seq![]
    } else {
        let d = first_seen(s.drop_last());
        if d.contains(s.last() as usize) {
            d
        } else {
            d.push(s.last() as usize)
        }
    }
}

/// Items registered per cell of a row-major grid.
pub struct CellGrid {
    pub cols: usize,
    pub rows: usize,
    /// The items of cell `row * cols + col`.
    pub cells: Vec<Vec<u32>>,
    /// How many items the grid was built from.
    pub count: usize,
}

impl CellGrid {
    /// One list per cell, and every listed item is one of the grid's items.
    pub open spec fn wf(&self) -> bool {
        &&& self.cols >= 1
        &&& self.rows >= 1
        &&& self.cells@.len() == self.cols * self.rows
        &&& forall|k: int, j: int|
            0 <= k < self.cells@.len() && 0 <= j < self.cells@[k]@.len() ==> (#[trigger] self.cells@[k]@[j])
                < self.count
    }
}

/// Cell `x` comes before cell `row * cols + col` in row-major order exactly
/// when it lies in an earlier row, or in that row left of `col`.
proof fn lemma_cell_order(cols: int, x: int, row: int, col: int)
    requires
        cols > 0,
        0 <= col <= cols,
        0 <= x,
        0 <= row,
    ensures
        0 <= x % cols < cols,
        0 <= x / cols,
        (x < row * cols + col) <==> (x / cols < row || (x / cols == row && x % cols < col)),
{
    let q = x / cols;
    let r = x % cols;
    vstd::arithmetic::div_mod::lemma_fundamental_div_mod(x, cols);
    vstd::arithmetic::div_mod::lemma_mod_bound(x, cols);
    assert(x == cols * q + r);
    assert(0 <= q) by (nonlinear_arith)
        requires
            x == cols * q + r,
            0 <= r < cols,
            0 <= x,
    ;
    assert((x < row * cols + col) <==> (q < row || (q == row && r < col))) by (nonlinear_arith)
        requires
            x == cols * q + r,
            0 <= r < cols,
            0 <= col <= cols,
            cols > 0,
    ;
}

/// Cell `row * cols + col` sits at column `col` of row `row`.
proof fn lemma_cell_at(cols: int, row: int, col: int)
    requires
        cols > 0,
        0 <= col < cols,
        0 <= row,
    ensures
        (row * cols + col) % cols == col,
        (row * cols + col) / cols == row,
{
    vstd::arithmetic::div_mod::lemma_fundamental_div_mod_converse(row * cols + col, cols, row, col);
}

/// Registers each item in every cell of its block: the grid with `cols`
/// columns and `rows` rows whose cell `k` lists, in index order, the items
/// whose block holds it.
pub fn build(cols: usize, rows: usize, spans: &Vec<CellSpan>) -> (g: CellGrid)
    requires
        cols >= 1,
        rows >= 1,
        cols * rows <= usize::MAX,
        spans@.len() <= u32::MAX,
        forall|i: int| 0 <= i < spans@.len() ==> span_fits(#[trigger] spans@[i], cols as nat, rows as nat),
    ensures
        g.wf(),
        g.cols == cols,
        g.rows == rows,
        g.count == spans@.len(),
        forall|k: int|
            0 <= k < cols * rows ==> (#[trigger] g.cells@[k])@ == cell_members(
                spans@,
                cols as nat,
                k,
                spans@.len() as int,
            ),
{
    let total = cols * rows;
    let mut cells: Vec<Vec<u32>> = Vec::new();
    let mut k: usize = 0;
    while k < total
        invariant
            k <= total,
            cells@.len() == k,
            forall|x: int| 0 <= x < k ==> (#[trigger] cells@[x])@ == Seq::<u32>::empty(),
        decreases total - k,
    {
        cells.push(Vec::new());
        k += 1;
    }
    let ghost cn = cols as nat;
    let mut i: usize = 0;
    while i < spans.len()
        invariant
            i <= spans@.len(),
            spans@.len() <= u32::MAX,
            cols >= 1,
            rows >= 1,
            total == cols * rows,
            cn == cols,
            cells@.len() == total,
            forall|i: int| 0 <= i < spans@.len() ==> span_fits(#[trigger] spans@[i], cols as nat, rows as nat),
            forall|x: int|
                0 <= x < total ==> (#[trigger] cells@[x])@ == cell_members(spans@, cn, x, i as int),
        decreases spans@.len() - i,
    {
        let s = spans[i];
        let ghost si = i as u32;
        let mut row = s.r0;
        proof {
            assert forall|x: int| 0 <= x < total implies (#[trigger] cells@[x])@ == cell_members(
                spans@,
                cn,
                x,
                i as int,
            ) + if covers_cell(s, cn, x) && x < row * cols + s.c0 {
                seq![si]
            } else {
                seq![]
            } by {
                lemma_cell_order(cols as int, x, row as int, s.c0 as int);
            }
        }
        while row <= s.r1
            invariant
                i < spans@.len(),
                spans@.len() <= u32::MAX,
                si == i as u32,
                s == spans@[i as int],
                span_fits(s, cols as nat, rows as nat),
                cols >= 1,
                rows >= 1,
                total == cols * rows,
                cn == cols,
                cells@.len() == total,
                s.r0 <= row,
                row <= s.r1 + 1 || row == s.r0,
                forall|x: int|
                    0 <= x < total ==> (#[trigger] cells@[x])@ == cell_members(spans@, cn, x, i as int)
                        + if covers_cell(s, cn, x) && x < row * cols + s.c0 {
                        seq![si]
                    } else {
                        seq![]
                    },
            decreases s.r1 + 1 - row,
        {
            let mut col = s.c0;
            while col <= s.c1
                invariant
                    i < spans@.len(),
                    spans@.len() <= u32::MAX,
                    si == i as u32,
                    s == spans@[i as int],
                    span_fits(s, cols as nat, rows as nat),
                    cols >= 1,
                    rows >= 1,
                    total == cols * rows,
                    cn == cols,
                    cells@.len() == total,
                    s.r0 <= row <= s.r1,
                    s.c0 <= col,
                    col <= s.c1 + 1 || col == s.c0,
                    forall|x: int|
                        0 <= x < total ==> (#[trigger] cells@[x])@ == cell_members(spans@, cn, x, i as int)
                            + if covers_cell(s, cn, x) && x < row * cols + col {
                            seq![si]
                        } else {
                            seq![]
                        },
                decreases s.c1 + 1 - col,
            {
                proof {
                    assert(row * cols + col < total) by (nonlinear_arith)
                        requires
                            row < rows,
                            col < cols,
                            total == cols * rows,
                    ;
                    lemma_cell_at(cols as int, row as int, col as int);
                }
                let idx = row * cols + col;
                let ghost before = cells@;
                cells[idx].push(i as u32);
                proof {
                    assert forall|x: int| 0 <= x < total implies (#[trigger] cells@[x])@ == cell_members(
                        spans@,
                        cn,
                        x,
                        i as int,
                    ) + if covers_cell(s, cn, x) && x < row * cols + (col + 1) {
                        seq![si]
                    } else {
                        seq![]
                    } by {
                        if x == idx {
                            assert(covers_cell(s, cn, x));
                        } else {
                            assert(cells@[x] == before[x]);
                        }
                    }
                }
                col += 1;
            }
            proof {
                assert forall|x: int| 0 <= x < total implies (#[trigger] cells@[x])@ == cell_members(
                    spans@,
                    cn,
                    x,
                    i as int,
                ) + if covers_cell(s, cn, x) && x < (row + 1) * cols + s.c0 {
                    seq![si]
                } else {
                    seq![]
                } by {
                    lemma_cell_order(cols as int, x, row as int, col as int);
                    lemma_cell_order(cols as int, x, row + 1, s.c0 as int);
                }
            }
            row += 1;
        }
        proof {
            assert forall|x: int| 0 <= x < total implies (#[trigger] cells@[x])@ == cell_members(
                spans@,
                cn,
                x,
                i + 1,
            ) by {
                lemma_cell_order(cols as int, x, row as int, s.c0 as int);
            }
        }
        i += 1;
    }
    proof {
        assert forall|k: int, j: int|
            0 <= k < cells@.len() && 0 <= j < cells@[k]@.len() implies (#[trigger] cells@[k]@[j])
            < spans@.len() by {
            lemma_members_below(spans@, cn, k, spans@.len() as int);
        }
    }
    CellGrid { cols, rows, cells, count: spans.len() }
}

/// Cells that block `q` does not hold add nothing to the scan.
proof fn lemma_scan_skip(cells: Seq<Vec<u32>>, cols: nat, q: CellSpan, k1: int, k2: int)
    requires
        0 <= k1 <= k2,
        forall|x: int| k1 <= x < k2 ==> !#[trigger] covers_cell(q, cols, x),
    ensures
        scan(cells, cols, q, k2) == scan(cells, cols, q, k1),
    decreases k2 - k1,
{
    if k2 > k1 {
        lemma_scan_skip(cells, cols, q, k1, k2 - 1);
        assert(!covers_cell(q, cols, k2 - 1));
        assert(scan(cells, cols, q, k2) =~= scan(cells, cols, q, k2 - 1));
    }
}

/// Scanning empty cells finds nothing.
proof fn lemma_scan_of_empty_cells(cells: Seq<Vec<u32>>, cols: nat, q: CellSpan, k: int)
    requires
        0 <= k <= cells.len(),
        forall|x: int| 0 <= x < cells.len() ==> (#[trigger] cells[x])@.len() == 0,
    ensures
        scan(cells, cols, q, k) == Seq::<u32>::empty(),
    decreases k,
{
    if k > 0 {
        lemma_scan_of_empty_cells(cells, cols, q, k - 1);
        assert(scan(cells, cols, q, k) =~= Seq::<u32>::empty());
    }
}

impl CellGrid {
    /// The items registered in the cells of block `q`, each once, in the
    /// order a row-major scan of the block first meets them.
    pub fn query(&self, q: CellSpan) -> (out: Vec<usize>)
        requires
            self.wf(),
            span_fits(q, self.cols as nat, self.rows as nat),
        ensures
            out@ == first_seen(scan(self.cells@, self.cols as nat, q, self.cells@.len() as int)),
    {
        let mut out: Vec<usize> = Vec::new();
        let cols = self.cols;
        let total = self.cells.len();
        let ghost cn = cols as nat;
        let ghost cells = self.cells@;
        if self.count == 0 {
            proof {
                assert forall|x: int| 0 <= x < cells.len() implies (#[trigger] cells[x])@.len() == 0 by {
                    if cells[x]@.len() > 0 {
                        assert(self.cells@[x]@[0] < self.count);
                    }
                }
                lemma_scan_of_empty_cells(cells, cn, q, cells.len() as int);
            }
            return out;
        }
        let mut seen: Vec<bool> = Vec::new();
        let mut v: usize = 0;
        while v < self.count
            invariant
                v <= self.count,
                seen@.len() == v,
                forall|w: int| 0 <= w < v ==> !(#[trigger] seen@[w]),
            decreases self.count - v,
        {
            seen.push(false);
            v += 1;
        }
        let mut row = q.r0;
        proof {
            assert forall|x: int| 0 <= x < row * cols + q.c0 implies !#[trigger] covers_cell(q, cn, x) by {
                lemma_cell_order(cols as int, x, row as int, q.c0 as int);
            }
            lemma_scan_skip(cells, cn, q, 0, row * cols + q.c0);
            assert(out@ =~= first_seen(Seq::<u32>::empty()));
        }
        while row <= q.r1
            invariant
                self.wf(),
                span_fits(q, self.cols as nat, self.rows as nat),
                cols == self.cols,
                cn == cols,
                cells == self.cells@,
                total == self.cells@.len(),
                q.r0 <= row,
                row <= q.r1 + 1 || row == q.r0,
                seen@.len() == self.count,
                forall|w: int| 0 <= w < self.count ==> #[trigger] seen@[w] == out@.contains(w as usize),
                out@ == first_seen(scan(cells, cn, q, row * cols + q.c0)),
            decreases q.r1 + 1 - row,
        {
            let mut col = q.c0;
            while col <= q.c1
                invariant
                    self.wf(),
                    span_fits(q, self.cols as nat, self.rows as nat),
                    cols == self.cols,
                    cn == cols,
                    cells == self.cells@,
                    total == self.cells@.len(),
                    q.r0 <= row <= q.r1,
                    q.c0 <= col,
                    col <= q.c1 + 1 || col == q.c0,
                    seen@.len() == self.count,
                    forall|w: int| 0 <= w < self.count ==> #[trigger] seen@[w] == out@.contains(w as usize),
                    out@ == first_seen(scan(cells, cn, q, row * cols + col)),
                decreases q.c1 + 1 - col,
            {
                proof {
                    assert(row * cols + col < total) by (nonlinear_arith)
                        requires
                            row < self.rows,
                            col < cols,
                            cols == self.cols,
                            total == self.cols * self.rows,
                    ;
                    lemma_cell_at(cols as int, row as int, col as int);
                }
                let idx = row * cols + col;
                let cell = &self.cells[idx];
                let ghost base = scan(cells, cn, q, idx as int);
                let mut j: usize = 0;
                proof {
                    assert(base + cell@.take(0) =~= base);
                }
                while j < cell.len()
                    invariant
                        self.wf(),
                        idx < self.cells@.len(),
                        *cell == self.cells@[idx as int],
                        j <= cell@.len(),
                        seen@.len() == self.count,
                        forall|w: int| 0 <= w < self.count ==> #[trigger] seen@[w] == out@.contains(w as usize),
                        out@ == first_seen(base + cell@.take(j as int)),
                    decreases cell@.len() - j,
                {
                    let ghost pre = base + cell@.take(j as int);
                    let w = cell[j] as usize;
                    proof {
                        assert(self.cells@[idx as int]@[j as int] < self.count);
                        let nxt = base + cell@.take(j + 1);
                        assert(nxt =~= pre.push(cell@[j as int]));
                        assert(nxt.drop_last() =~= pre);
                    }
                    let ghost o = out@;
                    let ghost sn = seen@;
                    if !seen[w] {
                        seen.set(w, true);
                        out.push(w);
                        proof {
                            assert forall|u: int| 0 <= u < self.count implies #[trigger] seen@[u]
                                == out@.contains(u as usize) by {
                                if u == w {
                                    assert(out@[o.len() as int] == w);
                                } else {
                                    assert(seen@[u] == sn[u]);
                                    if o.contains(u as usize) {
                                        let k = choose|k: int| 0 <= k < o.len() && o[k] == u as usize;
                                        assert(out@[k] == u as usize);
                                    }
                                    if out@.contains(u as usize) {
                                        let k = choose|k: int| 0 <= k < out@.len() && out@[k] == u as usize;
                                        assert(k < o.len());
                                        assert(o[k] == u as usize);
                                    }
                                }
                            }
                        }
                    }
                    j += 1;
                }
                proof {
                    assert(covers_cell(q, cn, idx as int));
                    assert(cell@.take(cell@.len() as int) =~= cell@);
                    assert(scan(cells, cn, q, idx + 1) == base + cell@);
                }
                col += 1;
            }
            proof {
                assert forall|x: int| row * cols + col <= x < (row + 1) * cols + q.c0 implies !#[trigger] covers_cell(q, cn, x) by {
                    lemma_cell_order(cols as int, x, row as int, col as int);
                    lemma_cell_order(cols as int, x, row + 1, q.c0 as int);
                }
                assert(row * cols + col <= (row + 1) * cols + q.c0) by (nonlinear_arith)
                    requires
                        col <= cols,
                ;
                lemma_scan_skip(cells, cn, q, row * cols + col, (row + 1) * cols + q.c0);
            }
            row += 1;
        }
        proof {
            let k_end = row * cols + q.c0;
            let total = total as int;
            assert(total == self.rows * cols) by (nonlinear_arith)
                requires
                    total == self.cols * self.rows,
                    cols == self.cols,
            ;
            if k_end <= total {
                assert forall|x: int| k_end <= x < total implies !#[trigger] covers_cell(q, cn, x) by {
                    lemma_cell_order(cols as int, x, row as int, q.c0 as int);
                }
                lemma_scan_skip(cells, cn, q, k_end, total);
            } else {
                assert forall|x: int| total <= x < k_end implies !#[trigger] covers_cell(q, cn, x) by {
                    lemma_cell_order(cols as int, x, self.rows as int, 0);
                }
                lemma_scan_skip(cells, cn, q, total, k_end);
            }
        }
        out
    }
}

/// Every member among the first `n` items is below `n`.
proof fn lemma_members_below(spans: Seq<CellSpan>, cols: nat, k: int, n: int)
    requires
        0 <= n <= u32::MAX,
    ensures
        forall|j: int|
            0 <= j < cell_members(spans, cols, k, n).len() ==> (#[trigger] cell_members(
                spans,
                cols,
                k,
                n,
            )[j]) < n,
    decreases n,
{
    if n > 0 {
        lemma_members_below(spans, cols, k, n - 1);
        let a = cell_members(spans, cols, k, n - 1);
        let c = cell_members(spans, cols, k, n);
        assert forall|j: int| 0 <= j < c.len() implies #[trigger] c[j] < n by {
            if j < a.len() {
                assert(c[j] == a[j]);
            }
        }
    }
}

/// `first_seen(s)` holds exactly the items of `s`, none twice.
proof fn lemma_first_seen(s: Seq<u32>)
    ensures
        forall|v: usize|
            first_seen(s).contains(v) <==> exists|j: int| 0 <= j < s.len() && #[trigger] s[j] as usize == v,
        first_seen(s).no_duplicates(),
    decreases s.len(),
{
    if s.len() > 0 {
        let t = s.drop_last();
        lemma_first_seen(t);
        let d = first_seen(t);
        let x = s.last() as usize;
        let e = d.push(x);
        assert forall|v: usize| first_seen(s).contains(v) implies exists|j: int|
            0 <= j < s.len() && #[trigger] s[j] as usize == v by {
            if d.contains(v) {
                let j = choose|j: int| 0 <= j < t.len() && #[trigger] t[j] as usize == v;
                assert(s[j] == t[j]);
            } else {
                let k = choose|k: int| 0 <= k < e.len() && e[k] == v;
                assert(k == d.len());
                assert(s[s.len() - 1] as usize == v);
            }
        }
        assert forall|v: usize| (exists|j: int| 0 <= j < s.len() && #[trigger] s[j] as usize == v) implies first_seen(
            s,
        ).contains(v) by {
            let j = choose|j: int| 0 <= j < s.len() && #[trigger] s[j] as usize == v;
            if j < s.len() - 1 {
                assert(t[j] == s[j]);
                assert(d.contains(v));
                if !d.contains(x) {
                    let k = choose|k: int| 0 <= k < d.len() && d[k] == v;
                    assert(e[k] == v);
                }
            } else {
                if !d.contains(x) {
                    assert(e[d.len() as int] == x);
                }
            }
        }
        if !d.contains(x) {
            assert forall|a: int, b: int| 0 <= a < e.len() && 0 <= b < e.len() && a != b implies e[a]
                != e[b] by {
                if a == d.len() {
                    assert(e[b] == d[b]);
                } else if b == d.len() {
                    assert(e[a] == d[a]);
                } else {
                    assert(e[a] == d[a]);
                    assert(e[b] == d[b]);
                }
            }
        }
    }
}

/// The scan up to cell `k` holds exactly the items of the cells before `k`
/// that block `q` holds.
proof fn lemma_scan_contains(cells: Seq<Vec<u32>>, cols: nat, q: CellSpan, k: int)
    requires
        0 <= k <= cells.len(),
    ensures
        forall|u: u32|
            scan(cells, cols, q, k).contains(u) <==> exists|x: int|
                0 <= x < k && covers_cell(q, cols, x) && #[trigger] cells[x]@.contains(u),
    decreases k,
{
    if k > 0 {
        lemma_scan_contains(cells, cols, q, k - 1);
        let a = scan(cells, cols, q, k - 1);
        let b = if covers_cell(q, cols, k - 1) {
            cells[k - 1]@
        } else {
            seq![]
        };
        let c = scan(cells, cols, q, k);
        assert(c == a + b);
        assert forall|u: u32| c.contains(u) implies exists|x: int|
            0 <= x < k && covers_cell(q, cols, x) && #[trigger] cells[x]@.contains(u) by {
            let i = choose|i: int| 0 <= i < c.len() && c[i] == u;
            if i < a.len() {
                assert(a[i] == u);
                assert(a.contains(u));
            } else {
                assert(b[i - a.len()] == u);
                assert(cells[k - 1]@.contains(u));
            }
        }
        assert forall|u: u32| (exists|x: int|
            0 <= x < k && covers_cell(q, cols, x) && #[trigger] cells[x]@.contains(u)) implies c.contains(
            u,
        ) by {
            let x = choose|x: int| 0 <= x < k && covers_cell(q, cols, x) && #[trigger] cells[x]@.contains(u);
            if x < k - 1 {
                assert(a.contains(u));
                let i = choose|i: int| 0 <= i < a.len() && a[i] == u;
                assert(c[i] == u);
            } else {
                let i = choose|i: int| 0 <= i < b.len() && b[i] == u;
                assert(c[a.len() + i] == u);
            }
        }
    }
}

/// Cell `x` lists item `u` exactly when `u` is one of the first `n` items
/// and its block holds `x`.
proof fn lemma_members_contains(spans: Seq<CellSpan>, cols: nat, x: int, n: int)
    requires
        0 <= n <= u32::MAX,
        n <= spans.len(),
    ensures
        forall|u: u32|
            #![trigger cell_members(spans, cols, x, n).contains(u)]
            #![trigger covers_cell(spans[u as int], cols, x)]
            cell_members(spans, cols, x, n).contains(u) <==> u < n && covers_cell(spans[u as int], cols, x),
    decreases n,
{
    if n > 0 {
        lemma_members_contains(spans, cols, x, n - 1);
        let a = cell_members(spans, cols, x, n - 1);
        let b = if covers_cell(spans[n - 1], cols, x) {
            seq![(n - 1) as u32]
        } else {
            seq![]
        };
        let c = cell_members(spans, cols, x, n);
        assert(c == a + b);
        assert forall|u: u32|
            #![trigger cell_members(spans, cols, x, n).contains(u)]
            #![trigger covers_cell(spans[u as int], cols, x)]
            cell_members(spans, cols, x, n).contains(u) <==> u < n && covers_cell(spans[u as int], cols, x) by {
            if c.contains(u) {
                let i = choose|i: int| 0 <= i < c.len() && c[i] == u;
                if i < a.len() {
                    assert(a[i] == u);
                    assert(a.contains(u));
                    assert(u < n - 1 && covers_cell(spans[u as int], cols, x));
                } else {
                    assert(b[i - a.len()] == u);
                    assert(u as int == n - 1);
                }
            }
            if u < n && covers_cell(spans[u as int], cols, x) {
                if u < n - 1 {
                    assert(a.contains(u));
                    let i = choose|i: int| 0 <= i < a.len() && a[i] == u;
                    assert(c[i] == u);
                } else {
                    assert(c[a.len() as int] == u);
                }
            }
        }
    } else {
        assert(cell_members(spans, cols, x, n) =~= Seq::<u32>::empty());
    }
}

/// Two blocks that fit the grid share one of its cells exactly when they
/// meet.
proof fn lemma_meet_cells(cols: int, rows: int, a: CellSpan, q: CellSpan)
    requires
        cols > 0,
        rows > 0,
        span_fits(a, cols as nat, rows as nat),
        span_fits(q, cols as nat, rows as nat),
    ensures
        (exists|x: int|
            0 <= x < cols * rows && covers_cell(q, cols as nat, x) && #[trigger] covers_cell(
                a,
                cols as nat,
                x,
            )) <==> meets(a, q),
{
    if meets(a, q) {
        let col: int = if a.c0 <= q.c0 {
            q.c0 as int
        } else {
            a.c0 as int
        };
        let row: int = if a.r0 <= q.r0 {
            q.r0 as int
        } else {
            a.r0 as int
        };
        lemma_cell_at(cols, row, col);
        let x = row * cols + col;
        assert(x < cols * rows) by (nonlinear_arith)
            requires
                x == row * cols + col,
                0 <= row < rows,
                0 <= col < cols,
        ;
        assert(covers_cell(a, cols as nat, x));
    }
    if exists|x: int|
        0 <= x < cols * rows && covers_cell(q, cols as nat, x) && #[trigger] covers_cell(a, cols as nat, x) {
        let x = choose|x: int|
            0 <= x < cols * rows && covers_cell(q, cols as nat, x) && #[trigger] covers_cell(
                a,
                cols as nat,
                x,
            );
        assert(covers_cell(q, cols as nat, x));
    }
}

/// A query on a grid built from `spans` lists exactly the items whose block
/// meets the queried block, and none of them twice.
pub proof fn law_query_finds_meeting_blocks(g: CellGrid, spans: Seq<CellSpan>, q: CellSpan)
    requires
        g.wf(),
        g.count == spans.len(),
        spans.len() <= u32::MAX,
        forall|i: int| 0 <= i < spans.len() ==> span_fits(#[trigger] spans[i], g.cols as nat, g.rows as nat),
        forall|k: int|
            0 <= k < g.cells@.len() ==> (#[trigger] g.cells@[k])@ == cell_members(
                spans,
                g.cols as nat,
                k,
                spans.len() as int,
            ),
        span_fits(q, g.cols as nat, g.rows as nat),
    ensures
        forall|v: usize|
            first_seen(scan(g.cells@, g.cols as nat, q, g.cells@.len() as int)).contains(v) <==> v
                < spans.len() && meets(spans[v as int], q),
        first_seen(scan(g.cells@, g.cols as nat, q, g.cells@.len() as int)).no_duplicates(),
{
    let total = g.cells@.len() as int;
    let cn = g.cols as nat;
    let n = spans.len() as int;
    let s = scan(g.cells@, cn, q, total);
    lemma_first_seen(s);
    lemma_scan_contains(g.cells@, cn, q, total);
    assert forall|v: usize| first_seen(s).contains(v) <==> v < spans.len() && meets(spans[v as int], q) by {
        if first_seen(s).contains(v) {
            let j = choose|j: int| 0 <= j < s.len() && #[trigger] s[j] as usize == v;
            let u = s[j];
            assert(s.contains(u));
            let x = choose|x: int| 0 <= x < total && covers_cell(q, cn, x) && #[trigger] g.cells@[x]@.contains(u);
            lemma_members_contains(spans, cn, x, n);
            assert(covers_cell(spans[u as int], cn, x));
            lemma_meet_cells(g.cols as int, g.rows as int, spans[u as int], q);
        }
        if v < spans.len() && meets(spans[v as int], q) {
            lemma_meet_cells(g.cols as int, g.rows as int, spans[v as int], q);
            let x = choose|x: int|
                0 <= x < g.cols * g.rows && covers_cell(q, cn, x) && #[trigger] covers_cell(
                    spans[v as int],
                    cn,
                    x,
                );
            let u = v as u32;
            lemma_members_contains(spans, cn, x, n);
            assert(covers_cell(spans[u as int], cn, x));
            assert(g.cells@[x]@.contains(u));
            assert(s.contains(u));
            let j = choose|j: int| 0 <= j < s.len() && s[j] == u;
            assert(s[j] as usize == v);
        }
    }
}

} // verus!
