use layra::router::grid::{build, CellSpan};
use layra::router::parallel::pair_ranks;

/// Cell blocks of `(x, y, width, height)` rects on a grid sized to their
/// bounds, the way the router maps its node rects to cells.
fn rect_spans(rects: &[(f32, f32, f32, f32)]) -> (usize, usize, f32, (f32, f32), Vec<CellSpan>) {
    let mut x0 = rects[0].0;
    let mut y0 = rects[0].1;
    let mut x1 = rects[0].0 + rects[0].2;
    let mut y1 = rects[0].1 + rects[0].3;
    for r in &rects[1..] {
        x0 = x0.min(r.0);
        y0 = y0.min(r.1);
        x1 = x1.max(r.0 + r.2);
        y1 = y1.max(r.1 + r.3);
    }
    let (bx, by, bw, bh) = (x0 - 1.0, y0 - 1.0, x1 - x0 + 2.0, y1 - y0 + 2.0);
    let avg = rects.iter().map(|r| (r.2 + r.3) / 2.0).sum::<f32>() / rects.len() as f32;
    let cell = (avg * 2.0).max(16.0);
    let cols = ((bw / cell).ceil() as usize).max(1);
    let rows = ((bh / cell).ceil() as usize).max(1);
    let spans = rects
        .iter()
        .map(|r| CellSpan {
            c0: (((r.0 - bx) / cell) as usize).min(cols - 1),
            c1: (((r.0 + r.2 - bx) / cell) as usize).min(cols - 1),
            r0: (((r.1 - by) / cell) as usize).min(rows - 1),
            r1: (((r.1 + r.3 - by) / cell) as usize).min(rows - 1),
        })
        .collect();
    (cols, rows, cell, (bx, by), spans)
}

fn region_span(region: (f32, f32, f32, f32), cols: usize, rows: usize, cell: f32, origin: (f32, f32)) -> CellSpan {
    CellSpan {
        c0: (((region.0 - origin.0) / cell).max(0.0) as usize).min(cols - 1),
        c1: (((region.0 + region.2 - origin.0) / cell).max(0.0) as usize).min(cols - 1),
        r0: (((region.1 - origin.1) / cell).max(0.0) as usize).min(rows - 1),
        r1: (((region.1 + region.3 - origin.1) / cell).max(0.0) as usize).min(rows - 1),
    }
}

#[test]
fn finds_only_local_rects() {
    let rects: Vec<(f32, f32, f32, f32)> = (0..100)
        .map(|i| ((i % 10) as f32 * 100.0, (i / 10) as f32 * 100.0, 50.0, 30.0))
        .collect();
    let (cols, rows, cell, origin, spans) = rect_spans(&rects);
    let grid = build(cols, rows, &spans);

    let out = grid.query(region_span((0.0, 0.0, 120.0, 120.0), cols, rows, cell, origin));
    assert!(out.contains(&0));
    assert!(!out.contains(&99), "far rect must be pruned");
    assert!(out.len() < 20, "query should be local, got {}", out.len());
}

#[test]
fn empty_grid_is_safe() {
    let grid = build(1, 1, &Vec::new());
    let out = grid.query(CellSpan { c0: 0, c1: 0, r0: 0, r1: 0 });
    assert!(out.is_empty());
}

fn three_blocks() -> Vec<CellSpan> {
    vec![
        CellSpan { c0: 0, c1: 1, r0: 0, r1: 1 },
        CellSpan { c0: 1, c1: 2, r0: 0, r1: 0 },
        CellSpan { c0: 2, c1: 2, r0: 1, r1: 1 },
    ]
}

#[test]
fn cells_list_their_items_in_index_order() {
    let grid = build(3, 2, &three_blocks());
    assert_eq!(grid.cells, vec![vec![0], vec![0, 1], vec![1], vec![0], vec![0], vec![2]]);
    assert_eq!(grid.count, 3);
}

#[test]
fn query_lists_each_item_once_in_scan_order() {
    let grid = build(3, 2, &three_blocks());
    assert_eq!(grid.query(CellSpan { c0: 0, c1: 2, r0: 0, r1: 1 }), vec![0, 1, 2]);
    assert_eq!(grid.query(CellSpan { c0: 2, c1: 2, r0: 0, r1: 1 }), vec![1, 2]);
    assert_eq!(grid.query(CellSpan { c0: 1, c1: 2, r0: 1, r1: 1 }), vec![0, 2]);
    assert_eq!(grid.query(CellSpan { c0: 0, c1: 0, r0: 1, r1: 1 }), vec![0]);
}

#[test]
fn query_finds_exactly_the_meeting_blocks() {
    let spans = three_blocks();
    let grid = build(3, 2, &spans);
    let q = CellSpan { c0: 1, c1: 1, r0: 1, r1: 1 };
    let out = grid.query(q);
    for (i, s) in spans.iter().enumerate() {
        let meets = s.c0 <= q.c1 && q.c0 <= s.c1 && s.r0 <= q.r1 && q.r0 <= s.r1;
        assert_eq!(out.contains(&i), meets, "item {i}");
    }
    assert_eq!(out, vec![0]);
}

#[test]
fn empty_block_is_registered_nowhere_and_finds_nothing() {
    let spans = vec![CellSpan { c0: 1, c1: 0, r0: 0, r1: 1 }, CellSpan { c0: 0, c1: 0, r0: 0, r1: 0 }];
    let grid = build(2, 2, &spans);
    assert_eq!(grid.cells, vec![vec![1], vec![], vec![], vec![]]);
    assert!(grid.query(CellSpan { c0: 1, c1: 0, r0: 0, r1: 1 }).is_empty());
}

#[test]
fn parallel_edges_are_ranked_within_their_pair() {
    // 0->1, 1->0, 0->2, 1->0 again, a self loop on 1, 0->1 once more.
    let edges = vec![(0, 1), (1, 0), (0, 2), (1, 0), (1, 1), (0, 1)];
    let counted: Vec<bool> = edges.iter().map(|&(a, b)| a != b).collect();
    assert_eq!(
        pair_ranks(&edges, &counted),
        vec![(0, 4), (1, 4), (0, 1), (2, 4), (0, 0), (3, 4)]
    );
}

#[test]
fn uncounted_edges_neither_rank_nor_size_a_group() {
    let edges = vec![(3, 4), (4, 3), (3, 4)];
    let counted = vec![true, false, true];
    assert_eq!(pair_ranks(&edges, &counted), vec![(0, 2), (1, 2), (1, 2)]);
}
