use rift::ipc::{Direction, LayoutKind, Rect, WindowGeometry, WindowId};
use rift::layout::{arrange, neighbor, split_lengths, three_column, LayoutParams};

const AREA: Rect = Rect { x: 0, y: 0, width: 1000, height: 1000 };

fn ids(n: usize) -> Vec<WindowId> {
    (0..n).map(|i| WindowId::new(&format!("w{i}"))).collect()
}

fn params() -> LayoutParams {
    // Zero gaps keep the arithmetic exact and assertions readable.
    LayoutParams { master_ratio: 600_000, master_count: 1, gaps_inner: 0, gaps_outer: 0 }
}

fn disjoint(a: Rect, b: Rect) -> bool {
    let ax2 = a.x + a.width;
    let ay2 = a.y + a.height;
    let bx2 = b.x + b.width;
    let by2 = b.y + b.height;
    ax2 <= b.x || bx2 <= a.x || ay2 <= b.y || by2 <= a.y
}

/// Floating imposes no geometry at all.
#[test]
fn floating_emits_nothing() {
    let g = arrange(LayoutKind::Floating, &ids(3), AREA, &params());
    assert!(g.is_empty());
}

/// Monocle stacks every window over the full area.
#[test]
fn monocle_fills_area_for_each() {
    let g = arrange(LayoutKind::Monocle, &ids(3), AREA, &params());
    assert_eq!(g.len(), 3);
    for wg in g {
        assert_eq!(wg.rect, AREA);
    }
}

/// A lone window fills the whole area regardless of layout.
#[test]
fn single_window_fills_area() {
    for kind in [LayoutKind::Tile, LayoutKind::Columns, LayoutKind::Spiral, LayoutKind::ThreeColumn] {
        let g = arrange(kind, &ids(1), AREA, &params());
        assert_eq!(g.len(), 1, "{kind:?} should place one window");
        assert_eq!(g[0].rect, AREA, "{kind:?} single window should fill area");
    }
}

/// Tile: master takes the ratio share on the left, the rest stack on the right.
#[test]
fn tile_master_stack_split() {
    let g = arrange(LayoutKind::Tile, &ids(3), AREA, &params());
    assert_eq!(g[0].rect, Rect { x: 0, y: 0, width: 600, height: 1000 });
    assert_eq!(g[1].rect, Rect { x: 600, y: 0, width: 400, height: 500 });
    assert_eq!(g[2].rect, Rect { x: 600, y: 500, width: 400, height: 500 });
}

/// Columns: equal-width side-by-side columns covering the area.
#[test]
fn columns_are_equal_width() {
    let g = arrange(LayoutKind::Columns, &ids(4), AREA, &params());
    assert_eq!(g.len(), 4);
    for (i, wg) in g.iter().enumerate() {
        assert_eq!(wg.rect.width, 250);
        assert_eq!(wg.rect.height, 1000);
        assert_eq!(wg.rect.x, 250 * i as i32);
    }
}

/// Tiles never overlap and stay within the area (gaps on, multiple windows).
#[test]
fn tile_is_disjoint_and_bounded() {
    let p = LayoutParams { gaps_inner: 8, gaps_outer: 12, ..params() };
    let g = arrange(LayoutKind::Tile, &ids(4), AREA, &p);
    for wg in &g {
        assert!(wg.rect.x >= AREA.x);
        assert!(wg.rect.y >= AREA.y);
        assert!(wg.rect.x + wg.rect.width <= AREA.x + AREA.width);
        assert!(wg.rect.y + wg.rect.height <= AREA.y + AREA.height);
    }
    for (i, a) in g.iter().enumerate() {
        for b in g.iter().skip(i + 1) {
            assert!(disjoint(a.rect, b.rect), "{:?} overlaps {:?}", a.rect, b.rect);
        }
    }
}

/// Three-column: masters centered, stack split onto both flanks.
#[test]
fn three_column_centers_master() {
    // 1 master + 4 stack -> left 2, right 2.
    let g = arrange(LayoutKind::ThreeColumn, &ids(5), AREA, &params());
    let master = g[0].rect;
    assert_eq!(master.width, 600);
    assert_eq!(master.x, 200);
    assert_eq!(g[1].rect.x, 0);
    assert_eq!(g[3].rect.x, 800);
}

/// Spiral: first window keeps the master share; tiles stay disjoint.
#[test]
fn spiral_first_is_master_and_disjoint() {
    let g = arrange(LayoutKind::Spiral, &ids(4), AREA, &params());
    assert_eq!(g[0].rect, Rect { x: 0, y: 0, width: 600, height: 1000 });
    for (i, a) in g.iter().enumerate() {
        for b in g.iter().skip(i + 1) {
            assert!(disjoint(a.rect, b.rect), "{:?} overlaps {:?}", a.rect, b.rect);
        }
    }
}

#[test]
fn default_params_match_the_documented_defaults() {
    let p = LayoutParams::default();
    assert_eq!(p.master_ratio, 600_000);
    assert_eq!(p.master_count, 1);
    assert_eq!(p.gaps_inner, 8);
    assert_eq!(p.gaps_outer, 12);
}

#[test]
fn outer_gap_insets_and_inner_gap_separates() {
    let p = LayoutParams { gaps_inner: 8, gaps_outer: 12, ..params() };
    let g = arrange(LayoutKind::Columns, &ids(2), AREA, &p);
    // inner area 976 wide; minus one gap leaves 968, split evenly.
    assert_eq!(g[0].rect, Rect { x: 12, y: 12, width: 484, height: 976 });
    assert_eq!(g[1].rect, Rect { x: 504, y: 12, width: 484, height: 976 });
}

#[test]
fn rounding_remainder_goes_to_leading_segments() {
    let area = Rect { x: 0, y: 0, width: 10, height: 10 };
    let g = arrange(LayoutKind::Columns, &ids(3), area, &params());
    let widths: Vec<i32> = g.iter().map(|w| w.rect.width).collect();
    assert_eq!(widths, vec![4, 3, 3]);
    assert_eq!(g[1].rect.x, 4);
    assert_eq!(g[2].rect.x, 7);
}

#[test]
fn gaps_wider_than_the_area_leave_empty_columns() {
    // Two gaps of 4 take 8 of 5 pixels: nothing is left to share.
    let p = LayoutParams { gaps_inner: 4, ..params() };
    let area = Rect { x: 0, y: 0, width: 5, height: 10 };
    let g = arrange(LayoutKind::Columns, &ids(3), area, &p);
    let widths: Vec<i32> = g.iter().map(|w| w.rect.width).collect();
    assert_eq!(widths, vec![0, 0, 0]);
    let xs: Vec<i32> = g.iter().map(|w| w.rect.x).collect();
    assert_eq!(xs, vec![0, 4, 8]);
}

#[test]
fn tiles_near_the_edge_of_the_coordinate_range_stay_disjoint_and_inside() {
    let p = LayoutParams { gaps_inner: 8, gaps_outer: 12, ..params() };
    let area = Rect { x: i32::MAX - 1920, y: i32::MAX - 1080, width: 1920, height: 1080 };
    for kind in [LayoutKind::Tile, LayoutKind::Columns, LayoutKind::ThreeColumn, LayoutKind::Spiral] {
        let g = arrange(kind, &ids(5), area, &p);
        assert_eq!(g.len(), 5);
        for (i, a) in g.iter().enumerate() {
            assert!(a.rect.x >= area.x + 12 && a.rect.y >= area.y + 12);
            assert!(a.rect.x as i64 + a.rect.width as i64 <= i32::MAX as i64 - 12);
            assert!(a.rect.y as i64 + a.rect.height as i64 <= i32::MAX as i64 - 12);
            for b in g.iter().skip(i + 1) {
                assert!(disjoint(a.rect, b.rect));
            }
        }
    }
}

#[test]
fn ratio_share_rounds_half_up() {
    // 0.5 of 1001 = 500.5 rounds to 501.
    let p = LayoutParams { master_ratio: 500_000, ..params() };
    let area = Rect { x: 0, y: 0, width: 1001, height: 100 };
    let g = arrange(LayoutKind::Tile, &ids(2), area, &p);
    assert_eq!(g[0].rect.width, 501);
    assert_eq!(g[1].rect, Rect { x: 501, y: 0, width: 500, height: 100 });
}

#[test]
fn every_master_collapses_to_one_column() {
    let p = LayoutParams { master_count: 5, ..params() };
    let g = arrange(LayoutKind::Tile, &ids(2), AREA, &p);
    assert_eq!(g[0].rect, Rect { x: 0, y: 0, width: 1000, height: 500 });
    assert_eq!(g[1].rect, Rect { x: 0, y: 500, width: 1000, height: 500 });
}

#[test]
fn three_column_with_one_stack_falls_back_to_tile() {
    let g = arrange(LayoutKind::ThreeColumn, &ids(2), AREA, &params());
    let t = arrange(LayoutKind::Tile, &ids(2), AREA, &params());
    assert_eq!(g, t);
}

#[test]
fn arrange_pairs_windows_in_order() {
    let g = arrange(LayoutKind::Tile, &ids(3), AREA, &params());
    let got: Vec<WindowId> = g.into_iter().map(|w| w.id).collect();
    assert_eq!(got, ids(3));
}

fn wg(id: &str, x: i32, y: i32, w: i32, h: i32) -> WindowGeometry {
    WindowGeometry { id: WindowId::new(id), rect: Rect { x, y, width: w, height: h } }
}

/// Neighbor lookup resolves the spatially nearest window per direction.
#[test]
fn neighbor_resolves_by_direction() {
    // a (left) | b (right), with c directly below a.
    let geoms = vec![wg("a", 0, 0, 100, 100), wg("b", 200, 0, 100, 100), wg("c", 0, 200, 100, 100)];
    let a = WindowId::new("a");
    assert_eq!(neighbor(&geoms, &a, Direction::Right), Some(WindowId::new("b")));
    assert_eq!(neighbor(&geoms, &a, Direction::Down), Some(WindowId::new("c")));
    assert_eq!(neighbor(&geoms, &a, Direction::Up), None);
    assert_eq!(neighbor(&geoms, &a, Direction::Left), None);
    assert_eq!(neighbor(&geoms, &WindowId::new("b"), Direction::Left), Some(WindowId::new("a")));
}

/// Neighbors cross output boundaries because rects are global.
#[test]
fn neighbor_crosses_outputs() {
    let geoms = vec![wg("left", 0, 0, 1920, 1080), wg("right", 1920, 0, 1920, 1080)];
    assert_eq!(
        neighbor(&geoms, &WindowId::new("left"), Direction::Right),
        Some(WindowId::new("right"))
    );
}

/// A missing focus id yields no neighbor rather than panicking.
#[test]
fn neighbor_unknown_focus_is_none() {
    let geoms = vec![wg("a", 0, 0, 100, 100)];
    assert_eq!(neighbor(&geoms, &WindowId::new("ghost"), Direction::Right), None);
}

#[test]
fn neighbor_penalizes_perpendicular_drift() {
    // Both lie to the right; "near" is closer along x but far off-axis.
    let geoms = vec![
        wg("o", 0, 0, 100, 100),
        wg("near", 100, 300, 100, 100),
        wg("far", 300, 0, 100, 100),
    ];
    // near: along 100 + 2 * 300 = 700; far: along 300 + 0 = 300.
    assert_eq!(neighbor(&geoms, &WindowId::new("o"), Direction::Right), Some(WindowId::new("far")));
}

#[test]
fn neighbor_ties_go_to_the_first_candidate() {
    let geoms = vec![
        wg("o", 100, 100, 100, 100),
        wg("below", 100, 300, 100, 100),
        wg("above", 100, -100, 100, 100),
        wg("r1", 300, 100, 100, 100),
        wg("r2", 300, 100, 100, 100),
    ];
    assert_eq!(neighbor(&geoms, &WindowId::new("o"), Direction::Right), Some(WindowId::new("r1")));
}

#[test]
fn split_lengths_share_the_remainder_with_the_leading_segments() {
    assert_eq!(split_lengths(10, 3, 0), vec![4, 3, 3]);
    assert_eq!(split_lengths(5, 3, 4), vec![0, 0, 0]);
    assert_eq!(split_lengths(100, 0, 8), Vec::<i32>::new());
    assert_eq!(split_lengths(-7, 2, 0), vec![0, 0]);
    assert_eq!(split_lengths(23, 4, 1), vec![5, 5, 5, 5]);
}

#[test]
fn three_column_puts_the_odd_stack_window_on_the_left() {
    let p = LayoutParams { master_ratio: 500_000, ..params() };
    let area = Rect { x: 0, y: 0, width: 1000, height: 600 };
    let r = three_column(4, area, &p);
    // One master, three stacked: two on the left, one on the right.
    assert_eq!(r.len(), 4);
    assert_eq!(r[0], Rect { x: 250, y: 0, width: 500, height: 600 });
    assert_eq!(r[1], Rect { x: 0, y: 0, width: 250, height: 300 });
    assert_eq!(r[2], Rect { x: 0, y: 300, width: 250, height: 300 });
    assert_eq!(r[3], Rect { x: 750, y: 0, width: 250, height: 600 });
}
