use wallgrid::grid::{compute_columns, layout, list_scroll_offset};
use wallgrid::text::truncate_name;

#[test]
fn columns_follow_width_policy() {
    assert_eq!(compute_columns(0), 1);
    assert_eq!(compute_columns(29), 1);
    assert_eq!(compute_columns(30), 1);
    assert_eq!(compute_columns(59), 1);
    assert_eq!(compute_columns(60), 2);
    assert_eq!(compute_columns(120), 4);
    assert_eq!(compute_columns(240), 8);
    assert_eq!(compute_columns(30000), 8);
}

#[test]
fn columns_are_maximal_for_min_cell_width() {
    // For every width, the returned count is the largest one (up to 8)
    // whose cells keep the minimum width.
    for w in 30u16..2000 {
        let c = compute_columns(w) as u16;
        assert!((1..=8).contains(&c));
        assert!(w / c >= 30);
        if c < 8 {
            assert!(w / (c + 1) < 30);
        }
    }
}

#[test]
fn scenario_120_by_40_with_17_items() {
    let g = layout(120, 40, 17, 0);
    assert_eq!(g.columns, 4);
    assert_eq!(g.cell_width, 30);
    assert_eq!(g.cell_height, 15);
    assert_eq!(g.total_rows, 5);
    assert_eq!(g.scroll_offset, 0);
    // 40 / 15 = 2 full rows plus one partial row of height 10.
    assert_eq!(g.visible.len(), 12);
    let first = g.visible[0];
    assert_eq!(first.pos, 0);
    assert_eq!(first.x, 0);
    assert_eq!(first.y, 0);
    assert_eq!(first.width, 29);
    assert_eq!(first.height, 14);
    let second = g.visible[1];
    assert_eq!(second.pos, 1);
    assert_eq!(second.x, 30);
    let partial = g.visible[8];
    assert_eq!(partial.pos, 8);
    assert_eq!(partial.y, 30);
    assert_eq!(partial.height, 9);
    assert_eq!(g.visible[11].pos, 11);
}

#[test]
fn zero_items_render_nothing() {
    let g = layout(120, 40, 0, 0);
    assert_eq!(g.total_rows, 0);
    assert!(g.visible.is_empty());
}

#[test]
fn degenerate_viewport_renders_nothing() {
    // Cell height zero: nothing for this frame.
    let g = layout(1, 40, 5, 0);
    assert_eq!(g.cell_height, 0);
    assert!(g.visible.is_empty());
    // Cell height one: every row is clipped below the render minimum.
    let g = layout(3, 40, 5, 0);
    assert_eq!(g.cell_height, 1);
    assert!(g.visible.is_empty());
}

#[test]
fn scroll_centers_the_selection() {
    // 100 items, 4 columns of width 30, 40 rows of height 15 visible: the
    // selected row sits half a window above the bottom of the window.
    let g = layout(120, 90, 100, 50);
    // selected_row = 12, visible_full_rows = 6, offset = 12 - 3 = 9.
    assert_eq!(g.scroll_offset, 9);
    // Near the start the grid is pinned at the top.
    let g = layout(120, 90, 100, 4);
    assert_eq!(g.scroll_offset, 0);
    // Near the end it is pinned at the bottom: 25 rows in all.
    let g = layout(120, 90, 100, 99);
    assert_eq!(g.scroll_offset, 19);
}

#[test]
fn every_visible_position_is_a_real_item() {
    for n in [1usize, 3, 7, 17, 40] {
        for sel in [0usize, n / 2, n - 1] {
            let g = layout(97, 33, n, sel);
            for cell in g.visible.iter() {
                assert!(cell.pos < n);
            }
        }
    }
}

#[test]
fn list_scroll_pins_and_centers() {
    assert_eq!(list_scroll_offset(5, 10, 3), 0);
    assert_eq!(list_scroll_offset(20, 10, 2), 0);
    assert_eq!(list_scroll_offset(20, 10, 10), 5);
    assert_eq!(list_scroll_offset(20, 10, 19), 10);
}

#[test]
fn truncate_keeps_short_names() {
    assert_eq!(truncate_name("short", 10), "short");
    assert_eq!(truncate_name("exact", 5), "exact");
}

#[test]
fn truncate_marks_long_names() {
    assert_eq!(truncate_name("averylongname", 8), "avery...");
    assert_eq!(truncate_name("abcdef", 3), "abc");
    assert_eq!(truncate_name("abcdef", 0), "");
}
