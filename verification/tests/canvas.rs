use drawille::Canvas;

#[test]
fn golden_fixture() {
    let mut canvas = Canvas::new(10, 10);
    canvas.set(5, 4);
    canvas.line(2, 2, 8, 8);
    assert_eq!(canvas.frame(), [" ⢄    ", "  ⠙⢄  ", "    ⠁ "].join("\n"));
}

#[test]
fn set_then_get() {
    let mut c = Canvas::new(10, 10);
    c.set(3, 3);
    assert!(c.get(3, 3));
    assert!(!c.get(2, 3));
    assert!(!c.get(3, 2));
}

#[test]
fn unset_then_get() {
    let mut c = Canvas::new(10, 10);
    c.set(3, 3);
    c.unset(3, 3);
    assert!(!c.get(3, 3));
}

#[test]
fn unset_keeps_other_dots() {
    let mut c = Canvas::new(10, 10);
    c.set(0, 0);
    c.set(1, 0);
    c.unset(0, 0);
    assert!(!c.get(0, 0));
    assert!(c.get(1, 0));
}

#[test]
fn grid_expands_far_beyond_dimensions() {
    let mut c = Canvas::new(4, 4);
    c.set(1000, 2000);
    assert!(c.get(1000, 2000));
    c.unset(1000, 2000);
    assert!(!c.get(1000, 2000));
}

#[test]
fn coordinates_wrap_at_the_cell_grid_limit() {
    let mut c = Canvas::new(4, 4);
    c.set(0x20000, 0);
    assert!(c.get(0, 0));
}

#[test]
fn extreme_coordinates_set_and_get() {
    let mut c = Canvas::new(0, 0);
    c.set(u32::MAX, u32::MAX);
    assert!(c.get(u32::MAX, u32::MAX));
    assert!(!c.get(u32::MAX - 2, u32::MAX));
}

#[test]
fn set_twice_equals_set_once() {
    let mut once = Canvas::new(10, 10);
    once.set(5, 5);
    let mut twice = Canvas::new(10, 10);
    twice.set(5, 5);
    twice.set(5, 5);
    assert_eq!(once.frame(), twice.frame());
    assert_eq!(once.get(5, 5), twice.get(5, 5));
}

#[test]
fn toggle_twice_restores() {
    let mut c = Canvas::new(10, 10);
    c.set(4, 4);
    c.toggle(4, 4);
    assert!(!c.get(4, 4));
    c.toggle(4, 4);
    assert!(c.get(4, 4));
    c.toggle(9, 9);
    assert!(c.get(9, 9));
    c.toggle(9, 9);
    assert!(!c.get(9, 9));
}

#[test]
fn clear_removes_dots_keeps_minimums() {
    let mut c = Canvas::new(10, 10);
    c.set(50, 50);
    assert!(c.get(50, 50));
    c.clear();
    assert!(!c.get(50, 50));
    assert_eq!(c.rows().len(), 3);
    for row in c.rows() {
        assert_eq!(row, "      ");
    }
}

#[test]
fn rows_len_tracks_max_touched_row() {
    let mut c = Canvas::new(10, 10);
    assert_eq!(c.rows().len(), 3);
    c.set(0, 20);
    assert_eq!(c.rows().len(), 6);
    c.unset(0, 47);
    assert_eq!(c.rows().len(), 12);
}

#[test]
fn row_width_tracks_max_touched_column() {
    let mut c = Canvas::new(10, 10);
    for row in c.rows() {
        assert_eq!(row.chars().count(), 6);
    }
    c.set(19, 0);
    for row in c.rows() {
        assert_eq!(row.chars().count(), 10);
    }
}

#[test]
fn blank_canvas_is_spaces() {
    let c = Canvas::new(4, 8);
    let rows = c.rows();
    assert_eq!(rows.len(), 3);
    for row in rows {
        assert_eq!(row, "   ");
    }
}

#[test]
fn set_char_overrides_cell() {
    let mut c = Canvas::new(4, 4);
    c.set(0, 0);
    c.set_char(0, 0, 'X');
    let rows = c.rows();
    assert_eq!(rows[0].chars().next().unwrap(), 'X');
    assert!(!c.get(0, 0));
}

#[test]
fn set_discards_char_override() {
    let mut c = Canvas::new(4, 4);
    c.set_char(0, 0, 'X');
    c.set(0, 0);
    let rows = c.rows();
    assert_eq!(rows[0].chars().next().unwrap(), '\u{2801}');
}

#[test]
fn unset_keeps_char_override() {
    let mut c = Canvas::new(4, 4);
    c.set_char(0, 0, 'X');
    c.unset(1, 0);
    let rows = c.rows();
    assert_eq!(rows[0].chars().next().unwrap(), 'X');
}

#[test]
fn text_writes_and_stops_at_max_width() {
    let mut c = Canvas::new(20, 4);
    c.text(0, 0, 3, "ABCD");
    let rows = c.rows();
    let chars: Vec<char> = rows[0].chars().collect();
    assert_eq!(chars[0], 'A');
    assert_eq!(chars[1], 'B');
    assert_eq!(chars[2], ' ');
    assert_eq!(chars[3], ' ');
}

#[test]
fn text_handles_non_ascii() {
    let mut c = Canvas::new(10, 4);
    c.text(0, 0, 100, "héλ");
    let chars: Vec<char> = c.rows()[0].chars().collect();
    assert_eq!(chars[0], 'h');
    assert_eq!(chars[1], 'é');
    assert_eq!(chars[2], 'λ');
}

#[test]
fn line_draws_both_endpoints() {
    let mut c = Canvas::new(20, 20);
    c.line(1, 1, 10, 4);
    assert!(c.get(1, 1));
    assert!(c.get(10, 4));
}

#[test]
fn vertical_and_horizontal_lines() {
    let mut c = Canvas::new(20, 20);
    c.line(3, 0, 3, 9);
    for y in 0..=9 {
        assert!(c.get(3, y));
    }
    c.line(0, 2, 9, 2);
    for x in 0..=9 {
        assert!(c.get(x, 2));
    }
}

#[test]
fn rectangle_draws_edges() {
    let mut c = Canvas::new(20, 20);
    c.rectangle(1, 1, 6, 5);
    for x in 1..=6 {
        assert!(c.get(x, 1));
        assert!(c.get(x, 5));
    }
    for y in 1..=5 {
        assert!(c.get(1, y));
        assert!(c.get(6, y));
    }
    assert!(!c.get(3, 3));
}

#[test]
fn ellipse_center_reaches_vertical_extremes() {
    let mut c = Canvas::new(40, 40);
    c.ellipse_center(10, 10, 5, 3);
    assert!(c.get(10, 13));
    assert!(c.get(10, 7));
    assert!(!c.get(10, 10));
}

#[test]
fn ellipse_points_mirror_across_both_axes() {
    let mut c = Canvas::new(64, 64);
    let (xm, ym) = (12u32, 12u32);
    c.ellipse_center(xm, ym, 6, 4);
    for x in 0..=24u32 {
        for y in 0..=24u32 {
            if c.get(x, y) {
                assert!(c.get(2 * xm - x, y));
                assert!(c.get(x, 2 * ym - y));
            }
        }
    }
}

#[test]
fn ellipse_near_origin_drops_negative_mirrors() {
    let mut c = Canvas::new(16, 16);
    c.ellipse_center(1, 1, 3, 3);
    let expected = [(0, 4), (1, 4), (2, 4), (3, 4), (4, 3), (5, 0), (5, 2)];
    for x in 0..16u32 {
        for y in 0..16u32 {
            assert_eq!(c.get(x, y), expected.contains(&(x, y)), "at ({x}, {y})");
        }
    }
}

#[test]
fn ellipse_box_matches_center_form() {
    let mut via_box = Canvas::new(40, 40);
    via_box.ellipse_box(4, 2, 16, 12);
    let mut via_center = Canvas::new(40, 40);
    via_center.ellipse_center(10, 7, 6, 5);
    assert_eq!(via_box.frame(), via_center.frame());
}

#[test]
fn ellipse_box_tolerates_either_corner_order() {
    let mut one = Canvas::new(40, 40);
    one.ellipse_box(4, 2, 16, 12);
    let mut other = Canvas::new(40, 40);
    other.ellipse_box(16, 12, 4, 2);
    assert_eq!(one.frame(), other.frame());
}

#[test]
fn degenerate_ellipse_is_center_point() {
    let mut c = Canvas::new(16, 16);
    c.ellipse_center(5, 5, 0, 0);
    assert!(c.get(5, 5));
    assert!(!c.get(4, 5));
    assert!(!c.get(6, 5));
}

#[test]
fn stroke_with_pen_up_changes_nothing() {
    let mut c = Canvas::new(10, 10);
    c.set(1, 1);
    let before = c.frame();
    c.stroke(false, None, 0, 0, 8, 8);
    assert_eq!(c.frame(), before);
    assert!(!c.get(8, 8));
}

#[test]
fn stroke_with_pen_down_draws_the_line() {
    let mut with_stroke = Canvas::new(10, 10);
    with_stroke.stroke(true, None, 2, 2, 8, 8);
    let mut with_line = Canvas::new(10, 10);
    with_line.line(2, 2, 8, 8);
    assert_eq!(with_stroke.frame(), with_line.frame());
}
