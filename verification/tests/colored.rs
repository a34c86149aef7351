use drawille::{Canvas, PixelColor};

#[test]
fn set_colored_sets_the_dot() {
    let mut c = Canvas::new(10, 10);
    c.set_colored(3, 3, PixelColor::Red);
    assert!(c.get(3, 3));
    assert!(!c.get(2, 3));
}

#[test]
fn colored_cell_still_shows_its_glyph() {
    let mut c = Canvas::new(4, 4);
    c.set_colored(0, 0, PixelColor::Blue);
    let rows = c.rows();
    assert!(rows[0].contains('\u{2801}'));
}

#[test]
fn set_discards_color() {
    let mut plain = Canvas::new(4, 4);
    plain.set(0, 0);
    let mut was_colored = Canvas::new(4, 4);
    was_colored.set_colored(0, 0, PixelColor::Green);
    was_colored.set(0, 0);
    assert_eq!(was_colored.frame(), plain.frame());
}

#[test]
fn last_written_color_wins_and_keeps_dots() {
    let mut c = Canvas::new(4, 4);
    c.set_colored(0, 0, PixelColor::Red);
    c.set_colored(1, 0, PixelColor::TrueColor { r: 10, g: 20, b: 30 });
    assert!(c.get(0, 0));
    assert!(c.get(1, 0));
    let rows = c.rows();
    assert!(rows[0].contains('\u{2809}'));
}

#[test]
fn line_colored_draws_the_line() {
    let mut c = Canvas::new(20, 20);
    c.line_colored(0, 0, 9, 9, PixelColor::Magenta);
    for i in 0..=9 {
        assert!(c.get(i, i));
    }
}

#[test]
fn unset_keeps_the_color_of_remaining_dots() {
    let mut c = Canvas::new(4, 4);
    c.set_colored(0, 0, PixelColor::Cyan);
    c.set_colored(1, 0, PixelColor::Cyan);
    c.unset(0, 0);
    assert!(!c.get(0, 0));
    assert!(c.get(1, 0));
    let rows = c.rows();
    assert!(rows[0].contains('\u{2808}'));
}

#[test]
fn colored_stroke_draws_the_dots() {
    let mut c = Canvas::new(10, 10);
    c.stroke(true, Some(PixelColor::Yellow), 0, 0, 5, 5);
    for i in 0..=5 {
        assert!(c.get(i, i));
    }
}
