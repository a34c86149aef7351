use drawille::palette::{Color, ColorPair, Pixel};

#[test]
fn pair_pixel_indexes_both_slots() {
    let p = Pixel::Pair(ColorPair(Color::Red, Color::Blue));
    assert_eq!(p.index(0), Color::Red);
    assert_eq!(p.index(1), Color::Blue);
}

#[test]
fn pair_of_equal_colors() {
    let p = Pixel::Pair(ColorPair(Color::White, Color::White));
    assert_eq!(p.index(0), p.index(1));
}
