use metaballs::raster::{bresenham, CONTOUR};
use metaballs::Point;

/// The pixels of a `width` cells wide buffer that hold the contour colour,
/// as (column, row), row by row. Panics on any other colour but 0.
fn lit(buffer: &[u32], width: usize) -> Vec<(usize, usize)> {
    let mut pixels = Vec::new();
    for (index, &cell) in buffer.iter().enumerate() {
        if cell == CONTOUR {
            pixels.push((index % width, index / width));
        } else {
            assert_eq!(cell, 0, "cell {} holds a colour that nobody drew", index);
        }
    }
    pixels
}

fn drawn(p1: (i32, i32), p2: (i32, i32), width: u32, height: u32) -> Vec<(usize, usize)> {
    let mut buffer = vec![0u32; (width * height) as usize];
    bresenham(
        &mut buffer,
        &Point { x: p1.0, y: p1.1 },
        &Point { x: p2.0, y: p2.1 },
        width,
    );
    lit(&buffer, width as usize)
}

#[test]
fn contour_colour_is_green() {
    assert_eq!(CONTOUR, 255u32 << 8);
}

#[test]
fn horizontal_segment_touches_its_pixels_and_no_others() {
    let pixels = drawn((2, 5), (8, 5), 10, 10);
    assert_eq!(
        pixels,
        vec![(2, 5), (3, 5), (4, 5), (5, 5), (6, 5), (7, 5), (8, 5)]
    );
}

#[test]
fn horizontal_segment_drawn_backwards_is_the_same() {
    assert_eq!(drawn((8, 5), (2, 5), 10, 10), drawn((2, 5), (8, 5), 10, 10));
}

#[test]
fn zero_length_segment_is_one_pixel() {
    assert_eq!(drawn((4, 7), (4, 7), 10, 10), vec![(4, 7)]);
}

#[test]
fn vertical_segment() {
    assert_eq!(
        drawn((3, 1), (3, 4), 10, 10),
        vec![(3, 1), (3, 2), (3, 3), (3, 4)]
    );
    assert_eq!(drawn((3, 4), (3, 1), 10, 10), drawn((3, 1), (3, 4), 10, 10));
}

#[test]
fn diagonal_segment_counts_as_steep() {
    assert_eq!(
        drawn((0, 0), (3, 3), 10, 10),
        vec![(0, 0), (1, 1), (2, 2), (3, 3)]
    );
    assert_eq!(
        drawn((3, 0), (0, 3), 10, 10),
        vec![(3, 0), (2, 1), (1, 2), (0, 3)]
    );
}

#[test]
fn shallow_segment_rounds_halves_down() {
    // after i steps the row is the integer nearest to i * 2 / 4
    assert_eq!(
        drawn((0, 0), (4, 2), 10, 10),
        vec![(0, 0), (1, 0), (2, 1), (3, 1), (4, 2)]
    );
}

#[test]
fn shallow_segment_that_rises() {
    // walked from its left end (1, 6) up to (6, 4): after i steps it has
    // risen by the integer nearest to i * 2 / 5
    assert_eq!(
        drawn((6, 4), (1, 6), 10, 10),
        vec![(5, 4), (6, 4), (3, 5), (4, 5), (1, 6), (2, 6)]
    );
}

#[test]
fn steep_segment_that_leans_left() {
    // walked from its upper end (5, 1) down to (3, 6)
    assert_eq!(
        drawn((3, 6), (5, 1), 10, 10),
        vec![(5, 1), (5, 2), (4, 3), (4, 4), (3, 5), (3, 6)]
    );
}

#[test]
fn segment_reaches_both_ends() {
    let cases = [
        ((0, 0), (9, 4)),
        ((9, 0), (0, 7)),
        ((2, 9), (7, 0)),
        ((1, 1), (8, 2)),
        ((5, 0), (4, 9)),
    ];
    for (p1, p2) in cases {
        let pixels = drawn(p1, p2, 10, 10);
        assert!(pixels.contains(&(p1.0 as usize, p1.1 as usize)));
        assert!(pixels.contains(&(p2.0 as usize, p2.1 as usize)));
        let steps = (p2.0 - p1.0).abs().max((p2.1 - p1.1).abs()) as usize;
        assert_eq!(pixels.len(), steps + 1);
    }
}

#[test]
fn pixels_before_the_buffer_are_dropped() {
    // rows -2 and -1 have negative indices
    assert_eq!(drawn((1, -2), (1, 2), 4, 4), vec![(1, 0), (1, 1), (1, 2)]);
}

#[test]
fn pixels_behind_the_buffer_are_dropped() {
    assert_eq!(drawn((2, 2), (2, 9), 4, 4), vec![(2, 2), (2, 3)]);
}

#[test]
fn segment_far_outside_draws_nothing() {
    assert_eq!(drawn((100, 100), (200, 150), 4, 4), vec![]);
    assert_eq!(drawn((-200, -150), (-100, -100), 4, 4), vec![]);
}

#[test]
fn only_the_index_decides_what_is_dropped() {
    // column 5 of row 0 in a buffer 4 wide is the cell of column 1 of row 1
    assert_eq!(drawn((3, 0), (5, 0), 4, 4), vec![(3, 0), (0, 1), (1, 1)]);
}

#[test]
fn empty_buffer_stays_empty() {
    let mut buffer: Vec<u32> = Vec::new();
    bresenham(
        &mut buffer,
        &Point { x: 0, y: 0 },
        &Point { x: 5, y: 3 },
        10,
    );
    assert!(buffer.is_empty());
}

#[test]
fn width_zero_puts_every_row_on_the_first() {
    let mut buffer = vec![0u32; 6];
    bresenham(
        &mut buffer,
        &Point { x: 1, y: 0 },
        &Point { x: 3, y: 1 },
        0,
    );
    assert_eq!(buffer, vec![0, CONTOUR, CONTOUR, CONTOUR, 0, 0]);
}

#[test]
fn drawing_keeps_what_other_cells_hold() {
    let mut buffer = vec![7u32; 9];
    bresenham(
        &mut buffer,
        &Point { x: 0, y: 1 },
        &Point { x: 2, y: 1 },
        3,
    );
    assert_eq!(
        buffer,
        vec![7, 7, 7, CONTOUR, CONTOUR, CONTOUR, 7, 7, 7]
    );
}

#[test]
fn ends_at_the_limits_of_the_coordinates() {
    // a single pixel at each corner of the coordinate range: none is in the buffer
    for &(x, y) in &[
        (i32::MIN, i32::MIN),
        (i32::MAX, i32::MIN),
        (i32::MIN, i32::MAX),
        (i32::MAX, i32::MAX),
    ] {
        assert_eq!(drawn((x, y), (x, y), 3, 3), vec![]);
    }
}
