use metaballs::raster::{bresenham, CONTOUR};
use metaballs::square::{
    contour, Contour, Corners, RenderMode, Sample, Segment, Side, Sides, Square,
};
use metaballs::Point;

fn flags(tl: bool, tr: bool, bl: bool, br: bool) -> Corners<bool> {
    Corners { tl, tr, bl, br }
}

fn segment(from: Side, to: Side) -> Segment {
    Segment { from, to }
}

fn no_crossings() -> Sides<Option<u32>> {
    Sides {
        top: None,
        left: None,
        right: None,
        bottom: None,
    }
}

/// A sample of a cell of 4 pixels in which every side is crossed in the middle.
fn crossed_in_the_middle(inside: Corners<bool>) -> Sample {
    Sample {
        inside,
        crossings: Sides {
            top: Some(2),
            left: Some(2),
            right: Some(2),
            bottom: Some(2),
        },
    }
}

fn line(buffer: &mut Vec<u32>, p: (i32, i32), q: (i32, i32), width: u32) {
    bresenham(
        buffer,
        &Point { x: p.0, y: p.1 },
        &Point { x: q.0, y: q.1 },
        width,
    );
}

fn sides_of(c: &Contour) -> Vec<Side> {
    match c {
        Contour::Empty => vec![],
        Contour::Single(s) => vec![s.from, s.to],
        Contour::Double(s, t) => vec![s.from, s.to, t.from, t.to],
    }
}

#[test]
fn mask_has_one_bit_for_each_corner() {
    assert_eq!(flags(false, false, false, false).mask(), 0);
    assert_eq!(flags(true, false, false, false).mask(), 8);
    assert_eq!(flags(false, true, false, false).mask(), 4);
    assert_eq!(flags(false, false, true, false).mask(), 2);
    assert_eq!(flags(false, false, false, true).mask(), 1);
    assert_eq!(flags(true, true, true, true).mask(), 15);
    assert_eq!(flags(true, false, false, true).mask(), 9);
}

#[test]
fn uniform_cells_have_no_contour() {
    assert_eq!(contour(&flags(false, false, false, false)), Contour::Empty);
    assert_eq!(contour(&flags(true, true, true, true)), Contour::Empty);
}

#[test]
fn one_corner_inside_is_cut_off() {
    assert_eq!(
        contour(&flags(true, false, false, false)),
        Contour::Single(segment(Side::Top, Side::Left))
    );
    assert_eq!(
        contour(&flags(false, true, false, false)),
        Contour::Single(segment(Side::Top, Side::Right))
    );
    assert_eq!(
        contour(&flags(false, false, true, false)),
        Contour::Single(segment(Side::Left, Side::Bottom))
    );
    assert_eq!(
        contour(&flags(false, false, false, true)),
        Contour::Single(segment(Side::Right, Side::Bottom))
    );
}

#[test]
fn one_corner_outside_is_cut_off() {
    assert_eq!(
        contour(&flags(false, true, true, true)),
        Contour::Single(segment(Side::Top, Side::Left))
    );
    assert_eq!(
        contour(&flags(true, false, true, true)),
        Contour::Single(segment(Side::Top, Side::Right))
    );
    assert_eq!(
        contour(&flags(true, true, false, true)),
        Contour::Single(segment(Side::Left, Side::Bottom))
    );
    assert_eq!(
        contour(&flags(true, true, true, false)),
        Contour::Single(segment(Side::Right, Side::Bottom))
    );
}

#[test]
fn two_corners_on_one_side_are_parted_from_the_others() {
    let across = Contour::Single(segment(Side::Left, Side::Right));
    assert_eq!(contour(&flags(true, true, false, false)), across);
    assert_eq!(contour(&flags(false, false, true, true)), across);
    let down = Contour::Single(segment(Side::Top, Side::Bottom));
    assert_eq!(contour(&flags(true, false, true, false)), down);
    assert_eq!(contour(&flags(false, true, false, true)), down);
}

#[test]
fn saddle_has_two_segments() {
    assert_eq!(
        contour(&flags(true, false, false, true)),
        Contour::Double(
            segment(Side::Top, Side::Left),
            segment(Side::Right, Side::Bottom)
        )
    );
    assert_eq!(
        contour(&flags(false, true, true, false)),
        Contour::Double(
            segment(Side::Top, Side::Right),
            segment(Side::Left, Side::Bottom)
        )
    );
}

#[test]
fn contour_touches_each_crossed_side_once() {
    for mask in 0u8..16 {
        let inside = flags(mask & 8 != 0, mask & 4 != 0, mask & 2 != 0, mask & 1 != 0);
        assert_eq!(inside.mask(), mask);
        let used = sides_of(&contour(&inside));
        let expected = [
            (Side::Top, inside.tl != inside.tr),
            (Side::Left, inside.tl != inside.bl),
            (Side::Right, inside.tr != inside.br),
            (Side::Bottom, inside.bl != inside.br),
        ];
        for (side, crossed) in expected {
            let times = used.iter().filter(|s| **s == side).count();
            assert_eq!(times, if crossed { 1 } else { 0 }, "mask {}", mask);
        }
    }
}

#[test]
fn new_square_is_not_sampled() {
    let sq = Square::new(Point { x: 3, y: 4 }, 5);
    assert_eq!(sq.origin, Point { x: 3, y: 4 });
    assert_eq!(sq.dimension, 5);
    assert_eq!(sq.sample.inside.mask(), 0);
    assert_eq!(sq.sample.crossings.get(Side::Top), None);
    assert_eq!(sq.sample.crossings.get(Side::Left), None);
    assert_eq!(sq.sample.crossings.get(Side::Right), None);
    assert_eq!(sq.sample.crossings.get(Side::Bottom), None);
}

#[test]
fn corners_are_a_dimension_apart() {
    let c = Square::new(Point { x: 3, y: 4 }, 5).corners();
    assert_eq!(c.tl, Point { x: 3, y: 4 });
    assert_eq!(c.tr, Point { x: 8, y: 4 });
    assert_eq!(c.bl, Point { x: 3, y: 9 });
    assert_eq!(c.br, Point { x: 8, y: 9 });
}

#[test]
fn corners_stop_at_the_end_of_the_coordinates() {
    let c = Square::new(Point { x: i32::MAX - 2, y: 7 }, 5).corners();
    assert_eq!(c.tl, Point { x: i32::MAX - 2, y: 7 });
    assert_eq!(c.tr, Point { x: i32::MAX, y: 7 });
    assert_eq!(c.bl, Point { x: i32::MAX - 2, y: 12 });
    assert_eq!(c.br, Point { x: i32::MAX, y: 12 });

    // a dimension beyond the coordinates counts as their upper end
    let c = Square::new(Point { x: 3, y: -7 }, u32::MAX).corners();
    assert_eq!(c.tr, Point { x: i32::MAX, y: -7 });
    assert_eq!(c.bl, Point { x: 3, y: i32::MAX - 7 });
    assert_eq!(c.br, Point { x: i32::MAX, y: i32::MAX - 7 });
}

#[test]
fn uniform_square_draws_nothing() {
    for inside in [flags(false, false, false, false), flags(true, true, true, true)] {
        let mut buffer = vec![0u32; 100];
        let mut sq = Square::new(Point { x: 2, y: 2 }, 4);
        sq.march(crossed_in_the_middle(inside), &mut buffer, 10, 10);
        assert_eq!(buffer, vec![0u32; 100]);
    }
}

#[test]
fn march_keeps_the_sample() {
    let mut buffer = vec![0u32; 100];
    let mut sq = Square::new(Point { x: 2, y: 2 }, 4);
    let sample = Sample {
        inside: flags(true, false, false, false),
        crossings: Sides {
            top: Some(1),
            left: Some(3),
            right: None,
            bottom: None,
        },
    };
    sq.march(sample, &mut buffer, 10, 10);
    assert_eq!(sq.origin, Point { x: 2, y: 2 });
    assert_eq!(sq.dimension, 4);
    assert_eq!(sq.sample.inside.mask(), 8);
    assert_eq!(sq.sample.crossings.get(Side::Top), Some(1));
    assert_eq!(sq.sample.crossings.get(Side::Left), Some(3));
}

#[test]
fn single_segment_joins_the_two_crossings() {
    let mut buffer = vec![0u32; 100];
    let mut sq = Square::new(Point { x: 2, y: 3 }, 4);
    let sample = Sample {
        inside: flags(true, false, false, false),
        crossings: Sides {
            top: Some(3),
            left: Some(1),
            right: None,
            bottom: None,
        },
    };
    sq.march(sample, &mut buffer, 10, 10);
    // from (2 + 3, 3) on the top side to (2, 3 + 1) on the left side
    let mut expected = vec![0u32; 100];
    line(&mut expected, (5, 3), (2, 4), 10);
    assert_eq!(buffer, expected);
    assert_eq!(buffer[3 * 10 + 5], CONTOUR);
    assert_eq!(buffer[4 * 10 + 2], CONTOUR);
    assert_eq!(buffer.iter().filter(|c| **c == CONTOUR).count(), 4);
}

#[test]
fn crossings_on_right_and_bottom_lie_a_dimension_away() {
    let mut buffer = vec![0u32; 100];
    let mut sq = Square::new(Point { x: 2, y: 3 }, 4);
    let sample = Sample {
        inside: flags(false, false, false, true),
        crossings: Sides {
            top: None,
            left: None,
            right: Some(1),
            bottom: Some(3),
        },
    };
    sq.march(sample, &mut buffer, 10, 10);
    // from (2 + 4, 3 + 1) on the right side to (2 + 3, 3 + 4) on the bottom side
    let mut expected = vec![0u32; 100];
    line(&mut expected, (6, 4), (5, 7), 10);
    assert_eq!(buffer, expected);
    assert_eq!(buffer[4 * 10 + 6], CONTOUR);
    assert_eq!(buffer[7 * 10 + 5], CONTOUR);
}

#[test]
fn crossing_at_offset_zero_lies_on_the_first_corner() {
    let mut buffer = vec![0u32; 100];
    let mut sq = Square::new(Point { x: 2, y: 3 }, 4);
    let sample = Sample {
        inside: flags(true, true, false, false),
        crossings: Sides {
            top: None,
            left: Some(0),
            right: Some(4),
            bottom: None,
        },
    };
    sq.march(sample, &mut buffer, 10, 10);
    // from the top left corner (2, 3) to the bottom right corner (6, 7)
    let mut expected = vec![0u32; 100];
    line(&mut expected, (2, 3), (6, 7), 10);
    assert_eq!(buffer, expected);
    let c = sq.corners();
    assert_eq!(buffer[(c.tl.y * 10 + c.tl.x) as usize], CONTOUR);
    assert_eq!(buffer[(c.br.y * 10 + c.br.x) as usize], CONTOUR);
}

#[test]
fn saddle_draws_both_segments() {
    let mut buffer = vec![0u32; 100];
    let mut sq = Square::new(Point { x: 0, y: 0 }, 4);
    sq.march(
        crossed_in_the_middle(flags(true, false, false, true)),
        &mut buffer,
        10,
        10,
    );
    let mut expected = vec![0u32; 100];
    line(&mut expected, (2, 0), (0, 2), 10);
    line(&mut expected, (4, 2), (2, 4), 10);
    assert_eq!(buffer, expected);
    assert_eq!(buffer.iter().filter(|c| **c == CONTOUR).count(), 6);

    let mut buffer = vec![0u32; 100];
    sq.march(
        crossed_in_the_middle(flags(false, true, true, false)),
        &mut buffer,
        10,
        10,
    );
    let mut expected = vec![0u32; 100];
    line(&mut expected, (2, 0), (4, 2), 10);
    line(&mut expected, (0, 2), (2, 4), 10);
    assert_eq!(buffer, expected);
}

#[test]
fn saddle_draws_two_segments_whatever_the_crossings() {
    for a in 0..=4u32 {
        for b in 0..=4u32 {
            let sample = Sample {
                inside: flags(true, false, false, true),
                crossings: Sides {
                    top: Some(a),
                    left: Some(b),
                    right: Some(4 - b),
                    bottom: Some(4 - a),
                },
            };
            assert_eq!(
                contour(&sample.inside),
                Contour::Double(
                    segment(Side::Top, Side::Left),
                    segment(Side::Right, Side::Bottom)
                )
            );
            let mut buffer = vec![0u32; 100];
            Square::new(Point { x: 1, y: 1 }, 4).march(sample, &mut buffer, 10, 10);
            let mut expected = vec![0u32; 100];
            line(&mut expected, (1 + a as i32, 1), (1, 1 + b as i32), 10);
            line(&mut expected, (5, 5 - b as i32), (5 - a as i32, 5), 10);
            assert_eq!(buffer, expected);
        }
    }
}

#[test]
fn segment_without_a_crossing_is_skipped() {
    let mut buffer = vec![0u32; 100];
    let mut sq = Square::new(Point { x: 2, y: 2 }, 4);
    let sample = Sample {
        inside: flags(true, false, false, false),
        crossings: Sides {
            top: Some(2),
            left: None,
            right: Some(2),
            bottom: Some(2),
        },
    };
    sq.march(sample, &mut buffer, 10, 10);
    assert_eq!(buffer, vec![0u32; 100]);

    // in a saddle the other segment is still drawn
    let sample = Sample {
        inside: flags(true, false, false, true),
        crossings: Sides {
            top: Some(2),
            left: None,
            right: Some(2),
            bottom: Some(2),
        },
    };
    sq.march(sample, &mut buffer, 10, 10);
    let mut expected = vec![0u32; 100];
    line(&mut expected, (6, 4), (4, 6), 10);
    assert_eq!(buffer, expected);
}

#[test]
fn shade_draws_what_the_square_holds() {
    let sq = Square {
        origin: Point { x: 1, y: 1 },
        dimension: 6,
        sample: Sample {
            inside: flags(true, false, true, false),
            crossings: Sides {
                top: Some(2),
                left: None,
                right: None,
                bottom: Some(4),
            },
        },
    };
    let mut buffer = vec![0u32; 100];
    sq.shade(10, 10, &mut buffer);
    let mut expected = vec![0u32; 100];
    line(&mut expected, (3, 1), (5, 7), 10);
    assert_eq!(buffer, expected);
}

#[test]
fn flood_fills_a_cell_that_the_field_reaches() {
    let mut buffer = vec![0u32; 64];
    let mut sq = Square::new(Point { x: 2, y: 3 }, 3);
    let sample = Sample {
        inside: flags(false, false, true, false),
        crossings: no_crossings(),
    };
    sq.flood(sample, &mut buffer, 8, 8);
    for y in 0..8 {
        for x in 0..8 {
            let filled = (2..5).contains(&x) && (3..6).contains(&y);
            assert_eq!(buffer[y * 8 + x], if filled { CONTOUR } else { 0 });
        }
    }
    assert_eq!(sq.sample.inside.mask(), 2);
}

#[test]
fn flood_leaves_a_cell_outside_the_field_alone() {
    let mut buffer = vec![0u32; 64];
    let mut sq = Square::new(Point { x: 2, y: 3 }, 3);
    sq.flood(
        crossed_in_the_middle(flags(false, false, false, false)),
        &mut buffer,
        8,
        8,
    );
    assert_eq!(buffer, vec![0u32; 64]);
}

#[test]
fn flood_of_a_cell_without_extent_draws_nothing() {
    let mut buffer = vec![0u32; 64];
    let mut sq = Square::new(Point { x: 2, y: 3 }, 0);
    sq.flood(
        crossed_in_the_middle(flags(true, true, true, true)),
        &mut buffer,
        8,
        8,
    );
    assert_eq!(buffer, vec![0u32; 64]);
}

#[test]
fn paint_goes_by_the_mode() {
    let sample = crossed_in_the_middle(flags(true, false, false, false));

    let mut painted = vec![0u32; 64];
    Square::new(Point { x: 0, y: 0 }, 4).paint(
        sample,
        RenderMode::MarchingSquares,
        &mut painted,
        8,
        8,
    );
    let mut marched = vec![0u32; 64];
    Square::new(Point { x: 0, y: 0 }, 4).march(sample, &mut marched, 8, 8);
    assert_eq!(painted, marched);

    let mut painted = vec![0u32; 64];
    Square::new(Point { x: 0, y: 0 }, 4).paint(
        sample,
        RenderMode::FloodPreview,
        &mut painted,
        8,
        8,
    );
    let mut flooded = vec![0u32; 64];
    Square::new(Point { x: 0, y: 0 }, 4).flood(sample, &mut flooded, 8, 8);
    assert_eq!(painted, flooded);
    assert_ne!(marched, flooded);
}
