//! A cell of the marching-squares grid.
//!
//! A cell is classified by which of its four corners lie inside the field.
//! The contour crosses exactly the sides whose two ends are classified
//! differently, and runs through the cell in straight segments from one
//! crossed side to another.

use crate::point::Point;
use crate::raster::{
    bresenham, draw_line, lemma_horizontal_line, lemma_line_stays_between_ends, line_hits,
    line_pixel, line_steps, on_line, pixel_index, CONTOUR,
};
use vstd::prelude::*;

verus! {

/// One value for each corner of a cell.
#[derive(Debug)]
pub struct Corners<T> {
    /// top left
    pub tl: T,
    /// top right
    pub tr: T,
    /// bottom left
    pub bl: T,
    /// bottom right
    pub br: T,
}

/// A side of a cell. The top and the bottom side run from left to right, the
/// left and the right side from top to bottom.
#[derive(Clone, Copy, Debug, PartialEq, Eq, Structural)]
pub enum Side {
    Top,
    Left,
    Right,
    Bottom,
}

/// One value for each side of a cell.
#[derive(Debug)]
pub struct Sides<T> {
    pub top: T,
    pub left: T,
    pub right: T,
    pub bottom: T,
}

impl<T: Copy> Clone for Corners<T> {
    fn clone(&self) -> (c: Self)
        ensures
            c == *self,
    {
        *self
    }
}

impl<T: Copy> Copy for Corners<T> {

}

impl<T: Copy> Clone for Sides<T> {
    fn clone(&self) -> (s: Self)
        ensures
            s == *self,
    {
        *self
    }
}

impl<T: Copy> Copy for Sides<T> {

}

impl<T> Sides<T> {
    /// The value for `side`.
    pub open spec fn at(self, side: Side) -> T {
        match side {
            Side::Top => self.top,
            Side::Left => self.left,
            Side::Right => self.right,
            Side::Bottom => self.bottom,
        }
    }
}

/// A straight piece of contour, from where it crosses one side of the cell
/// to where it crosses another.
#[derive(Clone, Copy, Debug, PartialEq, Eq, Structural)]
pub struct Segment {
    pub from: Side,
    pub to: Side,
}

/// The way the contour takes through a cell.
#[derive(Clone, Copy, Debug, PartialEq, Eq, Structural)]
pub enum Contour {
    /// The contour does not touch the cell.
    Empty,
    /// The contour passes through the cell once.
    Single(Segment),
    /// The contour passes through the cell twice.
    Double(Segment, Segment),
}

impl Segment {
    /// How many of the segment's ends lie on `side`.
    pub open spec fn uses(self, side: Side) -> nat {
        (if self.from == side {
            1nat
        } else {
            0nat
        }) + (if self.to == side {
            1nat
        } else {
            0nat
        })
    }
}

impl Contour {
    /// How many segment ends lie on `side`.
    pub open spec fn uses(self, side: Side) -> nat {
        match self {
            Contour::Empty => 0,
            Contour::Single(s) => s.uses(side),
            Contour::Double(s, t) => s.uses(side) + t.uses(side),
        }
    }

    /// The number of segments.
    pub open spec fn count(self) -> nat {
        match self {
            Contour::Empty => 0,
            Contour::Single(_) => 1,
            Contour::Double(_, _) => 2,
        }
    }
}

/// Whether the contour crosses `side`: one end of the side is inside the
/// field and the other is not.
pub open spec fn crossed(inside: Corners<bool>, side: Side) -> bool {
    match side {
        Side::Top => inside.tl != inside.tr,
        Side::Left => inside.tl != inside.bl,
        Side::Right => inside.tr != inside.br,
        Side::Bottom => inside.bl != inside.br,
    }
}

/// Whether all four corners are classified alike.
pub open spec fn is_uniform(inside: Corners<bool>) -> bool {
    inside.tl == inside.tr && inside.tl == inside.bl && inside.tl == inside.br
}

/// Whether the corners inside the field are two that lie diagonally
/// opposite. All four sides are then crossed, and the corner flags alone do
/// not tell which crossings belong together.
pub open spec fn is_saddle(inside: Corners<bool>) -> bool {
    inside.tl == inside.br && inside.tr == inside.bl && inside.tl != inside.tr
}

/// The first crossed side, in the order top, left, right, bottom.
pub open spec fn first_crossed(inside: Corners<bool>) -> Side {
    if crossed(inside, Side::Top) {
        Side::Top
    } else if crossed(inside, Side::Left) {
        Side::Left
    } else if crossed(inside, Side::Right) {
        Side::Right
    } else {
        Side::Bottom
    }
}

/// The last crossed side, in the order top, left, right, bottom.
pub open spec fn last_crossed(inside: Corners<bool>) -> Side {
    if crossed(inside, Side::Bottom) {
        Side::Bottom
    } else if crossed(inside, Side::Right) {
        Side::Right
    } else if crossed(inside, Side::Left) {
        Side::Left
    } else {
        Side::Top
    }
}

/// The contour through a cell, given which of its corners lie inside the
/// field.
///
/// A cell with all corners alike has none. Where two sides are crossed, one
/// segment joins them. In a saddle each of the two inside corners is cut off
/// by a segment of its own, which joins the two sides that meet in it; the
/// saddle is not resolved by looking at the field in the middle of the cell.
pub open spec fn contour_of(inside: Corners<bool>) -> Contour {
    if is_uniform(inside) {
        Contour::Empty
    } else if is_saddle(inside) {
        if inside.tl {
            Contour::Double(
                Segment { from: Side::Top, to: Side::Left },
                Segment { from: Side::Right, to: Side::Bottom },
            )
        } else {
            Contour::Double(
                Segment { from: Side::Top, to: Side::Right },
                Segment { from: Side::Left, to: Side::Bottom },
            )
        }
    } else {
        Contour::Single(Segment { from: first_crossed(inside), to: last_crossed(inside) })
    }
}

/// Whether the field reaches the threshold at one corner at least.
pub open spec fn any_inside(inside: Corners<bool>) -> bool {
    inside.tl || inside.tr || inside.bl || inside.br
}

/// How the cells of a frame are painted.
#[derive(Clone, Copy, Debug, PartialEq, Eq, Structural)]
pub enum RenderMode {
    /// The contour is drawn through each cell.
    MarchingSquares,
    /// A coarse preview: each cell that the field reaches is filled.
    FloodPreview,
}

impl Corners<bool> {
    /// The four flags as one number: 8 for the top left corner, 4 for the
    /// top right, 2 for the bottom left and 1 for the bottom right one.
    pub open spec fn mask_of(self) -> int {
        (if self.tl {
            8int
        } else {
            0int
        }) + (if self.tr {
            4int
        } else {
            0int
        }) + (if self.bl {
            2int
        } else {
            0int
        }) + (if self.br {
            1int
        } else {
            0int
        })
    }

    /// The same flags with inside and outside exchanged.
    pub open spec fn complement(self) -> Corners<bool> {
        Corners { tl: !self.tl, tr: !self.tr, bl: !self.bl, br: !self.br }
    }

    /// The key of this classification in the table of contours.
    pub fn mask(&self) -> (m: u8)
        ensures
            m == self.mask_of(),
    {
        let mut m: u8 = 0;
        if self.tl {
            m = m + 8;
        }
        if self.tr {
            m = m + 4;
        }
        if self.bl {
            m = m + 2;
        }
        if self.br {
            m = m + 1;
        }
        m
    }
}

/// Looks the contour up in the table of the sixteen classifications.
pub fn contour(inside: &Corners<bool>) -> (c: Contour)
    ensures
        c == contour_of(*inside),
{
    let m = inside.mask();
    if m == 0 || m == 15 {
        Contour::Empty
    } else if m == 8 || m == 7 {
        // the top left corner against the other three
        Contour::Single(Segment { from: Side::Top, to: Side::Left })
    } else if m == 4 || m == 11 {
        // the top right corner against the other three
        Contour::Single(Segment { from: Side::Top, to: Side::Right })
    } else if m == 2 || m == 13 {
        // the bottom left corner against the other three
        Contour::Single(Segment { from: Side::Left, to: Side::Bottom })
    } else if m == 1 || m == 14 {
        // the bottom right corner against the other three
        Contour::Single(Segment { from: Side::Right, to: Side::Bottom })
    } else if m == 12 || m == 3 {
        // the upper pair against the lower pair
        Contour::Single(Segment { from: Side::Left, to: Side::Right })
    } else if m == 10 || m == 5 {
        // the left pair against the right pair
        Contour::Single(Segment { from: Side::Top, to: Side::Bottom })
    } else if m == 9 {
        Contour::Double(
            Segment { from: Side::Top, to: Side::Left },
            Segment { from: Side::Right, to: Side::Bottom },
        )
    } else {
        Contour::Double(
            Segment { from: Side::Top, to: Side::Right },
            Segment { from: Side::Left, to: Side::Bottom },
        )
    }
}

/// A cell whose corners are all inside, or all outside, has no contour.
pub proof fn lemma_uniform_has_no_contour(inside: Corners<bool>)
    requires
        is_uniform(inside),
    ensures
        contour_of(inside) == Contour::Empty,
{
}

/// A saddle always has two segments: one joins top and left side, the other
/// right and bottom side, where the top left and the bottom right corner are
/// the ones inside; else one joins top and right, the other left and bottom.
pub proof fn lemma_saddle_has_two_segments(inside: Corners<bool>)
    requires
        is_saddle(inside),
    ensures
        contour_of(inside).count() == 2,
        inside.tl ==> contour_of(inside) == Contour::Double(
            Segment { from: Side::Top, to: Side::Left },
            Segment { from: Side::Right, to: Side::Bottom },
        ),
        !inside.tl ==> contour_of(inside) == Contour::Double(
            Segment { from: Side::Top, to: Side::Right },
            Segment { from: Side::Left, to: Side::Bottom },
        ),
{
}

/// The contour touches the sides that are crossed, each of them once, and
/// no other side.
pub proof fn lemma_contour_joins_crossed_sides(inside: Corners<bool>, side: Side)
    ensures
        contour_of(inside).uses(side) == (if crossed(inside, side) {
            1nat
        } else {
            0nat
        }),
{
}

/// Unless the cell is a saddle, exchanging inside and outside leaves the
/// contour as it is.
pub proof fn lemma_complement_has_same_contour(inside: Corners<bool>)
    requires
        !is_saddle(inside),
    ensures
        contour_of(inside.complement()) == contour_of(inside),
{
}

impl<T: Copy> Sides<T> {
    /// The value for `side`.
    pub fn get(&self, side: Side) -> (v: T)
        ensures
            v == self.at(side),
    {
        match side {
            Side::Top => self.top,
            Side::Left => self.left,
            Side::Right => self.right,
            Side::Bottom => self.bottom,
        }
    }
}

/// What the field looks like around one cell.
#[derive(Clone, Copy, Debug)]
pub struct Sample {
    /// For each corner, whether the field reaches the threshold there.
    pub inside: Corners<bool>,
    /// For each side, how many pixels from its start (its left or upper end)
    /// the field passes the threshold; `None` where the field is the same
    /// at both ends, so that no such place can be told.
    pub crossings: Sides<Option<u32>>,
}

impl Sample {
    /// The sample of a cell that the field does not reach: every corner
    /// outside, no side crossed.
    pub open spec fn blank() -> Sample {
        Sample {
            inside: Corners { tl: false, tr: false, bl: false, br: false },
            crossings: Sides { top: None, left: None, right: None, bottom: None },
        }
    }

    /// Whether each crossing lies on its side: no further from the side's
    /// start than a side of `dimension` pixels is long.
    pub open spec fn fits(self, dimension: int) -> bool {
        forall|side: Side|
            (#[trigger] self.crossings.at(side)) matches Some(offset) ==> offset <= dimension
    }

    /// The sample of a cell that the field does not reach.
    pub fn outside() -> (s: Sample)
        ensures
            s == Sample::blank(),
    {
        Sample {
            inside: Corners { tl: false, tr: false, bl: false, br: false },
            crossings: Sides { top: None, left: None, right: None, bottom: None },
        }
    }
}

/// A cell of the grid: the square of `dimension` pixels whose top left
/// corner is `origin`, with the last sample taken of the field around it.
#[derive(Clone, Copy, Debug)]
pub struct Square {
    pub origin: Point,
    pub dimension: u32,
    pub sample: Sample,
}

impl Square {
    /// The positions of the four corners: where the field is to be sampled.
    pub open spec fn corner_points(self) -> Corners<Point> {
        Corners {
            tl: self.origin,
            tr: self.origin.sum(Point::at(self.dimension as int, 0)),
            bl: self.origin.sum(Point::at(0, self.dimension as int)),
            br: self.origin.sum(Point::at(self.dimension as int, self.dimension as int)),
        }
    }

    /// The position on `side` that lies `offset` pixels from the side's
    /// start. Only the coordinate along the side depends on `offset`.
    pub open spec fn point_on(self, side: Side, offset: int) -> Point {
        match side {
            Side::Top => self.origin.sum(Point::at(offset, 0)),
            Side::Left => self.origin.sum(Point::at(0, offset)),
            Side::Right => self.origin.sum(Point::at(self.dimension as int, offset)),
            Side::Bottom => self.origin.sum(Point::at(offset, self.dimension as int)),
        }
    }

    /// Where the contour crosses `side`, as far as the sample tells.
    pub open spec fn crossing(self, side: Side) -> Option<Point> {
        match self.sample.crossings.at(side) {
            Some(offset) => Some(self.point_on(side, offset as int)),
            None => None,
        }
    }

    /// The two ends of `segment`, if the sample tells both.
    pub open spec fn ends_of(self, segment: Segment) -> Option<(Point, Point)> {
        match (self.crossing(segment.from), self.crossing(segment.to)) {
            (Some(p), Some(q)) => Some((p, q)),
            _ => None,
        }
    }

    /// The buffer after `segment` is drawn into `buf`. A segment of which
    /// the sample does not tell both ends is left out.
    pub open spec fn draw_segment(self, buf: Seq<u32>, segment: Segment, width: int) -> Seq<u32> {
        match self.ends_of(segment) {
            Some((p, q)) => draw_line(buf, p, q, width),
            None => buf,
        }
    }

    /// The buffer after the contour through this cell is drawn into `buf`.
    pub open spec fn shaded(self, buf: Seq<u32>, width: int) -> Seq<u32> {
        match contour_of(self.sample.inside) {
            Contour::Empty => buf,
            Contour::Single(s) => self.draw_segment(buf, s, width),
            Contour::Double(s, t) => self.draw_segment(self.draw_segment(buf, s, width), t, width),
        }
    }

    /// The left end of the `r`-th pixel row of the cell.
    pub open spec fn row_left(self, r: int) -> Point {
        self.origin.sum(Point::at(0, r))
    }

    /// The right end of the `r`-th pixel row of the cell. The column of
    /// the right side belongs to the next cell.
    pub open spec fn row_right(self, r: int) -> Point {
        self.origin.sum(Point::at(self.dimension - 1, r))
    }

    /// The buffer after the first `rows` pixel rows of the cell are drawn
    /// into `buf`, each as a line from its left end to its right end.
    pub open spec fn filled(self, buf: Seq<u32>, width: int, rows: int) -> Seq<u32>
        decreases rows,
    {
        if rows <= 0 {
            buf
        } else {
            draw_line(
                self.filled(buf, width, rows - 1),
                self.row_left(rows - 1),
                self.row_right(rows - 1),
                width,
            )
        }
    }

    /// Whether the pixel in column `c` and row `r` of the cell, both
    /// counted from the cell's top left corner, falls on buffer cell `j`.
    pub open spec fn cell_pixel_hits(self, width: int, c: int, r: int, j: int) -> bool {
        pixel_index(self.origin.x + c, self.origin.y + r, width) == j
    }

    /// Whether a pixel in one of the first `rows` pixel rows of the cell
    /// falls on buffer cell `j`.
    pub open spec fn covers(self, width: int, rows: int, j: int) -> bool {
        exists|c: int, r: int|
            0 <= c < self.dimension && 0 <= r < rows && #[trigger] self.cell_pixel_hits(
                width,
                c,
                r,
                j,
            )
    }

    /// Whether a pixel of the cell, those on its right and bottom side
    /// included, falls on buffer cell `j`.
    pub open spec fn touches(self, width: int, j: int) -> bool {
        exists|c: int, r: int|
            0 <= c <= self.dimension && 0 <= r <= self.dimension && #[trigger] self.cell_pixel_hits(
                width,
                c,
                r,
                j,
            )
    }

    /// The buffer after the cell is flooded into `buf`: filled if the field
    /// reaches one of its corners, else left alone.
    pub open spec fn flooded(self, buf: Seq<u32>, width: int) -> Seq<u32> {
        if any_inside(self.sample.inside) {
            self.filled(buf, width, self.dimension as int)
        } else {
            buf
        }
    }

    /// The buffer after the cell is painted into `buf` in the given mode.
    pub open spec fn painted(self, buf: Seq<u32>, mode: RenderMode, width: int) -> Seq<u32> {
        match mode {
            RenderMode::MarchingSquares => self.shaded(buf, width),
            RenderMode::FloodPreview => self.flooded(buf, width),
        }
    }

    /// The cell of `dimension` pixels at `origin`, not sampled yet: until
    /// it is, it counts as lying outside the field.
    pub fn new(origin: Point, dimension: u32) -> (sq: Square)
        ensures
            sq == (Square { origin, dimension, sample: Sample::blank() }),
    {
        Square { origin, dimension, sample: Sample::outside() }
    }

    /// The positions of the four corners: where the field is to be sampled.
    pub fn corners(&self) -> (c: Corners<Point>)
        ensures
            c == self.corner_points(),
    {
        let d = self.dimension;
        Corners {
            tl: self.origin,
            tr: self.origin.add(&Point::new(d, 0)),
            bl: self.origin.add(&Point::new(0, d)),
            br: self.origin.add(&Point::new(d, d)),
        }
    }

    /// The position on `side` that lies `offset` pixels from its start.
    fn locate(&self, side: Side, offset: u32) -> (p: Point)
        ensures
            p == self.point_on(side, offset as int),
    {
        let d = self.dimension;
        match side {
            Side::Top => self.origin.add(&Point::new(offset, 0)),
            Side::Left => self.origin.add(&Point::new(0, offset)),
            Side::Right => self.origin.add(&Point::new(d, offset)),
            Side::Bottom => self.origin.add(&Point::new(offset, d)),
        }
    }

    /// The two ends of `segment`, or `None` if the sample lacks the crossing
    /// of one of its sides: such a segment is not drawn.
    fn compute_intersection(&self, segment: &Segment) -> (ends: Option<(Point, Point)>)
        ensures
            ends == self.ends_of(*segment),
    {
        match (self.sample.crossings.get(segment.from), self.sample.crossings.get(segment.to)) {
            (Some(a), Some(b)) => Some((self.locate(segment.from, a), self.locate(segment.to, b))),
            _ => None,
        }
    }

    /// Draws the line from `p0` to `p1`.
    fn rasterize(&self, p0: &Point, p1: &Point, buffer: &mut [u32], width: u32)
        ensures
            final(buffer)@ == draw_line(old(buffer)@, *p0, *p1, width as int),
    {
        bresenham(buffer, p0, p1, width);
    }

    /// Draws `segment`, if the sample tells both its ends.
    fn trace(&self, segment: &Segment, buffer: &mut [u32], width: u32)
        ensures
            final(buffer)@ == self.draw_segment(old(buffer)@, *segment, width as int),
    {
        match self.compute_intersection(segment) {
            Some((p, q)) => self.rasterize(&p, &q, buffer, width),
            None => {},
        }
    }

    /// Draws the contour through this cell, as its sample has it, into
    /// `buffer`, whose rows are `width` cells long.
    pub fn shade(&self, width: u32, _height: u32, buffer: &mut [u32])
        ensures
            final(buffer)@ == self.shaded(old(buffer)@, width as int),
    {
        match contour(&self.sample.inside) {
            Contour::Empty => {},
            Contour::Single(s) => {
                self.trace(&s, buffer, width);
            },
            Contour::Double(s, t) => {
                self.trace(&s, buffer, width);
                self.trace(&t, buffer, width);
            },
        }
    }

    /// Takes `sample` as the field around this cell and draws the contour
    /// through the cell into `buffer`.
    pub fn march(&mut self, sample: Sample, buffer: &mut [u32], width: u32, height: u32)
        ensures
            final(self).origin == old(self).origin,
            final(self).dimension == old(self).dimension,
            final(self).sample == sample,
            final(buffer)@ == final(self).shaded(old(buffer)@, width as int),
    {
        self.sample = sample;
        self.shade(width, height, buffer);
    }

    /// Takes `sample` as the field around this cell and, if the field
    /// reaches one of the corners, fills the cell in `buffer` pixel row by
    /// pixel row, in the colour of the contour.
    pub fn flood(&mut self, sample: Sample, buffer: &mut [u32], width: u32, _height: u32)
        ensures
            final(self).origin == old(self).origin,
            final(self).dimension == old(self).dimension,
            final(self).sample == sample,
            final(buffer)@ == final(self).flooded(old(buffer)@, width as int),
    {
        self.sample = sample;
        let inside = &self.sample.inside;
        if inside.tl || inside.tr || inside.bl || inside.br {
            let ghost start = buffer@;
            let mut r: u32 = 0;
            while r < self.dimension
                invariant
                    r <= self.dimension,
                    buffer@ == self.filled(start, width as int, r as int),
                decreases self.dimension - r,
            {
                let left_end = self.origin.add(&Point::new(0, r));
                let right_end = self.origin.add(&Point::new(self.dimension - 1, r));
                self.rasterize(&left_end, &right_end, buffer, width);
                r = r + 1;
            }
        }
    }

    /// Takes `sample` as the field around this cell and paints the cell
    /// into `buffer` in the given mode.
    pub fn paint(
        &mut self,
        sample: Sample,
        mode: RenderMode,
        buffer: &mut [u32],
        width: u32,
        height: u32,
    )
        ensures
            final(self).origin == old(self).origin,
            final(self).dimension == old(self).dimension,
            final(self).sample == sample,
            final(buffer)@ == final(self).painted(old(buffer)@, mode, width as int),
    {
        match mode {
            RenderMode::MarchingSquares => self.march(sample, buffer, width, height),
            RenderMode::FloodPreview => self.flood(sample, buffer, width, height),
        }
    }
}

/// A cell with all four corners outside the field, or all four inside it,
/// leaves the buffer as it is, whatever else its sample holds.
pub proof fn lemma_uniform_square_draws_nothing(sq: Square, buf: Seq<u32>, width: int)
    requires
        is_uniform(sq.sample.inside),
    ensures
        sq.shaded(buf, width) == buf,
{
}

/// In a saddle whose sample tells the crossings of all four sides, two
/// lines are drawn, whatever the offsets of the crossings: each joins the
/// crossings of the two sides that meet in one of the inside corners.
pub proof fn lemma_saddle_draws_two_lines(sq: Square, buf: Seq<u32>, width: int)
    requires
        is_saddle(sq.sample.inside),
        forall|side: Side| #[trigger] sq.sample.crossings.at(side) is Some,
    ensures
        ({
            let top = sq.crossing(Side::Top)->0;
            let left = sq.crossing(Side::Left)->0;
            let right = sq.crossing(Side::Right)->0;
            let bottom = sq.crossing(Side::Bottom)->0;
            &&& sq.sample.inside.tl ==> sq.shaded(buf, width) == draw_line(
                draw_line(buf, top, left, width),
                right,
                bottom,
                width,
            )
            &&& !sq.sample.inside.tl ==> sq.shaded(buf, width) == draw_line(
                draw_line(buf, top, right, width),
                left,
                bottom,
                width,
            )
        }),
{
    assert(sq.sample.crossings.at(Side::Top) is Some);
    assert(sq.sample.crossings.at(Side::Left) is Some);
    assert(sq.sample.crossings.at(Side::Right) is Some);
    assert(sq.sample.crossings.at(Side::Bottom) is Some);
}

/// A crossing at offset 0 lies on the corner at which the side starts, and
/// one at the offset of the cell's dimension on the corner at which it ends.
pub proof fn lemma_crossing_at_ends(sq: Square, side: Side)
    ensures
        sq.point_on(side, 0) == (match side {
            Side::Top | Side::Left => sq.corner_points().tl,
            Side::Right => sq.corner_points().tr,
            Side::Bottom => sq.corner_points().bl,
        }),
        sq.point_on(side, sq.dimension as int) == (match side {
            Side::Top => sq.corner_points().tr,
            Side::Left => sq.corner_points().bl,
            Side::Right | Side::Bottom => sq.corner_points().br,
        }),
{
}

/// Filling the first `rows` pixel rows of a cell colours the buffer cells
/// under the pixels of those rows, from the cell's left column up to the
/// column before its right side, and leaves every other buffer cell as it
/// was. Stated for cells whose pixels all lie within the coordinate range.
pub proof fn lemma_filled_covers_rows(sq: Square, buf: Seq<u32>, width: int, rows: int)
    requires
        0 <= rows <= sq.dimension,
        sq.dimension - 1 <= i32::MAX,
        sq.origin.x + sq.dimension - 1 <= i32::MAX,
        sq.origin.y + sq.dimension - 1 <= i32::MAX,
    ensures
        sq.filled(buf, width, rows) == Seq::new(
            buf.len(),
            |j: int|
                if sq.covers(width, rows, j) {
                    CONTOUR
                } else {
                    buf[j]
                },
        ),
    decreases rows,
{
    let covered = Seq::new(
        buf.len(),
        |j: int|
            if sq.covers(width, rows, j) {
                CONTOUR
            } else {
                buf[j]
            },
    );
    if rows == 0 {
        assert(sq.filled(buf, width, rows) =~= covered);
    } else {
        let r = rows - 1;
        let p = sq.row_left(r);
        let q = sq.row_right(r);
        lemma_filled_covers_rows(sq, buf, width, r);
        lemma_horizontal_line(p, q, 0);
        assert forall|j: int| 0 <= j < buf.len() implies sq.filled(buf, width, rows)[j]
            == covered[j] by {
            if on_line(p, q, width, j) {
                let i = choose|i: int|
                    0 <= i < line_steps(p, q) + 1 && #[trigger] line_hits(p, q, width, i, j);
                lemma_horizontal_line(p, q, i);
                assert(sq.cell_pixel_hits(width, i, r, j));
            }
            if sq.covers(width, r, j) {
                let (c, r0) = choose|c: int, r0: int|
                    0 <= c < sq.dimension && 0 <= r0 < r && #[trigger] sq.cell_pixel_hits(
                        width,
                        c,
                        r0,
                        j,
                    );
                assert(sq.cell_pixel_hits(width, c, r0, j) && r0 < rows);
            }
            if sq.covers(width, rows, j) {
                let (c, r0) = choose|c: int, r0: int|
                    0 <= c < sq.dimension && 0 <= r0 < rows && #[trigger] sq.cell_pixel_hits(
                        width,
                        c,
                        r0,
                        j,
                    );
                if r0 == r {
                    lemma_horizontal_line(p, q, c);
                    assert(line_hits(p, q, width, c, j));
                } else {
                    assert(sq.cell_pixel_hits(width, c, r0, j) && r0 < r);
                    assert(sq.covers(width, r, j));
                }
            }
        }
        assert(sq.filled(buf, width, rows) =~= covered);
    }
}

/// Flooding a cell that the field reaches colours the buffer cells under
/// its pixels and no others; a cell that the field does not reach leaves
/// the buffer as it is. Stated for cells whose pixels all lie within the
/// coordinate range.
pub proof fn lemma_flooded_covers_cell(sq: Square, buf: Seq<u32>, width: int)
    requires
        sq.dimension - 1 <= i32::MAX,
        sq.origin.x + sq.dimension - 1 <= i32::MAX,
        sq.origin.y + sq.dimension - 1 <= i32::MAX,
    ensures
        any_inside(sq.sample.inside) ==> sq.flooded(buf, width) == Seq::new(
            buf.len(),
            |j: int|
                if sq.covers(width, sq.dimension as int, j) {
                    CONTOUR
                } else {
                    buf[j]
                },
        ),
        !any_inside(sq.sample.inside) ==> sq.flooded(buf, width) == buf,
{
    lemma_filled_covers_rows(sq, buf, width, sq.dimension as int);
}

/// Filling pixel rows keeps the length of the buffer and writes nothing but
/// the colour of the contour.
pub proof fn lemma_filled_writes_contour(sq: Square, buf: Seq<u32>, width: int, rows: int)
    ensures
        sq.filled(buf, width, rows).len() == buf.len(),
        forall|j: int|
            0 <= j < buf.len() ==> {
                let after = #[trigger] sq.filled(buf, width, rows)[j];
                after == buf[j] || after == CONTOUR
            },
    decreases rows,
{
    if rows > 0 {
        lemma_filled_writes_contour(sq, buf, width, rows - 1);
    }
}

/// Painting a cell keeps the length of the buffer and writes nothing but the
/// colour of the contour.
pub proof fn lemma_painted_writes_contour(sq: Square, buf: Seq<u32>, mode: RenderMode, width: int)
    ensures
        sq.painted(buf, mode, width).len() == buf.len(),
        forall|j: int|
            0 <= j < buf.len() ==> {
                let after = #[trigger] sq.painted(buf, mode, width)[j];
                after == buf[j] || after == CONTOUR
            },
{
    lemma_filled_writes_contour(sq, buf, width, sq.dimension as int);
}

/// A segment between crossings that lie on their sides changes no buffer
/// cell but those under pixels of the cell.
proof fn lemma_segment_stays_in_cell(
    sq: Square,
    buf: Seq<u32>,
    segment: Segment,
    width: int,
    j: int,
)
    requires
        sq.sample.fits(sq.dimension as int),
        sq.dimension <= i32::MAX,
        sq.origin.x + sq.dimension <= i32::MAX,
        sq.origin.y + sq.dimension <= i32::MAX,
        0 <= j < buf.len(),
        sq.draw_segment(buf, segment, width)[j] != buf[j],
    ensures
        sq.touches(width, j),
{
    let (p, q) = sq.ends_of(segment)->0;
    assert(sq.sample.crossings.at(segment.from) is Some);
    assert(sq.sample.crossings.at(segment.to) is Some);
    assert(on_line(p, q, width, j));
    let i = choose|i: int| 0 <= i < line_steps(p, q) + 1 && #[trigger] line_hits(p, q, width, i, j);
    lemma_line_stays_between_ends(p, q, i);
    let (x, y) = line_pixel(p, q, i);
    assert(sq.cell_pixel_hits(width, x - sq.origin.x, y - sq.origin.y, j));
}

/// The contour through a cell is drawn within the cell: where the crossings
/// of the sample lie on their sides, drawing it changes no buffer cell but
/// those under pixels of the cell. Stated for cells whose pixels all lie
/// within the coordinate range.
pub proof fn lemma_contour_stays_in_cell(sq: Square, buf: Seq<u32>, width: int, j: int)
    requires
        sq.sample.fits(sq.dimension as int),
        sq.dimension <= i32::MAX,
        sq.origin.x + sq.dimension <= i32::MAX,
        sq.origin.y + sq.dimension <= i32::MAX,
        0 <= j < buf.len(),
        sq.shaded(buf, width)[j] != buf[j],
    ensures
        sq.touches(width, j),
{
    match contour_of(sq.sample.inside) {
        Contour::Empty => {},
        Contour::Single(s) => {
            lemma_segment_stays_in_cell(sq, buf, s, width, j);
        },
        Contour::Double(s, t) => {
            let between = sq.draw_segment(buf, s, width);
            if between[j] != buf[j] {
                lemma_segment_stays_in_cell(sq, buf, s, width, j);
            } else {
                lemma_segment_stays_in_cell(sq, between, t, width, j);
            }
        },
    }
}

} // verus!
