//! Sub-cell raster canvases built from ordinary Unicode cells.
//!
//! * [`BrailleCanvas`]: 2x4 binary dots per cell (`U+2800..=U+28FF`).
//! * [`HalfBlockCanvas`]: one horizontal by two vertical RGB samples per cell,
//!   rendered with the upper half block (foreground = top, background = bottom).
use crate::cell::{glyph_width, plain_style, Cell, Color, Glyph, Line, RichText, Span, Style};
pub use crate::segment::clip_line_to_bounds;
use crate::segment::{clipped_segment, line_dots, pt_int, pts_contains, segment_dots, segment_points};
use crate::surface::{composite, grid_index, lemma_area_fits, lemma_grid_index, Rect, Surface};
use crate::text::{char_from_u32, push_char};
use vstd::prelude::*;

verus! {

/// The braille bit of the dot in column `dx` (0..2) and row `dy` (0..4) of a cell.
pub open spec fn dot_bit_of(dx: int, dy: int) -> u8 {
    if dx == 0 && dy == 0 { 0x01 }
    else if dx == 0 && dy == 1 { 0x02 }
    else if dx == 0 && dy == 2 { 0x04 }
    else if dx == 1 && dy == 0 { 0x08 }
    else if dx == 1 && dy == 1 { 0x10 }
    else if dx == 1 && dy == 2 { 0x20 }
    else if dx == 0 && dy == 3 { 0x40 }
    else if dx == 1 && dy == 3 { 0x80 }
    else { 0 }
}

/// Setting a bit keeps every other dot bit and sets that one; clearing it
/// keeps every other dot bit and clears that one.
proof fn lemma_bits(b: u8, bit: u8, other: u8)
    requires
        bit == 1 || bit == 2 || bit == 4 || bit == 8 || bit == 16 || bit == 32 || bit == 64 || bit == 128,
        other == 1 || other == 2 || other == 4 || other == 8 || other == 16 || other == 32 || other == 64 || other == 128,
    ensures
        (b | bit) & bit != 0,
        (b & !bit) & bit == 0,
        other != bit ==> (((b | bit) & other != 0) == (b & other != 0)),
        other != bit ==> (((b & !bit) & other != 0) == (b & other != 0)),
{
    assert((b | bit) & bit != 0) by (bit_vector)
        requires bit == 1 || bit == 2 || bit == 4 || bit == 8 || bit == 16 || bit == 32 || bit == 64 || bit == 128;
    assert((b & !bit) & bit == 0) by (bit_vector);
    assert(other != bit ==> (((b | bit) & other != 0) == (b & other != 0))) by (bit_vector)
        requires
            bit == 1 || bit == 2 || bit == 4 || bit == 8 || bit == 16 || bit == 32 || bit == 64 || bit == 128,
            other == 1 || other == 2 || other == 4 || other == 8 || other == 16 || other == 32 || other == 64 || other == 128;
    assert(other != bit ==> (((b & !bit) & other != 0) == (b & other != 0))) by (bit_vector)
        requires
            bit == 1 || bit == 2 || bit == 4 || bit == 8 || bit == 16 || bit == 32 || bit == 64 || bit == 128,
            other == 1 || other == 2 || other == 4 || other == 8 || other == 16 || other == 32 || other == 64 || other == 128;
}

/// A byte is zero exactly when none of the eight dot bits is set.
proof fn lemma_byte_zero(b: u8)
    ensures
        (b == 0) == (b & 1 == 0 && b & 2 == 0 && b & 4 == 0 && b & 8 == 0 && b & 16 == 0 && b & 32 == 0 && b & 64 == 0 && b & 128 == 0),
{
    assert((b == 0) == (b & 1 == 0 && b & 2 == 0 && b & 4 == 0 && b & 8 == 0 && b & 16 == 0 && b & 32 == 0 && b & 64 == 0 && b & 128 == 0)) by (bit_vector);
}

/// The dot bit of a pixel position is one of the eight single bits.
proof fn lemma_dot_bit_single(x: int, y: int)
    requires
        x >= 0,
        y >= 0,
    ensures
        ({
            let b = dot_bit_of(x % 2, y % 4);
            b == 1 || b == 2 || b == 4 || b == 8 || b == 16 || b == 32 || b == 64 || b == 128
        }),
{
}

/// Binary dot-matrix canvas: `2 * width` by `4 * height` addressable dots.
#[derive(Debug, Clone, PartialEq, Eq)]
pub struct BrailleCanvas {
    pub width: u16,
    pub height: u16,
    /// One dot mask per cell, row-major.
    pub cells: Vec<u8>,
}

impl BrailleCanvas {
    /// One mask per cell, and dot coordinates addressable in `u16`.
    pub open spec fn wf(&self) -> bool {
        &&& self.cells@.len() == self.width as int * self.height as int
        &&& self.width <= 32767
        &&& self.height <= 16383
    }

    pub open spec fn dots_w(&self) -> int {
        2 * self.width
    }

    pub open spec fn dots_h(&self) -> int {
        4 * self.height
    }

    pub open spec fn in_dots(&self, x: int, y: int) -> bool {
        0 <= x < self.dots_w() && 0 <= y < self.dots_h()
    }

    /// The mask of cell `(cx, cy)`.
    pub open spec fn mask(&self, cx: int, cy: int) -> u8 {
        self.cells@[grid_index(cx, cy, self.width as int)]
    }

    /// Whether the dot at pixel `(x, y)` is set; always false outside the canvas.
    pub open spec fn is_set(&self, x: int, y: int) -> bool {
        self.in_dots(x, y) && self.mask(x / 2, y / 4) & dot_bit_of(x % 2, y % 4) != 0
    }

    /// A canvas with every dot clear.
    pub fn new(width: u16, height: u16) -> (c: Self)
        ensures
            c.width == width,
            c.height == height,
            c.cells@.len() == width as int * height as int,
            forall|i: int| 0 <= i < c.cells@.len() ==> c.cells@[i] == 0,
    {
        proof {
            lemma_area_fits(width, height);
        }
        let n: usize = width as usize * height as usize;
        let mut cells: Vec<u8> = Vec::new();
        let mut i: usize = 0;
        while i < n
            invariant
                i <= n,
                cells@.len() == i,
                forall|j: int| 0 <= j < i ==> cells@[j] == 0,
            decreases n - i,
        {
            cells.push(0);
            i = i + 1;
        }
        BrailleCanvas { width, height, cells }
    }

    pub fn pixel_width(&self) -> (w: u16)
        requires
            self.width <= 32767,
        ensures
            w == 2 * self.width,
    {
        self.width * 2
    }

    pub fn pixel_height(&self) -> (h: u16)
        requires
            self.height <= 16383,
        ensures
            h == 4 * self.height,
    {
        self.height * 4
    }

    /// Clears every dot.
    pub fn clear(&mut self)
        ensures
            final(self).width == old(self).width,
            final(self).height == old(self).height,
            final(self).cells@.len() == old(self).cells@.len(),
            forall|i: int| 0 <= i < final(self).cells@.len() ==> final(self).cells@[i] == 0,
    {
        let mut i: usize = 0;
        while i < self.cells.len()
            invariant
                i <= self.cells@.len(),
                self.cells@.len() == old(self).cells@.len(),
                self.width == old(self).width,
                self.height == old(self).height,
                forall|j: int| 0 <= j < i ==> self.cells@[j] == 0,
            decreases self.cells@.len() - i,
        {
            self.cells.set(i, 0);
            i = i + 1;
        }
    }

    fn dot_bit(dx: u16, dy: u16) -> (b: u8)
        ensures
            b == dot_bit_of(dx as int, dy as int),
    {
        match (dx, dy) {
            (0, 0) => 0x01,
            (0, 1) => 0x02,
            (0, 2) => 0x04,
            (1, 0) => 0x08,
            (1, 1) => 0x10,
            (1, 2) => 0x20,
            (0, 3) => 0x40,
            (1, 3) => 0x80,
            _ => 0,
        }
    }

    /// Index of the cell holding dot `(x, y)` and the dot's bit, when the dot
    /// lies on the canvas.
    fn locate(&self, x: i32, y: i32) -> (r: Option<(usize, u8)>)
        requires
            self.wf(),
        ensures
            match r {
                Some((i, bit)) => self.in_dots(x as int, y as int)
                    && i == grid_index(x as int / 2, y as int / 4, self.width as int)
                    && 0 <= i < self.cells@.len()
                    && bit == dot_bit_of(x as int % 2, y as int % 4),
                None => !self.in_dots(x as int, y as int),
            },
    {
        if x < 0 || y < 0 {
            return None;
        }
        if x >= self.pixel_width() as i32 || y >= self.pixel_height() as i32 {
            return None;
        }
        let (ux, uy) = (x as u16, y as u16);
        let cx = ux / 2;
        let cy = uy / 4;
        let bit = Self::dot_bit(ux % 2, uy % 4);
        proof {
            lemma_grid_index(cx as int, cy as int, cx as int, cy as int, self.width as int, self.height as int);
            lemma_area_fits(self.width, self.height);
            assert(0 <= cy as int * self.width as int) by (nonlinear_arith) requires cy >= 0, self.width >= 0;
        }
        let idx = (cy as usize) * (self.width as usize) + (cx as usize);
        Some((idx, bit))
    }

    /// Two dots share a cell mask exactly when they lie in the same cell.
    proof fn lemma_same_cell(&self, x: int, y: int, px: int, py: int)
        requires
            self.wf(),
            self.in_dots(x, y),
            self.in_dots(px, py),
        ensures
            (grid_index(x / 2, y / 4, self.width as int) == grid_index(px / 2, py / 4, self.width as int))
                == (x / 2 == px / 2 && y / 4 == py / 4),
            0 <= grid_index(px / 2, py / 4, self.width as int) < self.cells@.len(),
    {
        lemma_grid_index(x / 2, y / 4, px / 2, py / 4, self.width as int, self.height as int);
        lemma_grid_index(px / 2, py / 4, px / 2, py / 4, self.width as int, self.height as int);
    }

    /// Sets the dot at pixel `(x, y)`; out-of-bounds coordinates are ignored.
    pub fn set(&mut self, x: i32, y: i32)
        requires
            old(self).wf(),
        ensures
            final(self).wf(),
            final(self).width == old(self).width,
            final(self).height == old(self).height,
            forall|px: int, py: int| #[trigger] final(self).is_set(px, py)
                == (old(self).is_set(px, py) || (px == x && py == y && old(self).in_dots(px, py))),
    {
        if let Some((i, bit)) = self.locate(x, y) {
            let m = self.cells[i];
            self.cells.set(i, m | bit);
            proof {
                assert forall|px: int, py: int| #[trigger] self.is_set(px, py)
                    == (old(self).is_set(px, py) || (px == x && py == y && old(self).in_dots(px, py))) by {
                    if self.in_dots(px, py) {
                        self.lemma_same_cell(x as int, y as int, px, py);
                        lemma_dot_bit_single(x as int, y as int);
                        lemma_dot_bit_single(px, py);
                        lemma_bits(m, bit, dot_bit_of(px % 2, py % 4));
                        lemma_bits(old(self).mask(px / 2, py / 4), bit, dot_bit_of(px % 2, py % 4));
                    }
                }
            }
        }
    }

    /// Clears the dot at pixel `(x, y)`; out-of-bounds coordinates are ignored.
    pub fn unset(&mut self, x: i32, y: i32)
        requires
            old(self).wf(),
        ensures
            final(self).wf(),
            final(self).width == old(self).width,
            final(self).height == old(self).height,
            forall|px: int, py: int| #[trigger] final(self).is_set(px, py)
                == (old(self).is_set(px, py) && !(px == x && py == y)),
    {
        if let Some((i, bit)) = self.locate(x, y) {
            let m = self.cells[i];
            self.cells.set(i, m & !bit);
            proof {
                assert forall|px: int, py: int| #[trigger] self.is_set(px, py)
                    == (old(self).is_set(px, py) && !(px == x && py == y)) by {
                    if self.in_dots(px, py) {
                        self.lemma_same_cell(x as int, y as int, px, py);
                        lemma_dot_bit_single(x as int, y as int);
                        lemma_dot_bit_single(px, py);
                        lemma_bits(m, bit, dot_bit_of(px % 2, py % 4));
                        lemma_bits(old(self).mask(px / 2, py / 4), bit, dot_bit_of(px % 2, py % 4));
                    }
                }
            }
        }
    }

    /// Whether the dot at pixel `(x, y)` is set.
    pub fn get(&self, x: i32, y: i32) -> (b: bool)
        requires
            self.wf(),
        ensures
            b == self.is_set(x as int, y as int),
    {
        match self.locate(x, y) {
            Some((i, bit)) => self.cells[i] & bit != 0,
            None => false,
        }
    }

    /// The braille glyph `U+2800 + mask` of cell `(cx, cy)`, or `None` if the
    /// cell is outside the canvas or all its dots are clear.
    pub fn glyph_at(&self, cx: u16, cy: u16) -> (g: Option<char>)
        requires
            self.wf(),
        ensures
            g is Some <==> (cx < self.width && cy < self.height && self.mask(cx as int, cy as int) != 0),
            g matches Some(ch) ==> ch as u32 == 0x2800 + self.mask(cx as int, cy as int),
    {
        if cx >= self.width || cy >= self.height {
            return None;
        }
        proof {
            lemma_grid_index(cx as int, cy as int, cx as int, cy as int, self.width as int, self.height as int);
            lemma_area_fits(self.width, self.height);
            assert(0 <= cy as int * self.width as int) by (nonlinear_arith) requires cy >= 0, self.width >= 0;
        }
        let bits = self.cells[(cy as usize) * (self.width as usize) + (cx as usize)];
        if bits == 0 {
            None
        } else {
            let c = char_from_u32(0x2800 + bits as u32);
            match c {
                Some(ch) => Some(ch),
                None => None,
            }
        }
    }
}


impl BrailleCanvas {
    /// Sets every listed dot (those off the canvas are ignored).
    fn set_points(&mut self, pts: &Vec<(i32, i32)>)
        requires
            old(self).wf(),
        ensures
            final(self).wf(),
            final(self).width == old(self).width,
            final(self).height == old(self).height,
            forall|px: int, py: int| #[trigger] final(self).is_set(px, py)
                == (old(self).is_set(px, py) || (old(self).in_dots(px, py) && pts_contains(pts@, (px, py)))),
    {
        let mut i: usize = 0;
        while i < pts.len()
            invariant
                i <= pts@.len(),
                self.wf(),
                self.width == old(self).width,
                self.height == old(self).height,
                forall|px: int, py: int| #[trigger] self.is_set(px, py)
                    == (old(self).is_set(px, py) || (old(self).in_dots(px, py) && pts_contains(pts@.take(i as int), (px, py)))),
            decreases pts@.len() - i,
        {
            let (x, y) = pts[i];
            let ghost before = *self;
            self.set(x, y);
            proof {
                assert forall|px: int, py: int| #[trigger] self.is_set(px, py)
                    == (old(self).is_set(px, py) || (old(self).in_dots(px, py) && pts_contains(pts@.take(i as int + 1), (px, py)))) by {
                    let a = pts_contains(pts@.take(i as int), (px, py));
                    let b = pts_contains(pts@.take(i as int + 1), (px, py));
                    if a {
                        let j = choose|j: int| 0 <= j < pts@.take(i as int).len() && pt_int(#[trigger] pts@.take(i as int)[j]) == (px, py);
                        assert(pts@.take(i as int + 1)[j] == pts@.take(i as int)[j]);
                    }
                    if px == x && py == y {
                        assert(pts@.take(i as int + 1)[i as int] == pts@[i as int]);
                    }
                    if b {
                        let j = choose|j: int| 0 <= j < pts@.take(i as int + 1).len() && pt_int(#[trigger] pts@.take(i as int + 1)[j]) == (px, py);
                        if j < i {
                            assert(pts@.take(i as int + 1)[j] == pts@.take(i as int)[j]);
                        }
                    }
                    assert(b == (a || (px == x && py == y)));
                }
            }
            i = i + 1;
        }
        proof {
            assert(pts@.take(pts@.len() as int) =~= pts@);
        }
    }

    /// Bresenham line between two dot coordinates, clipped to the canvas first,
    /// so the walk is bounded by the canvas even for enormous coordinates.
    pub fn line(&mut self, x0: i32, y0: i32, x1: i32, y1: i32)
        requires
            old(self).wf(),
        ensures
            final(self).wf(),
            final(self).width == old(self).width,
            final(self).height == old(self).height,
            forall|px: int, py: int| #[trigger] final(self).is_set(px, py)
                == (old(self).is_set(px, py) || (old(self).in_dots(px, py)
                    && line_dots(x0 as int, y0 as int, x1 as int, y1 as int, old(self).dots_w() - 1, old(self).dots_h() - 1).contains((px, py)))),
    {
        let max_x = self.pixel_width() as i32 - 1;
        let max_y = self.pixel_height() as i32 - 1;
        match clip_line_to_bounds(x0, y0, x1, y1, max_x, max_y) {
            Some(((a0, b0), (a1, b1))) => {
                let pts = segment_points(a0, b0, a1, b1);
                self.set_points(&pts);
                proof {
                    assert forall|px: int, py: int| pts_contains(pts@, (px, py))
                        == segment_dots(a0 as int, b0 as int, a1 as int, b1 as int).contains((px, py)) by {
                        if pts_contains(pts@, (px, py)) {
                            let j = choose|j: int| 0 <= j < pts@.len() && pt_int(#[trigger] pts@[j]) == (px, py);
                        }
                    }
                }
            },
            None => {},
        }
    }

    /// Lines between consecutive points.
    pub fn polyline(&mut self, points: &[(i32, i32)])
        requires
            old(self).wf(),
        ensures
            final(self).wf(),
            final(self).width == old(self).width,
            final(self).height == old(self).height,
            forall|px: int, py: int| #[trigger] final(self).is_set(px, py)
                == (old(self).is_set(px, py) || (old(self).in_dots(px, py)
                    && polyline_covers(points@, old(self).dots_w() - 1, old(self).dots_h() - 1, points@.len() - 1, px, py))),
    {
        if points.len() < 2 {
            return;
        }
        let mut i: usize = 0;
        let n = points.len() - 1;
        while i < n
            invariant
                n == points@.len() - 1,
                points@.len() >= 2,
                i + 1 <= points@.len(),
                self.wf(),
                self.width == old(self).width,
                self.height == old(self).height,
                forall|px: int, py: int| #[trigger] self.is_set(px, py)
                    == (old(self).is_set(px, py) || (old(self).in_dots(px, py)
                        && polyline_covers(points@, old(self).dots_w() - 1, old(self).dots_h() - 1, i as int, px, py))),
            decreases points@.len() - i,
        {
            let (ax, ay) = points[i];
            let (bx, by) = points[i + 1];
            self.line(ax, ay, bx, by);
            i = i + 1;
        }
    }

    /// Closes a polygon and draws its outline.
    pub fn polygon(&mut self, points: &[(i32, i32)])
        requires
            old(self).wf(),
        ensures
            final(self).wf(),
            final(self).width == old(self).width,
            final(self).height == old(self).height,
            forall|px: int, py: int| #[trigger] final(self).is_set(px, py)
                == (old(self).is_set(px, py) || (old(self).in_dots(px, py) && points@.len() >= 2 && (
                    polyline_covers(points@, old(self).dots_w() - 1, old(self).dots_h() - 1, points@.len() - 1, px, py)
                    || line_dots(points@.last().0 as int, points@.last().1 as int, points@[0].0 as int, points@[0].1 as int,
                        old(self).dots_w() - 1, old(self).dots_h() - 1).contains((px, py))))),
    {
        if points.len() < 2 {
            return;
        }
        self.polyline(points);
        let first = points[0];
        let last = points[points.len() - 1];
        self.line(last.0, last.1, first.0, first.1);
    }

    /// Rectangle outline: the four edge lines of `w x h` dots at `(x, y)`.
    pub fn rect(&mut self, x: i32, y: i32, w: i32, h: i32)
        requires
            old(self).wf(),
        ensures
            final(self).wf(),
            final(self).width == old(self).width,
            final(self).height == old(self).height,
            forall|px: int, py: int| #[trigger] final(self).is_set(px, py)
                == (old(self).is_set(px, py) || (old(self).in_dots(px, py) && w > 0 && h > 0
                    && rect_outline_covers(x as int, y as int, w as int, h as int, old(self).dots_w() - 1, old(self).dots_h() - 1, px, py))),
    {
        if w <= 0 || h <= 0 {
            return;
        }
        let x1 = saturating_add_i32(x, w - 1);
        let y1 = saturating_add_i32(y, h - 1);
        self.line(x, y, x1, y);
        self.line(x, y1, x1, y1);
        self.line(x, y, x, y1);
        self.line(x1, y, x1, y1);
    }

    /// Filled rectangle of `w x h` dots at `(x, y)`.
    pub fn filled_rect(&mut self, x: i32, y: i32, w: i32, h: i32)
        requires
            old(self).wf(),
            i32::MIN <= x + w <= i32::MAX,
            i32::MIN <= y + h <= i32::MAX,
        ensures
            final(self).wf(),
            final(self).width == old(self).width,
            final(self).height == old(self).height,
            forall|px: int, py: int| #[trigger] final(self).is_set(px, py)
                == (old(self).is_set(px, py) || (old(self).in_dots(px, py) && x <= px < x + w && y <= py < y + h)),
    {
        let x_end: i32 = x + w;
        let y_end: i32 = y + h;
        let mut yy = y;
        while yy < y_end
            invariant
                y_end == y + h,
                x_end == x + w,
                y <= yy,
                h > 0 ==> yy <= y_end,
                h <= 0 ==> yy == y,
                self.wf(),
                self.width == old(self).width,
                self.height == old(self).height,
                forall|px: int, py: int| #[trigger] self.is_set(px, py)
                    == (old(self).is_set(px, py) || (old(self).in_dots(px, py) && x <= px < x + w && y <= py < yy)),
            decreases y_end - yy,
        {
            let mut xx = x;
            while xx < x_end
                invariant
                    y_end == y + h,
                    x_end == x + w,
                    x <= xx,
                    w > 0 ==> xx <= x_end,
                    w <= 0 ==> xx == x,
                    y <= yy < y_end,
                    self.wf(),
                    self.width == old(self).width,
                    self.height == old(self).height,
                    forall|px: int, py: int| #[trigger] self.is_set(px, py)
                        == (old(self).is_set(px, py) || (old(self).in_dots(px, py) && x <= px < x + w
                            && (y <= py < yy || (py == yy && px < xx)))),
                decreases x_end - xx,
            {
                self.set(xx, yy);
                xx = xx + 1;
            }
            yy = yy + 1;
        }
    }
}

/// `(px, py)` lies on one of the first `k` segments of the polyline, clipped
/// to `[0, max_x] x [0, max_y]`.
pub open spec fn polyline_covers(points: Seq<(i32, i32)>, max_x: int, max_y: int, k: int, px: int, py: int) -> bool {
    exists|i: int| 0 <= i < k && i + 1 < points.len() && #[trigger] line_dots(
        points[i].0 as int, points[i].1 as int, points[i + 1].0 as int, points[i + 1].1 as int, max_x, max_y).contains((px, py))
}

/// `a + b` saturated into the `i32` range.
pub open spec fn sat_add(a: int, b: int) -> int {
    if a + b > i32::MAX { i32::MAX as int } else if a + b < i32::MIN { i32::MIN as int } else { a + b }
}

/// `i32::saturating_add`: the sum clamped into the `i32` range.
pub fn saturating_add_i32(a: i32, b: i32) -> (r: i32)
    ensures
        r == sat_add(a as int, b as int),
{
    let s: i64 = a as i64 + b as i64;
    if s > i32::MAX as i64 {
        i32::MAX
    } else if s < i32::MIN as i64 {
        i32::MIN
    } else {
        s as i32
    }
}

/// `(px, py)` lies on one of the four (clipped) edge lines of the rectangle.
pub open spec fn rect_outline_covers(x: int, y: int, w: int, h: int, max_x: int, max_y: int, px: int, py: int) -> bool {
    let x1 = sat_add(x, w - 1);
    let y1 = sat_add(y, h - 1);
    ||| line_dots(x, y, x1, y, max_x, max_y).contains((px, py))
    ||| line_dots(x, y1, x1, y1, max_x, max_y).contains((px, py))
    ||| line_dots(x, y, x, y1, max_x, max_y).contains((px, py))
    ||| line_dots(x1, y, x1, y1, max_x, max_y).contains((px, py))
}


/// The eight symmetric octant images of the offset `(x, y)`.
pub open spec fn sym8(x: int, y: int) -> Set<(int, int)> {
    set![(x, y), (y, x), (-y, x), (-x, y), (-x, -y), (-y, -x), (y, -x), (x, -y)]
}

/// Offsets from the centre plotted by the midpoint circle walk from `(x, y)`
/// with decision term `err`; `fuel` bounds the number of steps.
pub open spec fn circle_offsets(x: int, y: int, err: int, fuel: nat) -> Set<(int, int)>
    decreases fuel,
{
    if fuel == 0 || x < y {
        Set::empty()
    } else {
        let ny = y + 1;
        let nx = if err < 0 { x } else { x - 1 };
        let nerr = if err < 0 { err + 2 * ny + 1 } else { err + 2 * (ny - nx) + 1 };
        sym8(x, y).union(circle_offsets(nx, ny, nerr, (fuel - 1) as nat))
    }
}

/// Offsets plotted by the midpoint circle of radius `r` (none for `r < 0`).
pub open spec fn circle_outline(r: int) -> Set<(int, int)> {
    if r < 0 { Set::empty() } else { circle_offsets(r, 0, 1 - r, (r + 1) as nat) }
}

/// `k` is `sqrt(n)` rounded to the nearest integer.
pub open spec fn is_round_sqrt(n: int, k: int) -> bool {
    &&& k >= 0
    &&& (k == 0 || k * k - k < n)
    &&& n <= k * k + k
}

/// The rounded square root is unique.
pub proof fn lemma_round_sqrt_unique(n: int, a: int, b: int)
    requires
        is_round_sqrt(n, a),
        is_round_sqrt(n, b),
    ensures
        a == b,
{
    if a < b {
        assert(b * b - b >= a * a + a) by (nonlinear_arith) requires 0 <= a < b;
    } else if b < a {
        assert(a * a - a >= b * b + b) by (nonlinear_arith) requires 0 <= b < a;
    }
}

/// `sqrt(n)` rounded to the nearest integer, for `0 <= n < 2^64`.
pub fn round_sqrt(n: u64) -> (k: u64)
    ensures
        is_round_sqrt(n as int, k as int),
        k <= 0x1_0000_0000,
{
    let mut lo: u128 = 0;
    let mut hi: u128 = 0x1_0000_0000;
    while hi - lo > 1
        invariant
            lo < hi <= 0x1_0000_0000,
            lo * lo <= n,
            n < hi * hi,
        decreases hi - lo,
    {
        let mid: u128 = lo + (hi - lo) / 2;
        assert(mid * mid <= 0x1_0000_0000_0000_0000) by (nonlinear_arith) requires mid <= 0x1_0000_0000;
        if mid * mid <= n as u128 {
            lo = mid;
        } else {
            hi = mid;
        }
    }
    assert(hi == lo + 1);
    assert(lo * lo <= 0x1_0000_0000_0000_0000) by (nonlinear_arith) requires lo <= 0x1_0000_0000;
    let rem: u128 = n as u128 - lo * lo;
    let k: u128 = if rem > lo { lo + 1 } else { lo };
    proof {
        assert((lo + 1) * (lo + 1) == lo * lo + 2 * lo + 1) by (nonlinear_arith);
        if rem > lo {
            assert((lo + 1) * (lo + 1) - (lo + 1) == lo * lo + lo) by (nonlinear_arith);
        } else if lo > 0 {
            assert(lo * lo - lo < lo * lo) by (nonlinear_arith) requires lo > 0;
        }
    }
    k as u64
}

impl BrailleCanvas {
    /// Midpoint circle outline of radius `r` around `(cx, cy)`.
    pub fn circle(&mut self, cx: i32, cy: i32, r: i32)
        requires
            old(self).wf(),
            r < 0 || (r < i32::MAX && i32::MIN <= cx - r && cx + r <= i32::MAX && i32::MIN <= cy - r && cy + r <= i32::MAX),
        ensures
            final(self).wf(),
            final(self).width == old(self).width,
            final(self).height == old(self).height,
            forall|px: int, py: int| #[trigger] final(self).is_set(px, py)
                == (old(self).is_set(px, py) || (old(self).in_dots(px, py) && circle_outline(r as int).contains((px - cx, py - cy)))),
    {
        if r < 0 {
            return;
        }
        let mut x: i32 = r;
        let mut y: i32 = 0;
        let mut err: i64 = 1 - r as i64;
        let ghost mut fuel: nat = (r + 1) as nat;
        let ghost full = circle_outline(r as int);
        let ghost mut done: Set<(int, int)> = Set::empty();
        proof {
            assert(full == circle_offsets(x as int, y as int, err as int, fuel));
        }
        while x >= y
            invariant
                0 <= r < i32::MAX,
                i32::MIN <= cx - r && cx + r <= i32::MAX && i32::MIN <= cy - r && cy + r <= i32::MAX,
                0 <= y,
                y - 2 <= x <= r,
                y + fuel == r + 1,
                err == x * x - x + (y + 1) * (y + 1) - r * r,
                full == circle_outline(r as int),
                forall|p: (int, int)| full.contains(p) <==> (done.contains(p) || circle_offsets(x as int, y as int, err as int, fuel).contains(p)),
                self.wf(),
                self.width == old(self).width,
                self.height == old(self).height,
                forall|px: int, py: int| #[trigger] self.is_set(px, py)
                    == (old(self).is_set(px, py) || (old(self).in_dots(px, py) && done.contains((px - cx, py - cy)))),
            decreases fuel,
        {
            proof {
                assert(x * x <= r * r) by (nonlinear_arith) requires 0 <= x <= r;
                assert((y + 1) * (y + 1) <= (r + 1) * (r + 1)) by (nonlinear_arith) requires 0 <= y <= r;
                assert(r * r <= 0x4000_0000_0000_0000) by (nonlinear_arith) requires 0 <= r <= 0x7fff_ffff;
                assert((r + 1) * (r + 1) <= 0x4000_0001_0000_0000) by (nonlinear_arith) requires 0 <= r <= 0x7fff_ffff;
            }
            let ghost before = done;
            self.set(cx + x, cy + y);
            self.set(cx + y, cy + x);
            self.set(cx - y, cy + x);
            self.set(cx - x, cy + y);
            self.set(cx - x, cy - y);
            self.set(cx - y, cy - x);
            self.set(cx + y, cy - x);
            self.set(cx + x, cy - y);
            let ghost f = fuel;
            let ghost (ox, oy, oerr) = (x as int, y as int, err as int);
            y = y + 1;
            if err < 0 {
                err = err + 2 * y as i64 + 1;
            } else {
                x = x - 1;
                err = err + 2 * (y as i64 - x as i64) + 1;
            }
            proof {
                done = before.union(sym8(ox, oy));
                fuel = (fuel - 1) as nat;
                assert(circle_offsets(ox, oy, oerr, f) == sym8(ox, oy).union(circle_offsets(x as int, y as int, err as int, fuel)));
                assert(err == x * x - x + (y + 1) * (y + 1) - r * r) by (nonlinear_arith)
                    requires
                        oerr == ox * ox - ox + (oy + 1) * (oy + 1) - r * r,
                        y == oy + 1,
                        (oerr < 0 && x == ox && err == oerr + 2 * y + 1) || (oerr >= 0 && x == ox - 1 && err == oerr + 2 * (y - x) + 1);
            }
        }
        proof {
            assert(circle_offsets(x as int, y as int, err as int, fuel) == Set::<(int, int)>::empty());
            assert forall|px: int, py: int| #[trigger] self.is_set(px, py)
                == (old(self).is_set(px, py) || (old(self).in_dots(px, py) && full.contains((px - cx, py - cy)))) by {}
        }
    }

    /// Filled circle of radius `r` around `(cx, cy)`, drawn as one horizontal
    /// line per row `cy + dy` (`-r <= dy <= r`) reaching `round(sqrt(r^2 - dy^2))`
    /// dots to either side (coordinates saturate at the `i32` range).
    pub fn filled_circle(&mut self, cx: i32, cy: i32, r: i32)
        requires
            old(self).wf(),
        ensures
            final(self).wf(),
            final(self).width == old(self).width,
            final(self).height == old(self).height,
            forall|px: int, py: int| #[trigger] final(self).is_set(px, py)
                == (old(self).is_set(px, py) || (old(self).in_dots(px, py) && r >= 0
                    && filled_circle_covers(cx as int, cy as int, r as int, r as int + 1, old(self).dots_w() - 1, old(self).dots_h() - 1, px, py))),
    {
        if r < 0 {
            return;
        }
        let mut dy: i32 = -r;
        loop
            invariant
                r >= 0,
                -r <= dy <= r,
                self.wf(),
                self.width == old(self).width,
                self.height == old(self).height,
                forall|px: int, py: int| #[trigger] self.is_set(px, py)
                    == (old(self).is_set(px, py) || (old(self).in_dots(px, py)
                        && filled_circle_covers(cx as int, cy as int, r as int, dy as int, old(self).dots_w() - 1, old(self).dots_h() - 1, px, py))),
            decreases r - dy,
        {
            proof {
                assert(dy * dy <= r * r) by (nonlinear_arith) requires -r <= dy <= r, r >= 0;
                assert(r * r <= 0x4000_0000_0000_0000) by (nonlinear_arith) requires 0 <= r <= 0x7fff_ffff;
                assert(0 <= dy * dy) by (nonlinear_arith);
            }
            let rr: i64 = r as i64 * r as i64;
            let dd: i64 = dy as i64 * dy as i64;
            let k = round_sqrt((rr - dd) as u64);
            proof {
                assert(k <= r) by (nonlinear_arith)
                    requires is_round_sqrt(rr - dd, k as int), 0 <= dd, rr == r * r, r >= 0, k >= 0;
            }
            let dx: i32 = k as i32;
            let row = saturating_add_i32(cy, dy);
            self.line(saturating_add_i32(cx, -dx), row, saturating_add_i32(cx, dx), row);
            proof {
                assert(is_round_sqrt(r * r - dy * dy, dx as int));
                let mx = old(self).dots_w() - 1;
                let my = old(self).dots_h() - 1;
                assert(circle_row_dots(cx as int, cy as int, dy as int, dx as int, mx, my)
                    == line_dots(sat_add(cx as int, -dx), row as int, sat_add(cx as int, dx as int), row as int, mx, my));
                assert forall|px: int, py: int| #[trigger] self.is_set(px, py)
                    == (old(self).is_set(px, py) || (old(self).in_dots(px, py)
                        && filled_circle_covers(cx as int, cy as int, r as int, dy as int + 1, old(self).dots_w() - 1, old(self).dots_h() - 1, px, py))) by {
                    if filled_circle_covers(cx as int, cy as int, r as int, dy as int + 1, old(self).dots_w() - 1, old(self).dots_h() - 1, px, py) {
                        let (d, kk) = choose|d: int, kk: int| -r <= d < dy + 1 && is_round_sqrt(r * r - d * d, kk)
                            && #[trigger] circle_row_dots(cx as int, cy as int, d, kk, old(self).dots_w() - 1, old(self).dots_h() - 1).contains((px, py));
                        if d == dy {
                            lemma_round_sqrt_unique(r * r - d * d, kk, dx as int);
                        }
                    }
                    if line_dots(sat_add(cx as int, -dx), row as int, sat_add(cx as int, dx as int), row as int, mx, my).contains((px, py)) {
                        assert(circle_row_dots(cx as int, cy as int, dy as int, dx as int, mx, my).contains((px, py)));
                    }
                }
            }
            if dy == r {
                return;
            }
            dy = dy + 1;
        }
    }
}

/// The dots of the filled-circle row at offset `d` with half-width `k`.
pub open spec fn circle_row_dots(cx: int, cy: int, d: int, k: int, max_x: int, max_y: int) -> Set<(int, int)> {
    line_dots(sat_add(cx, -k), sat_add(cy, d), sat_add(cx, k), sat_add(cy, d), max_x, max_y)
}

/// `(px, py)` lies on one of the filled-circle rows `-r <= d < end`.
pub open spec fn filled_circle_covers(cx: int, cy: int, r: int, end: int, max_x: int, max_y: int, px: int, py: int) -> bool {
    exists|d: int, k: int| -r <= d < end && is_round_sqrt(r * r - d * d, k)
        && #[trigger] circle_row_dots(cx, cy, d, k, max_x, max_y).contains((px, py))
}


impl BrailleCanvas {
    /// A cell with a non-zero mask shows at least one set dot, and a cell with
    /// a zero mask shows none.
    proof fn lemma_mask_dots(&self, i: int)
        requires
            self.wf(),
            0 <= i < self.cells@.len(),
        ensures
            self.cells@[i] != 0 ==> exists|px: int, py: int| #[trigger] self.is_set(px, py),
            forall|px: int, py: int| self.in_dots(px, py) && grid_index(px / 2, py / 4, self.width as int) == i
                ==> (self.is_set(px, py) ==> self.cells@[i] != 0),
    {
        let w = self.width as int;
        let h = self.height as int;
        assert(w > 0) by (nonlinear_arith) requires 0 <= i < w * h, h >= 0;
        let cx = i % w;
        let cy = i / w;
        vstd::arithmetic::div_mod::lemma_fundamental_div_mod(i, w);
        assert(0 <= cx < w);
        assert(0 <= cy < h) by (nonlinear_arith) requires i == w * cy + cx, 0 <= cx < w, i < w * h, 0 <= i, w > 0;
        assert(grid_index(cx, cy, w) == i) by (nonlinear_arith) requires i == w * cy + cx;
        let m = self.cells@[i];
        lemma_byte_zero(m);
        if m != 0 {
            let (dx, dy): (int, int) = if m & 1 != 0 { (0, 0) } else if m & 2 != 0 { (0, 1) } else if m & 4 != 0 { (0, 2) }
                else if m & 8 != 0 { (1, 0) } else if m & 16 != 0 { (1, 1) } else if m & 32 != 0 { (1, 2) }
                else if m & 64 != 0 { (0, 3) } else { (1, 3) };
            let px = 2 * cx + dx;
            let py = 4 * cy + dy;
            assert(px / 2 == cx && px % 2 == dx);
            assert(py / 4 == cy && py % 4 == dy);
            assert(self.is_set(px, py));
        }
        assert forall|px: int, py: int| self.in_dots(px, py) && grid_index(px / 2, py / 4, self.width as int) == i
            implies (self.is_set(px, py) ==> self.cells@[i] != 0) by {
            lemma_dot_bit_single(px, py);
        }
    }

    /// True when every dot is clear.
    pub fn is_empty(&self) -> (b: bool)
        requires
            self.wf(),
        ensures
            b == (forall|px: int, py: int| !#[trigger] self.is_set(px, py)),
    {
        let mut i: usize = 0;
        while i < self.cells.len()
            invariant
                self.wf(),
                i <= self.cells@.len(),
                forall|j: int| 0 <= j < i ==> self.cells@[j] == 0,
            decreases self.cells@.len() - i,
        {
            if self.cells[i] != 0 {
                proof {
                    self.lemma_mask_dots(i as int);
                }
                return false;
            }
            i = i + 1;
        }
        proof {
            assert forall|px: int, py: int| !#[trigger] self.is_set(px, py) by {
                if self.in_dots(px, py) {
                    self.lemma_same_cell(px, py, px, py);
                    self.lemma_mask_dots(grid_index(px / 2, py / 4, self.width as int));
                }
            }
        }
        true
    }
}


/// A glyph holding exactly the character `c`.
pub fn char_glyph(c: char) -> (g: Glyph)
    ensures
        g.grapheme@ == seq![c],
        g.display_width == glyph_width(seq![c]),
{
    let mut s = String::new();
    push_char(&mut s, c);
    proof {
        assert(s@ =~= seq![c]);
    }
    Glyph::new(s.as_str())
}

/// `c` is the opaque cell that shows the braille pattern `mask` in `style`.
pub open spec fn is_braille_cell(c: Cell, mask: u8, style: Style) -> bool {
    &&& c.glyph.grapheme@.len() == 1
    &&& c.glyph.grapheme@[0] as u32 == 0x2800 + mask
    &&& c.glyph.display_width == glyph_width(c.glyph.grapheme@)
    &&& c.style == style
    &&& !c.is_continuation && !c.transparent && !c.style_only
}

impl BrailleCanvas {
    /// Paints every non-empty cell into `surface` at `origin` with `style`;
    /// surface cells under empty canvas cells are left as they were. Every
    /// non-empty cell must land at a coordinate that fits in 16 bits.
    pub fn paint_into(&self, surface: &mut Surface, origin: (u16, u16), style: Style)
        requires
            self.wf(),
            old(surface).wf(),
            forall|cx: int, cy: int| 0 <= cx < self.width && 0 <= cy < self.height && #[trigger] self.mask(cx, cy) != 0
                ==> origin.0 + cx <= u16::MAX && origin.1 + cy <= u16::MAX,
        ensures
            final(surface).wf(),
            final(surface).width == old(surface).width,
            final(surface).height == old(surface).height,
            forall|px: int, py: int| final(surface).in_bounds(px, py) ==> {
                let cx = px - origin.0;
                let cy = py - origin.1;
                if 0 <= cx < self.width && 0 <= cy < self.height && self.mask(cx, cy) != 0 {
                    is_braille_cell(#[trigger] final(surface).at(px, py), self.mask(cx, cy), style)
                } else {
                    final(surface).at(px, py) == old(surface).at(px, py)
                }
            },
    {
        let mut cy: u16 = 0;
        while cy < self.height
            invariant
                self.wf(),
                surface.wf(),
                surface.width == old(surface).width,
                surface.height == old(surface).height,
                cy <= self.height,
                forall|cx: int, cy: int| 0 <= cx < self.width && 0 <= cy < self.height && #[trigger] self.mask(cx, cy) != 0
                    ==> origin.0 + cx <= u16::MAX && origin.1 + cy <= u16::MAX,
                forall|px: int, py: int| surface.in_bounds(px, py) ==> {
                    let cx = px - origin.0;
                    let ccy = py - origin.1;
                    if 0 <= cx < self.width && 0 <= ccy < cy && self.mask(cx, ccy) != 0 {
                        is_braille_cell(#[trigger] surface.at(px, py), self.mask(cx, ccy), style)
                    } else {
                        surface.at(px, py) == old(surface).at(px, py)
                    }
                },
            decreases self.height - cy,
        {
            let mut cx: u16 = 0;
            while cx < self.width
                invariant
                    self.wf(),
                    surface.wf(),
                    surface.width == old(surface).width,
                    surface.height == old(surface).height,
                    cy < self.height,
                    cx <= self.width,
                    forall|cx: int, cy: int| 0 <= cx < self.width && 0 <= cy < self.height && #[trigger] self.mask(cx, cy) != 0
                        ==> origin.0 + cx <= u16::MAX && origin.1 + cy <= u16::MAX,
                    forall|px: int, py: int| surface.in_bounds(px, py) ==> {
                        let ccx = px - origin.0;
                        let ccy = py - origin.1;
                        if 0 <= ccx < self.width && 0 <= ccy < self.height && (ccy < cy || (ccy == cy && ccx < cx))
                            && self.mask(ccx, ccy) != 0 {
                            is_braille_cell(#[trigger] surface.at(px, py), self.mask(ccx, ccy), style)
                        } else {
                            surface.at(px, py) == old(surface).at(px, py)
                        }
                    },
                decreases self.width - cx,
            {
                if let Some(ch) = self.glyph_at(cx, cy) {
                    let x = origin.0 + cx;
                    let y = origin.1 + cy;
                    surface.set_cell(x, y, Cell::new(char_glyph(ch), style));
                }
                cx = cx + 1;
            }
            cy = cy + 1;
        }
    }

    /// A standalone surface of exactly `width x height` cells: braille glyphs
    /// where dots are set, blank spaces elsewhere.
    pub fn to_surface(&self, style: Style) -> (s: Surface)
        requires
            self.wf(),
        ensures
            s.wf(),
            s.width == self.width,
            s.height == self.height,
            forall|x: int, y: int| s.in_bounds(x, y) ==> if self.mask(x, y) != 0 {
                is_braille_cell(#[trigger] s.at(x, y), self.mask(x, y), style)
            } else {
                crate::cell::is_space_cell(s.at(x, y), plain_style())
            },
    {
        let mut s = Surface::new(self.width, self.height);
        self.paint_into(&mut s, (0, 0), style);
        s
    }

    /// Plain text rows: the braille glyph of each cell, a space for empty cells.
    pub fn to_lines(&self) -> (lines: Vec<String>)
        requires
            self.wf(),
        ensures
            lines@.len() == self.height,
            forall|y: int| 0 <= y < self.height ==> (#[trigger] lines@[y])@.len() == self.width,
            forall|x: int, y: int| 0 <= x < self.width && 0 <= y < self.height ==> {
                let c = #[trigger] lines@[y]@[x];
                if self.mask(x, y) != 0 { c as u32 == 0x2800 + self.mask(x, y) } else { c == ' ' }
            },
    {
        let mut lines: Vec<String> = Vec::new();
        let mut cy: u16 = 0;
        while cy < self.height
            invariant
                self.wf(),
                cy <= self.height,
                lines@.len() == cy,
                forall|y: int| 0 <= y < cy ==> (#[trigger] lines@[y])@.len() == self.width,
                forall|x: int, y: int| 0 <= x < self.width && 0 <= y < cy ==> {
                    let c = #[trigger] lines@[y]@[x];
                    if self.mask(x, y) != 0 { c as u32 == 0x2800 + self.mask(x, y) } else { c == ' ' }
                },
            decreases self.height - cy,
        {
            let mut row = String::new();
            let mut cx: u16 = 0;
            while cx < self.width
                invariant
                    self.wf(),
                    cy < self.height,
                    cx <= self.width,
                    row@.len() == cx,
                    forall|x: int| 0 <= x < cx ==> {
                        let c = #[trigger] row@[x];
                        if self.mask(x, cy as int) != 0 { c as u32 == 0x2800 + self.mask(x, cy as int) } else { c == ' ' }
                    },
                decreases self.width - cx,
            {
                let c = match self.glyph_at(cx, cy) {
                    Some(ch) => ch,
                    None => ' ',
                };
                push_char(&mut row, c);
                cx = cx + 1;
            }
            lines.push(row);
            cy = cy + 1;
        }
        lines
    }

    /// One line per canvas row, styled with `style`.
    pub fn to_rich_text(&self, style: Style) -> (rt: RichText)
        requires
            self.wf(),
        ensures
            rt.lines@.len() == self.height,
            forall|y: int| 0 <= y < self.height ==> {
                let l = #[trigger] rt.lines@[y];
                &&& l.spans@.len() == 1
                &&& l.spans@[0].style == style
                &&& l.spans@[0].text@.len() == self.width
                &&& forall|x: int| 0 <= x < self.width ==> {
                    let c = #[trigger] l.spans@[0].text@[x];
                    if self.mask(x, y) != 0 { c as u32 == 0x2800 + self.mask(x, y) } else { c == ' ' }
                }
            },
    {
        let lines = self.to_lines();
        let mut rt = RichText::new();
        let mut i: usize = 0;
        while i < lines.len()
            invariant
                self.wf(),
                lines@.len() == self.height,
                i <= lines@.len(),
                rt.lines@.len() == i,
                forall|y: int| 0 <= y < self.height ==> (#[trigger] lines@[y])@.len() == self.width,
                forall|x: int, y: int| 0 <= x < self.width && 0 <= y < self.height ==> {
                    let c = #[trigger] lines@[y]@[x];
                    if self.mask(x, y) != 0 { c as u32 == 0x2800 + self.mask(x, y) } else { c == ' ' }
                },
                forall|y: int| 0 <= y < i ==> {
                    let l = #[trigger] rt.lines@[y];
                    &&& l.spans@.len() == 1
                    &&& l.spans@[0].style == style
                    &&& l.spans@[0].text@ == lines@[y]@
                },
            decreases lines@.len() - i,
        {
            rt = rt.line(Line::styled(lines[i].as_str(), style));
            i = i + 1;
        }
        proof {
            assert forall|y: int| 0 <= y < self.height implies {
                let l = #[trigger] rt.lines@[y];
                &&& l.spans@.len() == 1
                &&& l.spans@[0].style == style
                &&& l.spans@[0].text@.len() == self.width
                &&& forall|x: int| 0 <= x < self.width ==> {
                    let c = #[trigger] l.spans@[0].text@[x];
                    if self.mask(x, y) != 0 { c as u32 == 0x2800 + self.mask(x, y) } else { c == ' ' }
                }
            } by {
                assert forall|x: int| 0 <= x < self.width implies {
                    let c = #[trigger] rt.lines@[y].spans@[0].text@[x];
                    if self.mask(x, y) != 0 { c as u32 == 0x2800 + self.mask(x, y) } else { c == ' ' }
                } by {
                    assert(rt.lines@[y].spans@[0].text@[x] == lines@[y]@[x]);
                }
            }
        }
        rt
    }
}

/// Fills a rectangle of `w x h` dots at `(x, y)` in a braille canvas.
pub fn braille_fill_rect(c: &mut BrailleCanvas, x: i32, y: i32, w: i32, h: i32)
    requires
        old(c).wf(),
        i32::MIN <= x + w <= i32::MAX,
        i32::MIN <= y + h <= i32::MAX,
    ensures
        final(c).wf(),
        final(c).width == old(c).width,
        final(c).height == old(c).height,
        forall|px: int, py: int| #[trigger] final(c).is_set(px, py)
            == (old(c).is_set(px, py) || (old(c).in_dots(px, py) && x <= px < x + w && y <= py < y + h)),
{
    c.filled_rect(x, y, w, h);
}


/// RGB raster canvas: `width` by `2 * height` addressable pixels, rendered as
/// upper-half-block cells (top pixel = foreground, bottom pixel = background).
#[derive(Debug, Clone, PartialEq, Eq)]
pub struct HalfBlockCanvas {
    pub width: u16,
    pub height: u16,
    /// One optional color per pixel, row-major over `width x 2 * height`.
    pub pixels: Vec<Option<(u8, u8, u8)>>,
}

impl HalfBlockCanvas {
    /// One slot per pixel, and pixel rows addressable in `u16`.
    pub open spec fn wf(&self) -> bool {
        &&& self.pixels@.len() == self.width as int * (2 * self.height as int)
        &&& self.height <= 32767
    }

    pub open spec fn in_pixels(&self, x: int, y: int) -> bool {
        0 <= x < self.width && 0 <= y < 2 * self.height
    }

    /// The color of pixel `(x, y)`; `None` when unset or outside the canvas.
    pub open spec fn pixel(&self, x: int, y: int) -> Option<(u8, u8, u8)> {
        if self.in_pixels(x, y) { self.pixels@[grid_index(x, y, self.width as int)] } else { None }
    }

    /// A canvas with every pixel unset.
    pub fn new(width: u16, height: u16) -> (c: Self)
        requires
            width as int * height as int * 2 <= usize::MAX,
        ensures
            c.width == width,
            c.height == height,
            c.pixels@.len() == width as int * (2 * height as int),
            forall|i: int| 0 <= i < c.pixels@.len() ==> c.pixels@[i] is None,
    {
        proof {
            assert(width as int * (2 * height as int) <= 0x1_FFFC_0002) by (nonlinear_arith) requires width <= 0xFFFF, height <= 0xFFFF;
            assert(width as int * (2 * height as int) >= 0) by (nonlinear_arith) requires width >= 0, height >= 0;
        }
        proof {
            assert(width as int * height as int >= 0) by (nonlinear_arith) requires width >= 0, height >= 0;
        }
        let n: usize = (width as usize) * (height as usize) * 2;
        proof {
            assert(n == width as int * (2 * height as int)) by (nonlinear_arith) requires n == width * height * 2;
        }
        let mut pixels: Vec<Option<(u8, u8, u8)>> = Vec::new();
        let mut i: usize = 0;
        while i < n
            invariant
                i <= n,
                pixels@.len() == i,
                forall|j: int| 0 <= j < i ==> pixels@[j] is None,
            decreases n - i,
        {
            pixels.push(None);
            i = i + 1;
        }
        HalfBlockCanvas { width, height, pixels }
    }

    /// Addressable pixel columns: one per terminal cell.
    pub fn pixel_width(&self) -> (w: u16)
        ensures
            w == self.width,
    {
        self.width
    }

    /// Addressable pixel rows: two per terminal cell.
    pub fn pixel_height(&self) -> (h: u16)
        requires
            self.height <= 32767,
        ensures
            h == 2 * self.height,
    {
        self.height * 2
    }

    /// Unsets every pixel.
    pub fn clear(&mut self)
        ensures
            final(self).width == old(self).width,
            final(self).height == old(self).height,
            final(self).pixels@.len() == old(self).pixels@.len(),
            forall|i: int| 0 <= i < final(self).pixels@.len() ==> final(self).pixels@[i] is None,
    {
        let mut i: usize = 0;
        while i < self.pixels.len()
            invariant
                i <= self.pixels@.len(),
                self.pixels@.len() == old(self).pixels@.len(),
                self.width == old(self).width,
                self.height == old(self).height,
                forall|j: int| 0 <= j < i ==> self.pixels@[j] is None,
            decreases self.pixels@.len() - i,
        {
            self.pixels.set(i, None);
            i = i + 1;
        }
    }

    /// True when no pixel is set.
    pub fn is_empty(&self) -> (b: bool)
        requires
            self.wf(),
        ensures
            b == (forall|x: int, y: int| #[trigger] self.pixel(x, y) is None),
    {
        let mut i: usize = 0;
        while i < self.pixels.len()
            invariant
                self.wf(),
                i <= self.pixels@.len(),
                forall|j: int| 0 <= j < i ==> self.pixels@[j] is None,
            decreases self.pixels@.len() - i,
        {
            if self.pixels[i].is_some() {
                proof {
                    let w = self.width as int;
                    let h2 = 2 * self.height as int;
                    let k = i as int;
                    assert(w > 0) by (nonlinear_arith) requires 0 <= k < w * h2, h2 >= 0;
                    vstd::arithmetic::div_mod::lemma_fundamental_div_mod(k, w);
                    assert(0 <= k / w < h2) by (nonlinear_arith) requires k == w * (k / w) + k % w, 0 <= k % w < w, k < w * h2, 0 <= k, w > 0;
                    assert(grid_index(k % w, k / w, w) == k) by (nonlinear_arith) requires k == w * (k / w) + k % w;
                    assert(self.pixel(k % w, k / w) is Some);
                }
                return false;
            }
            i = i + 1;
        }
        proof {
            assert forall|x: int, y: int| #[trigger] self.pixel(x, y) is None by {
                if self.in_pixels(x, y) {
                    lemma_grid_index(x, y, x, y, self.width as int, 2 * self.height as int);
                }
            }
        }
        true
    }

    fn index(&self, x: i32, y: i32) -> (r: Option<usize>)
        requires
            self.wf(),
        ensures
            match r {
                Some(i) => self.in_pixels(x as int, y as int) && i == grid_index(x as int, y as int, self.width as int)
                    && i < self.pixels@.len(),
                None => !self.in_pixels(x as int, y as int),
            },
    {
        if x < 0 || y < 0 || x >= self.pixel_width() as i32 || y >= self.pixel_height() as i32 {
            return None;
        }
        let len = self.pixels.len();
        proof {
            lemma_grid_index(x as int, y as int, x as int, y as int, self.width as int, 2 * self.height as int);
            assert(0 <= y as int * self.width as int) by (nonlinear_arith) requires y >= 0, self.width >= 0;
        }
        Some((y as usize) * (self.pixel_width() as usize) + (x as usize))
    }

    /// Sets a pixel; out-of-bounds writes are ignored.
    pub fn set_pixel(&mut self, x: i32, y: i32, rgb: (u8, u8, u8))
        requires
            old(self).wf(),
        ensures
            final(self).wf(),
            final(self).width == old(self).width,
            final(self).height == old(self).height,
            forall|px: int, py: int| #[trigger] final(self).pixel(px, py)
                == (if px == x && py == y && old(self).in_pixels(px, py) { Some(rgb) } else { old(self).pixel(px, py) }),
    {
        self.write_pixel(x, y, Some(rgb));
    }

    /// Unsets a pixel; out-of-bounds writes are ignored.
    pub fn clear_pixel(&mut self, x: i32, y: i32)
        requires
            old(self).wf(),
        ensures
            final(self).wf(),
            final(self).width == old(self).width,
            final(self).height == old(self).height,
            forall|px: int, py: int| #[trigger] final(self).pixel(px, py)
                == (if px == x && py == y { None } else { old(self).pixel(px, py) }),
    {
        self.write_pixel(x, y, None);
    }

    fn write_pixel(&mut self, x: i32, y: i32, v: Option<(u8, u8, u8)>)
        requires
            old(self).wf(),
        ensures
            final(self).wf(),
            final(self).width == old(self).width,
            final(self).height == old(self).height,
            forall|px: int, py: int| #[trigger] final(self).pixel(px, py)
                == (if px == x && py == y && old(self).in_pixels(px, py) { v } else { old(self).pixel(px, py) }),
    {
        if let Some(i) = self.index(x, y) {
            self.pixels.set(i, v);
            proof {
                assert forall|px: int, py: int| #[trigger] self.pixel(px, py)
                    == (if px == x && py == y && old(self).in_pixels(px, py) { v } else { old(self).pixel(px, py) }) by {
                    if self.in_pixels(px, py) {
                        lemma_grid_index(x as int, y as int, px, py, self.width as int, 2 * self.height as int);
                        lemma_grid_index(px, py, px, py, self.width as int, 2 * self.height as int);
                    }
                }
            }
        }
    }

    /// The color of pixel `(x, y)`, or `None` when unset or outside.
    pub fn get_pixel(&self, x: i32, y: i32) -> (p: Option<(u8, u8, u8)>)
        requires
            self.wf(),
        ensures
            p == self.pixel(x as int, y as int),
    {
        match self.index(x, y) {
            Some(i) => self.pixels[i],
            None => None,
        }
    }

    fn set_points(&mut self, pts: &Vec<(i32, i32)>, rgb: (u8, u8, u8))
        requires
            old(self).wf(),
        ensures
            final(self).wf(),
            final(self).width == old(self).width,
            final(self).height == old(self).height,
            forall|px: int, py: int| #[trigger] final(self).pixel(px, py)
                == (if old(self).in_pixels(px, py) && pts_contains(pts@, (px, py)) { Some(rgb) } else { old(self).pixel(px, py) }),
    {
        let mut i: usize = 0;
        while i < pts.len()
            invariant
                i <= pts@.len(),
                self.wf(),
                self.width == old(self).width,
                self.height == old(self).height,
                forall|px: int, py: int| #[trigger] self.pixel(px, py)
                    == (if old(self).in_pixels(px, py) && pts_contains(pts@.take(i as int), (px, py)) { Some(rgb) } else { old(self).pixel(px, py) }),
            decreases pts@.len() - i,
        {
            let (x, y) = pts[i];
            self.set_pixel(x, y, rgb);
            proof {
                assert forall|px: int, py: int| #[trigger] self.pixel(px, py)
                    == (if old(self).in_pixels(px, py) && pts_contains(pts@.take(i as int + 1), (px, py)) { Some(rgb) } else { old(self).pixel(px, py) }) by {
                    let a = pts_contains(pts@.take(i as int), (px, py));
                    let b = pts_contains(pts@.take(i as int + 1), (px, py));
                    if a {
                        let j = choose|j: int| 0 <= j < pts@.take(i as int).len() && pt_int(#[trigger] pts@.take(i as int)[j]) == (px, py);
                        assert(pts@.take(i as int + 1)[j] == pts@.take(i as int)[j]);
                    }
                    if px == x && py == y {
                        assert(pts@.take(i as int + 1)[i as int] == pts@[i as int]);
                    }
                    if b {
                        let j = choose|j: int| 0 <= j < pts@.take(i as int + 1).len() && pt_int(#[trigger] pts@.take(i as int + 1)[j]) == (px, py);
                        if j < i {
                            assert(pts@.take(i as int + 1)[j] == pts@.take(i as int)[j]);
                        }
                    }
                    assert(b == (a || (px == x && py == y)));
                }
            }
            i = i + 1;
        }
        proof {
            assert(pts@.take(pts@.len() as int) =~= pts@);
        }
    }

    /// Bresenham line in a solid color, clipped to the canvas first.
    pub fn line(&mut self, x0: i32, y0: i32, x1: i32, y1: i32, rgb: (u8, u8, u8))
        requires
            old(self).wf(),
        ensures
            final(self).wf(),
            final(self).width == old(self).width,
            final(self).height == old(self).height,
            forall|px: int, py: int| #[trigger] final(self).pixel(px, py)
                == (if old(self).in_pixels(px, py) && line_dots(x0 as int, y0 as int, x1 as int, y1 as int,
                    old(self).width - 1, 2 * old(self).height - 1).contains((px, py)) { Some(rgb) } else { old(self).pixel(px, py) }),
    {
        let max_x = self.pixel_width() as i32 - 1;
        let max_y = self.pixel_height() as i32 - 1;
        match clip_line_to_bounds(x0, y0, x1, y1, max_x, max_y) {
            Some(((a0, b0), (a1, b1))) => {
                let pts = segment_points(a0, b0, a1, b1);
                self.set_points(&pts, rgb);
                proof {
                    assert forall|px: int, py: int| pts_contains(pts@, (px, py))
                        == segment_dots(a0 as int, b0 as int, a1 as int, b1 as int).contains((px, py)) by {
                        if pts_contains(pts@, (px, py)) {
                            let j = choose|j: int| 0 <= j < pts@.len() && pt_int(#[trigger] pts@[j]) == (px, py);
                        }
                    }
                }
            },
            None => {},
        }
    }

    /// Lines in a solid color between consecutive points.
    pub fn polyline(&mut self, points: &[(i32, i32)], rgb: (u8, u8, u8))
        requires
            old(self).wf(),
        ensures
            final(self).wf(),
            final(self).width == old(self).width,
            final(self).height == old(self).height,
            forall|px: int, py: int| #[trigger] final(self).pixel(px, py)
                == (if old(self).in_pixels(px, py) && polyline_covers(points@, old(self).width - 1, 2 * old(self).height - 1,
                    points@.len() - 1, px, py) { Some(rgb) } else { old(self).pixel(px, py) }),
    {
        if points.len() < 2 {
            return;
        }
        let mut i: usize = 0;
        let n = points.len() - 1;
        while i < n
            invariant
                n == points@.len() - 1,
                points@.len() >= 2,
                i + 1 <= points@.len(),
                self.wf(),
                self.width == old(self).width,
                self.height == old(self).height,
                forall|px: int, py: int| #[trigger] self.pixel(px, py)
                    == (if old(self).in_pixels(px, py) && polyline_covers(points@, old(self).width - 1, 2 * old(self).height - 1,
                        i as int, px, py) { Some(rgb) } else { old(self).pixel(px, py) }),
            decreases points@.len() - i,
        {
            let (ax, ay) = points[i];
            let (bx, by) = points[i + 1];
            self.line(ax, ay, bx, by, rgb);
            i = i + 1;
        }
    }

    /// Rectangle outline in a solid color.
    pub fn rect(&mut self, x: i32, y: i32, w: i32, h: i32, rgb: (u8, u8, u8))
        requires
            old(self).wf(),
        ensures
            final(self).wf(),
            final(self).width == old(self).width,
            final(self).height == old(self).height,
            forall|px: int, py: int| #[trigger] final(self).pixel(px, py)
                == (if old(self).in_pixels(px, py) && w > 0 && h > 0 && rect_outline_covers(x as int, y as int, w as int, h as int,
                    old(self).width - 1, 2 * old(self).height - 1, px, py) { Some(rgb) } else { old(self).pixel(px, py) }),
    {
        if w <= 0 || h <= 0 {
            return;
        }
        let x1 = saturating_add_i32(x, w - 1);
        let y1 = saturating_add_i32(y, h - 1);
        self.line(x, y, x1, y, rgb);
        self.line(x, y1, x1, y1, rgb);
        self.line(x, y, x, y1, rgb);
        self.line(x1, y, x1, y1, rgb);
    }
}


/// `U+2580` upper half block.
pub open spec fn upper_half() -> Seq<char> {
    seq!['\u{2580}']
}

/// `U+2584` lower half block.
pub open spec fn lower_half() -> Seq<char> {
    seq!['\u{2584}']
}

pub open spec fn rgb_color(c: (u8, u8, u8)) -> Color {
    Color::Rgb(c.0, c.1, c.2)
}

/// The half-block realization of a cell with pixels `top` and `bottom`:
/// top only -> upper half in the top color; bottom only -> lower half in the
/// bottom color; both -> upper half with the top as foreground and the
/// bottom as background. Cells with no pixel are not described here.
pub open spec fn is_half_block_cell(c: Cell, top: Option<(u8, u8, u8)>, bottom: Option<(u8, u8, u8)>) -> bool {
    &&& !c.is_continuation && !c.transparent && !c.style_only
    &&& c.glyph.display_width == glyph_width(c.glyph.grapheme@)
    &&& match (top, bottom) {
        (Some(t), None) => c.glyph.grapheme@ == upper_half() && c.style == Style { fg: Some(rgb_color(t)), ..plain_style() },
        (None, Some(b)) => c.glyph.grapheme@ == lower_half() && c.style == Style { fg: Some(rgb_color(b)), ..plain_style() },
        (Some(t), Some(b)) => c.glyph.grapheme@ == upper_half()
            && c.style == Style { fg: Some(rgb_color(t)), bg: Some(rgb_color(b)), ..plain_style() },
        (None, None) => true,
    }
}

/// The glyph and style of a half-block cell with at least one pixel.
pub(crate) fn half_block_parts(top: Option<(u8, u8, u8)>, bottom: Option<(u8, u8, u8)>) -> (r: (Glyph, Style))
    requires
        top is Some || bottom is Some,
    ensures
        is_half_block_cell(Cell { glyph: r.0, style: r.1, is_continuation: false, transparent: false, style_only: false }, top, bottom),
{
    match (top, bottom) {
        (Some(t), None) => (char_glyph('\u{2580}'), Style::new().fg(Color::Rgb(t.0, t.1, t.2))),
        (None, Some(b)) => (char_glyph('\u{2584}'), Style::new().fg(Color::Rgb(b.0, b.1, b.2))),
        (Some(t), Some(b)) => (char_glyph('\u{2580}'), Style::new().fg(Color::Rgb(t.0, t.1, t.2)).bg(Color::Rgb(b.0, b.1, b.2))),
        (None, None) => (Glyph::space(), Style::new()),
    }
}

impl HalfBlockCanvas {
    /// Converts to a surface of `width x height` cells. Cells with no pixels
    /// are explicitly transparent so the canvas composes over other layers.
    pub fn to_surface(&self) -> (s: Surface)
        requires
            self.wf(),
        ensures
            s.wf(),
            s.width == self.width,
            s.height == self.height,
            forall|x: int, y: int| s.in_bounds(x, y) ==> {
                let top = self.pixel(x, 2 * y);
                let bottom = self.pixel(x, 2 * y + 1);
                let c = #[trigger] s.at(x, y);
                if top is None && bottom is None {
                    &&& c.transparent && !c.is_continuation && !c.style_only
                    &&& c.glyph.grapheme@ == seq![' '] && c.glyph.display_width == 1
                    &&& c.style == plain_style()
                } else {
                    is_half_block_cell(c, top, bottom)
                }
            },
    {
        let mut s = Surface::new_transparent(self.width, self.height);
        let mut cy: u16 = 0;
        while cy < self.height
            invariant
                self.wf(),
                s.wf(),
                s.width == self.width,
                s.height == self.height,
                cy <= self.height,
                forall|x: int, y: int| s.in_bounds(x, y) ==> {
                    let top = self.pixel(x, 2 * y);
                    let bottom = self.pixel(x, 2 * y + 1);
                    let c = #[trigger] s.at(x, y);
                    if (top is None && bottom is None) || y >= cy {
                        &&& c.transparent && !c.is_continuation && !c.style_only
                        &&& c.glyph.grapheme@ == seq![' '] && c.glyph.display_width == 1
                        &&& c.style == plain_style()
                    } else {
                        is_half_block_cell(c, top, bottom)
                    }
                },
            decreases self.height - cy,
        {
            let mut cx: u16 = 0;
            while cx < self.width
                invariant
                    self.wf(),
                    s.wf(),
                    s.width == self.width,
                    s.height == self.height,
                    cy < self.height,
                    cx <= self.width,
                    forall|x: int, y: int| s.in_bounds(x, y) ==> {
                        let top = self.pixel(x, 2 * y);
                        let bottom = self.pixel(x, 2 * y + 1);
                        let c = #[trigger] s.at(x, y);
                        if (top is None && bottom is None) || y > cy || (y == cy && x >= cx) {
                            &&& c.transparent && !c.is_continuation && !c.style_only
                            &&& c.glyph.grapheme@ == seq![' '] && c.glyph.display_width == 1
                            &&& c.style == plain_style()
                        } else {
                            is_half_block_cell(c, top, bottom)
                        }
                    },
                decreases self.width - cx,
            {
                let top = self.get_pixel(cx as i32, cy as i32 * 2);
                let bottom = self.get_pixel(cx as i32, cy as i32 * 2 + 1);
                if top.is_some() || bottom.is_some() {
                    let (glyph, style) = half_block_parts(top, bottom);
                    s.set_cell(cx, cy, Cell::new(glyph, style));
                }
                cx = cx + 1;
            }
            cy = cy + 1;
        }
        s
    }

    /// Composites the canvas onto `surface` at `origin`, respecting
    /// transparency: cells with no pixels leave the surface untouched.
    pub fn paint_into(&self, surface: &mut Surface, origin: (u16, u16))
        requires
            self.wf(),
            old(surface).wf(),
        ensures
            final(surface).wf(),
            final(surface).width == old(surface).width,
            final(surface).height == old(surface).height,
            forall|px: int, py: int| final(surface).in_bounds(px, py) ==> {
                let x = px - origin.0;
                let y = py - origin.1;
                let top = self.pixel(x, 2 * y);
                let bottom = self.pixel(x, 2 * y + 1);
                if 0 <= x < self.width && 0 <= y < self.height && (top is Some || bottom is Some) {
                    is_half_block_cell(#[trigger] final(surface).at(px, py), top, bottom)
                } else {
                    final(surface).at(px, py) == old(surface).at(px, py)
                }
            },
    {
        let layer = self.to_surface();
        surface.blit_transparent_at(&layer, origin.0, origin.1);
    }

    /// Styled text view: one line per cell row, one span per cell; cells with
    /// no pixels are unstyled spaces.
    pub fn to_rich_text(&self) -> (rt: RichText)
        requires
            self.wf(),
        ensures
            rt.lines@.len() == self.height,
            forall|y: int| 0 <= y < self.height ==> {
                let l = #[trigger] rt.lines@[y];
                &&& l.spans@.len() == self.width
                &&& forall|x: int| 0 <= x < self.width ==> {
                    let sp = #[trigger] l.spans@[x];
                    let top = self.pixel(x, 2 * y);
                    let bottom = self.pixel(x, 2 * y + 1);
                    if top is None && bottom is None {
                        sp.text@ == seq![' '] && sp.style == plain_style()
                    } else {
                        is_half_block_cell(Cell { glyph: Glyph { grapheme: sp.text, display_width: glyph_width(sp.text@) }, style: sp.style,
                            is_continuation: false, transparent: false, style_only: false }, top, bottom)
                    }
                }
            },
    {
        let mut rt = RichText::new();
        let mut cy: u16 = 0;
        while cy < self.height
            invariant
                self.wf(),
                cy <= self.height,
                rt.lines@.len() == cy,
                forall|y: int| 0 <= y < cy ==> {
                    let l = #[trigger] rt.lines@[y];
                    &&& l.spans@.len() == self.width
                    &&& forall|x: int| 0 <= x < self.width ==> {
                        let sp = #[trigger] l.spans@[x];
                        let top = self.pixel(x, 2 * y);
                        let bottom = self.pixel(x, 2 * y + 1);
                        if top is None && bottom is None {
                            sp.text@ == seq![' '] && sp.style == plain_style()
                        } else {
                            is_half_block_cell(Cell { glyph: Glyph { grapheme: sp.text, display_width: glyph_width(sp.text@) }, style: sp.style,
                                is_continuation: false, transparent: false, style_only: false }, top, bottom)
                        }
                    }
                },
            decreases self.height - cy,
        {
            let mut line = Line::new();
            let mut cx: u16 = 0;
            while cx < self.width
                invariant
                    self.wf(),
                    cy < self.height,
                    cx <= self.width,
                    line.spans@.len() == cx,
                    forall|x: int| 0 <= x < cx ==> {
                        let sp = #[trigger] line.spans@[x];
                        let top = self.pixel(x, 2 * cy);
                        let bottom = self.pixel(x, 2 * cy + 1);
                        if top is None && bottom is None {
                            sp.text@ == seq![' '] && sp.style == plain_style()
                        } else {
                            is_half_block_cell(Cell { glyph: Glyph { grapheme: sp.text, display_width: glyph_width(sp.text@) }, style: sp.style,
                                is_continuation: false, transparent: false, style_only: false }, top, bottom)
                        }
                    },
                decreases self.width - cx,
            {
                let top = self.get_pixel(cx as i32, cy as i32 * 2);
                let bottom = self.get_pixel(cx as i32, cy as i32 * 2 + 1);
                if top.is_none() && bottom.is_none() {
                    let g = Glyph::space();
                    line = line.span(Span { text: g.grapheme, style: Style::new() });
                } else {
                    let (glyph, style) = half_block_parts(top, bottom);
                    line = line.span(Span { text: glyph.grapheme, style });
                }
                cx = cx + 1;
            }
            rt = rt.line(line);
            cy = cy + 1;
        }
        rt
    }
}


/// Setting a clear dot and then unsetting it gives back the canvas's dots:
/// `c1` is `c0` after `set(x, y)` and `c2` is `c1` after `unset(x, y)`.
pub proof fn law_unset_undoes_set(c0: BrailleCanvas, c1: BrailleCanvas, c2: BrailleCanvas, x: int, y: int)
    requires
        !c0.is_set(x, y),
        forall|px: int, py: int| #[trigger] c1.is_set(px, py) == (c0.is_set(px, py) || (px == x && py == y && c0.in_dots(px, py))),
        forall|px: int, py: int| #[trigger] c2.is_set(px, py) == (c1.is_set(px, py) && !(px == x && py == y)),
    ensures
        forall|px: int, py: int| #[trigger] c2.is_set(px, py) == c0.is_set(px, py),
{
    assert forall|px: int, py: int| #[trigger] c2.is_set(px, py) == c0.is_set(px, py) by {
        assert(c1.is_set(px, py) == (c0.is_set(px, py) || (px == x && py == y && c0.in_dots(px, py))));
    }
}

/// A set dot reads back as set, for every dot inside the canvas: `c1` is
/// `c0` after `set(x, y)`.
pub proof fn law_get_after_set(c0: BrailleCanvas, c1: BrailleCanvas, x: int, y: int)
    requires
        c0.in_dots(x, y),
        forall|px: int, py: int| #[trigger] c1.is_set(px, py) == (c0.is_set(px, py) || (px == x && py == y && c0.in_dots(px, py))),
    ensures
        c1.is_set(x, y),
{
    assert(c1.is_set(x, y) == (c0.is_set(x, y) || (x == x && y == y && c0.in_dots(x, y))));
}

} // verus!
