//! An opaque RGB sub-cell framebuffer, realized as half-block cells (two
//! pixels per cell) or, for monochrome terminals, as ordered-dither Braille.
use crate::canvas::{char_glyph, dot_bit_of, half_block_parts, is_braille_cell, is_half_block_cell};
use crate::cell::{glyph_width, plain_style, Cell, Color, Glyph, Style};
use crate::segment::{clip_line_to_bounds, line_dots, pt_int, pts_contains, segment_dots, segment_points};
use crate::surface::{grid_index, lemma_area_fits, lemma_grid_index, Surface};
use crate::text::{ascii_bytes, char_from_u32, decimal, push_decimal_bytes};
use vstd::prelude::*;

verus! {

/// Allocation bound for tiny software graphics, per pixel axis.
pub const MAX_RASTER_DIMENSION: u16 = 2048;

/// An RGB pixel grid, row-major.
#[derive(Debug, Clone, PartialEq, Eq)]
pub struct RgbRaster {
    pub width: u16,
    pub height: u16,
    pub pixels: Vec<(u8, u8, u8)>,
}

/// The smaller of a dimension and the raster bound.
pub open spec fn bounded_dim(d: u16) -> u16 {
    if d <= MAX_RASTER_DIMENSION { d } else { MAX_RASTER_DIMENSION }
}

/// Perceived brightness of a color, `0..=255`.
pub open spec fn luminance(c: (u8, u8, u8)) -> int {
    (54 * c.0 + 183 * c.1 + 19 * c.2) / 256
}

/// The 2x4 ordered-dither thresholds, by dot row and column.
pub open spec fn bayer_level(dy: int, dx: int) -> int {
    if dy == 0 { if dx == 0 { 0 } else { 4 } }
    else if dy == 1 { if dx == 0 { 6 } else { 2 } }
    else if dy == 2 { if dx == 0 { 1 } else { 5 } }
    else { if dx == 0 { 7 } else { 3 } }
}

/// Whether dot `(dx, dy)` of a cell lights for a pixel of luminance `lum`.
pub open spec fn dot_lit(lum: int, dy: int, dx: int) -> bool {
    lum * 8 > bayer_level(dy, dx) * 255 + 127
}

/// The dots of dot row `dy` lit for luminance `lum`, among its first `n`.
pub open spec fn row_part(lum: int, dy: int, n: int) -> int {
    (if n >= 1 && dot_lit(lum, dy, 0) { dot_bit_of(0, dy) as int } else { 0 })
        + (if n >= 2 && dot_lit(lum, dy, 1) { dot_bit_of(1, dy) as int } else { 0 })
}

/// The lit dots of the first `n` dot rows of cell `(x, y)`.
pub open spec fn mask_rows(r: RgbRaster, x: int, y: int, n: int) -> int
    decreases n,
{
    if n <= 0 {
        0
    } else {
        mask_rows(r, x, y, n - 1) + row_part(luminance(r.sample(x, 2 * y + (n - 1) / 2)), n - 1, 2)
    }
}

/// The largest mask the first `n` dot rows can reach.
pub open spec fn row_cap(n: int) -> int {
    if n <= 0 { 0 } else if n == 1 { 0x09 } else if n == 2 { 0x1B } else if n == 3 { 0x3F } else { 0xFF }
}

/// The dither mask of cell `(x, y)`: dot rows 0 and 1 sample pixel
/// `(x, 2y)`, rows 2 and 3 pixel `(x, 2y + 1)`.
pub open spec fn mono_mask(r: RgbRaster, x: int, y: int) -> u8 {
    mask_rows(r, x, y, 4) as u8
}

/// The header of a binary PPM image of `w x h` pixels.
pub open spec fn ppm_header(w: u16, h: u16) -> Seq<u8> {
    seq![80u8, 54u8, 10u8] + ascii_bytes(decimal(w as nat)) + seq![32u8] + ascii_bytes(decimal(h as nat))
        + seq![10u8, 50u8, 53u8, 53u8, 10u8]
}

/// Pixels as consecutive red, green, blue bytes.
pub open spec fn rgb_bytes(px: Seq<(u8, u8, u8)>) -> Seq<u8>
    decreases px.len(),
{
    if px.len() == 0 {
        Seq::empty()
    } else {
        rgb_bytes(px.drop_last()) + seq![px.last().0, px.last().1, px.last().2]
    }
}

/// The dither threshold of dot `(dx, dy)`.
fn bayer(dy: u8, dx: u8) -> (t: u32)
    requires
        dy < 4,
        dx < 2,
    ensures
        t == bayer_level(dy as int, dx as int),
{
    if dy == 0 {
        if dx == 0 { 0 } else { 4 }
    } else if dy == 1 {
        if dx == 0 { 6 } else { 2 }
    } else if dy == 2 {
        if dx == 0 { 1 } else { 5 }
    } else {
        if dx == 0 { 7 } else { 3 }
    }
}

/// The mask bit of dot `(dx, dy)`.
fn dot_bit(dy: u8, dx: u8) -> (b: u8)
    requires
        dy < 4,
        dx < 2,
    ensures
        b == dot_bit_of(dx as int, dy as int),
{
    if dy == 3 {
        if dx == 0 { 0x40 } else { 0x80 }
    } else if dx == 0 {
        if dy == 0 { 0x01 } else if dy == 1 { 0x02 } else { 0x04 }
    } else {
        if dy == 0 { 0x08 } else if dy == 1 { 0x10 } else { 0x20 }
    }
}

impl RgbRaster {
    /// One pixel per grid position, and dimensions within the bound.
    pub open spec fn wf(&self) -> bool {
        &&& self.pixels@.len() == self.width as int * self.height as int
        &&& self.width <= MAX_RASTER_DIMENSION
        &&& self.height <= MAX_RASTER_DIMENSION
    }

    pub open spec fn in_pixels(&self, x: int, y: int) -> bool {
        0 <= x < self.width && 0 <= y < self.height
    }

    /// The color at `(x, y)`, if inside the raster.
    pub open spec fn pixel(&self, x: int, y: int) -> Option<(u8, u8, u8)> {
        if self.in_pixels(x, y) { Some(self.pixels@[grid_index(x, y, self.width as int)]) } else { None }
    }

    /// The color at `(x, y)`, black outside the raster.
    pub open spec fn sample(&self, x: int, y: int) -> (u8, u8, u8) {
        match self.pixel(x, y) {
            Some(c) => c,
            None => (0, 0, 0),
        }
    }

    /// A black raster; each dimension is capped at `MAX_RASTER_DIMENSION`. A
    /// terminal of `w x h` cells normally uses `new(w, 2 * h)`.
    pub fn new(width: u16, height: u16) -> (r: Self)
        ensures
            r.wf(),
            r.width == bounded_dim(width),
            r.height == bounded_dim(height),
            forall|i: int| 0 <= i < r.pixels@.len() ==> r.pixels@[i] == (0u8, 0u8, 0u8),
    {
        let w = if width <= MAX_RASTER_DIMENSION { width } else { MAX_RASTER_DIMENSION };
        let h = if height <= MAX_RASTER_DIMENSION { height } else { MAX_RASTER_DIMENSION };
        proof {
            lemma_area_fits(w, h);
        }
        let n: usize = w as usize * h as usize;
        let mut pixels: Vec<(u8, u8, u8)> = Vec::new();
        let mut i: usize = 0;
        while i < n
            invariant
                i <= n,
                pixels@.len() == i,
                forall|j: int| 0 <= j < i ==> pixels@[j] == (0u8, 0u8, 0u8),
            decreases n - i,
        {
            pixels.push((0, 0, 0));
            i = i + 1;
        }
        RgbRaster { width: w, height: h, pixels }
    }

    pub fn width(&self) -> (w: u16)
        ensures
            w == self.width,
    {
        self.width
    }

    pub fn height(&self) -> (h: u16)
        ensures
            h == self.height,
    {
        self.height
    }

    /// The pixels, row-major.
    pub fn pixels(&self) -> (p: &[(u8, u8, u8)])
        ensures
            p@ == self.pixels@,
    {
        self.pixels.as_slice()
    }

    /// The row-major index of `(x, y)`, if inside the raster.
    fn index(&self, x: i32, y: i32) -> (i: Option<usize>)
        requires
            self.wf(),
        ensures
            match i {
                Some(k) => self.in_pixels(x as int, y as int) && k == grid_index(x as int, y as int, self.width as int)
                    && k < self.pixels@.len(),
                None => !self.in_pixels(x as int, y as int),
            },
    {
        if x >= 0 && y >= 0 && x < self.width as i32 && y < self.height as i32 {
            proof {
                lemma_grid_index(x as int, y as int, x as int, y as int, self.width as int, self.height as int);
                assert(0 <= y as int * self.width as int <= 2048 * 2048) by (nonlinear_arith)
                    requires 0 <= y < self.height, self.height <= 2048, self.width <= 2048;
            }
            Some(y as usize * self.width as usize + x as usize)
        } else {
            None
        }
    }

    /// The color at `(x, y)`, or `None` outside the raster.
    pub fn get(&self, x: i32, y: i32) -> (c: Option<(u8, u8, u8)>)
        requires
            self.wf(),
        ensures
            c == self.pixel(x as int, y as int),
    {
        match self.index(x, y) {
            Some(i) => Some(self.pixels[i]),
            None => None,
        }
    }

    /// Paints `(x, y)`; writes outside the raster are ignored.
    pub fn set(&mut self, x: i32, y: i32, color: (u8, u8, u8))
        requires
            old(self).wf(),
        ensures
            final(self).wf(),
            final(self).width == old(self).width,
            final(self).height == old(self).height,
            forall|px: int, py: int| #[trigger] final(self).pixel(px, py)
                == (if px == x && py == y && old(self).in_pixels(px, py) { Some(color) } else { old(self).pixel(px, py) }),
    {
        match self.index(x, y) {
            Some(i) => {
                self.pixels.set(i, color);
                proof {
                    assert forall|px: int, py: int| #[trigger] self.pixel(px, py)
                        == (if px == x && py == y && old(self).in_pixels(px, py) { Some(color) } else { old(self).pixel(px, py) }) by {
                        if self.in_pixels(px, py) {
                            lemma_grid_index(x as int, y as int, px, py, self.width as int, self.height as int);
                            lemma_grid_index(px, py, px, py, self.width as int, self.height as int);
                            assert(self.pixels@ == old(self).pixels@.update(i as int, color));
                        }
                    }
                }
            },
            None => {},
        }
    }

    /// Paints every pixel `color`.
    pub fn clear(&mut self, color: (u8, u8, u8))
        requires
            old(self).wf(),
        ensures
            final(self).wf(),
            final(self).width == old(self).width,
            final(self).height == old(self).height,
            forall|i: int| 0 <= i < final(self).pixels@.len() ==> final(self).pixels@[i] == color,
    {
        let mut i: usize = 0;
        while i < self.pixels.len()
            invariant
                i <= self.pixels@.len(),
                self.pixels@.len() == old(self).pixels@.len(),
                self.width == old(self).width,
                self.height == old(self).height,
                old(self).wf(),
                forall|j: int| 0 <= j < i ==> self.pixels@[j] == color,
            decreases self.pixels@.len() - i,
        {
            self.pixels.set(i, color);
            i = i + 1;
        }
    }

    fn set_points(&mut self, pts: &Vec<(i32, i32)>, color: (u8, u8, u8))
        requires
            old(self).wf(),
        ensures
            final(self).wf(),
            final(self).width == old(self).width,
            final(self).height == old(self).height,
            forall|px: int, py: int| #[trigger] final(self).pixel(px, py)
                == (if old(self).in_pixels(px, py) && pts_contains(pts@, (px, py)) { Some(color) } else { old(self).pixel(px, py) }),
    {
        let mut i: usize = 0;
        while i < pts.len()
            invariant
                i <= pts@.len(),
                self.wf(),
                self.width == old(self).width,
                self.height == old(self).height,
                forall|px: int, py: int| #[trigger] self.pixel(px, py)
                    == (if old(self).in_pixels(px, py) && pts_contains(pts@.take(i as int), (px, py)) { Some(color) } else { old(self).pixel(px, py) }),
            decreases pts@.len() - i,
        {
            let (x, y) = pts[i];
            self.set(x, y, color);
            proof {
                assert forall|px: int, py: int| #[trigger] self.pixel(px, py)
                    == (if old(self).in_pixels(px, py) && pts_contains(pts@.take(i as int + 1), (px, py)) { Some(color) } else { old(self).pixel(px, py) }) by {
                    let a = pts_contains(pts@.take(i as int), (px, py));
                    let b = pts_contains(pts@.take(i as int + 1), (px, py));
                    if a {
                        let j = choose|j: int| 0 <= j < pts@.take(i as int).len() && pt_int(#[trigger] pts@.take(i as int)[j]) == (px, py);
                        assert(pts@.take(i as int + 1)[j] == pts@.take(i as int)[j]);
                    }
                    if px == x && py == y {
                        assert(pts@.take(i as int + 1)[i as int] == pts@[i as int]);
                    }
                    if b {
                        let j = choose|j: int| 0 <= j < pts@.take(i as int + 1).len() && pt_int(#[trigger] pts@.take(i as int + 1)[j]) == (px, py);
                        if j < i {
                            assert(pts@.take(i as int + 1)[j] == pts@.take(i as int)[j]);
                        }
                    }
                    assert(b == (a || (px == x && py == y)));
                }
            }
            i = i + 1;
        }
        proof {
            assert(pts@.take(pts@.len() as int) =~= pts@);
        }
    }

    /// Bresenham line, clipped to the raster first, so the work is bounded by
    /// the raster even for extreme coordinates.
    pub fn line(&mut self, x0: i32, y0: i32, x1: i32, y1: i32, color: (u8, u8, u8))
        requires
            old(self).wf(),
        ensures
            final(self).wf(),
            final(self).width == old(self).width,
            final(self).height == old(self).height,
            forall|px: int, py: int| #[trigger] final(self).pixel(px, py)
                == (if old(self).in_pixels(px, py) && line_dots(x0 as int, y0 as int, x1 as int, y1 as int,
                    old(self).width - 1, old(self).height - 1).contains((px, py)) { Some(color) } else { old(self).pixel(px, py) }),
    {
        let max_x = self.width as i32 - 1;
        let max_y = self.height as i32 - 1;
        match clip_line_to_bounds(x0, y0, x1, y1, max_x, max_y) {
            Some(((a0, b0), (a1, b1))) => {
                let pts = segment_points(a0, b0, a1, b1);
                self.set_points(&pts, color);
                proof {
                    assert forall|px: int, py: int| pts_contains(pts@, (px, py))
                        == segment_dots(a0 as int, b0 as int, a1 as int, b1 as int).contains((px, py)) by {
                        if pts_contains(pts@, (px, py)) {
                            let j = choose|j: int| 0 <= j < pts@.len() && pt_int(#[trigger] pts@[j]) == (px, py);
                        }
                    }
                }
            },
            None => {},
        }
    }

    /// Opaque half-block realization: cell `(x, y)` shows pixel `(x, 2y)` as
    /// the foreground of an upper half block over pixel `(x, 2y + 1)` as its
    /// background; a missing bottom pixel is black.
    pub fn to_surface(&self) -> (s: Surface)
        requires
            self.wf(),
        ensures
            s.wf(),
            s.width == self.width,
            s.height == (self.height + 1) / 2,
            forall|x: int, y: int| s.in_bounds(x, y) ==>
                is_half_block_cell(#[trigger] s.at(x, y), Some(self.sample(x, 2 * y)), Some(self.sample(x, 2 * y + 1))),
    {
        let h: u16 = ((self.height as u32 + 1) / 2) as u16;
        let mut s = Surface::new(self.width, h);
        let mut y: u16 = 0;
        while y < h
            invariant
                self.wf(),
                s.wf(),
                s.width == self.width,
                s.height == h,
                h == (self.height + 1) / 2,
                y <= h,
                forall|px: int, py: int| s.in_bounds(px, py) && py < y ==>
                    is_half_block_cell(#[trigger] s.at(px, py), Some(self.sample(px, 2 * py)), Some(self.sample(px, 2 * py + 1))),
            decreases h - y,
        {
            let mut x: u16 = 0;
            while x < self.width
                invariant
                    self.wf(),
                    s.wf(),
                    s.width == self.width,
                    s.height == h,
                    h == (self.height + 1) / 2,
                    y < h,
                    x <= self.width,
                    forall|px: int, py: int| s.in_bounds(px, py) && (py < y || (py == y && px < x)) ==>
                        is_half_block_cell(#[trigger] s.at(px, py), Some(self.sample(px, 2 * py)), Some(self.sample(px, 2 * py + 1))),
                decreases self.width - x,
            {
                let top = match self.get(x as i32, y as i32 * 2) {
                    Some(c) => c,
                    None => (0, 0, 0),
                };
                let bottom = match self.get(x as i32, y as i32 * 2 + 1) {
                    Some(c) => c,
                    None => (0, 0, 0),
                };
                let (glyph, style) = half_block_parts(Some(top), Some(bottom));
                s.set_cell(x, y, Cell::new(glyph, style));
                x = x + 1;
            }
            y = y + 1;
        }
        s
    }

    /// Same cell grid as `to_surface`, but each cell is a Braille pattern
    /// whose dots dither the luminance of its two pixels (each pixel covers
    /// two dot rows), in the plain style: no colors, so silhouettes survive
    /// monochrome terminals.
    pub fn to_mono_surface(&self) -> (s: Surface)
        requires
            self.wf(),
        ensures
            s.wf(),
            s.width == self.width,
            s.height == (self.height + 1) / 2,
            forall|x: int, y: int| s.in_bounds(x, y) ==>
                is_braille_cell(#[trigger] s.at(x, y), mono_mask(*self, x, y), plain_style()),
    {
        let h: u16 = ((self.height as u32 + 1) / 2) as u16;
        let mut s = Surface::new(self.width, h);
        let mut y: u16 = 0;
        while y < h
            invariant
                self.wf(),
                s.wf(),
                s.width == self.width,
                s.height == h,
                h == (self.height + 1) / 2,
                y <= h,
                forall|px: int, py: int| s.in_bounds(px, py) && py < y ==>
                    is_braille_cell(#[trigger] s.at(px, py), mono_mask(*self, px, py), plain_style()),
            decreases h - y,
        {
            let mut x: u16 = 0;
            while x < self.width
                invariant
                    self.wf(),
                    s.wf(),
                    s.width == self.width,
                    s.height == h,
                    h == (self.height + 1) / 2,
                    y < h,
                    x <= self.width,
                    forall|px: int, py: int| s.in_bounds(px, py) && (py < y || (py == y && px < x)) ==>
                        is_braille_cell(#[trigger] s.at(px, py), mono_mask(*self, px, py), plain_style()),
                decreases self.width - x,
            {
                let bits = self.dither_bits(x, y);
                let ch = match char_from_u32(0x2800 + bits as u32) {
                    Some(c) => c,
                    None => ' ',
                };
                s.set_cell(x, y, Cell::new(char_glyph(ch), Style::new()));
                x = x + 1;
            }
            y = y + 1;
        }
        s
    }

    /// The dither mask of cell `(x, y)`.
    fn dither_bits(&self, x: u16, y: u16) -> (bits: u8)
        requires
            self.wf(),
            y < 32768,
        ensures
            bits == mono_mask(*self, x as int, y as int),
    {
        let mut bits: u8 = 0;
        let mut dy: u8 = 0;
        while dy < 4
            invariant
                self.wf(),
                y < 32768,
                dy <= 4,
                bits as int == mask_rows(*self, x as int, y as int, dy as int),
                bits as int <= row_cap(dy as int),
            decreases 4 - dy,
        {
            let c = match self.get(x as i32, y as i32 * 2 + (dy / 2) as i32) {
                Some(c) => c,
                None => (0, 0, 0),
            };
            let lum: u32 = (54 * c.0 as u32 + 183 * c.1 as u32 + 19 * c.2 as u32) / 256;
            proof {
                assert(c == self.sample(x as int, 2 * y + dy / 2));
                assert(lum as int == luminance(c));
                assert(lum <= 255);
            }
            let mut dx: u8 = 0;
            let ghost start = bits as int;
            while dx < 2
                invariant
                    dy < 4,
                    dx <= 2,
                    lum <= 255,
                    start == mask_rows(*self, x as int, y as int, dy as int),
                    start <= row_cap(dy as int),
                    lum as int == luminance(self.sample(x as int, 2 * y + dy / 2)),
                    bits as int == start + row_part(lum as int, dy as int, dx as int),
                decreases 2 - dx,
            {
                if lum * 8 > bayer(dy, dx) * 255 + 127 {
                    bits = bits + dot_bit(dy, dx);
                }
                dx = dx + 1;
            }
            dy = dy + 1;
        }
        bits
    }

    /// The raster as a binary PPM (`P6`) image: the header
    /// `P6\n<width> <height>\n255\n`, then three bytes per pixel, row-major.
    pub fn ppm_bytes(&self) -> (out: Vec<u8>)
        ensures
            out@ == ppm_header(self.width, self.height) + rgb_bytes(self.pixels@),
    {
        let mut out: Vec<u8> = Vec::new();
        out.push(80u8);
        out.push(54u8);
        out.push(10u8);
        push_decimal_bytes(&mut out, self.width as u64);
        out.push(32u8);
        push_decimal_bytes(&mut out, self.height as u64);
        out.push(10u8);
        out.push(50u8);
        out.push(53u8);
        out.push(53u8);
        out.push(10u8);
        let ghost head = out@;
        proof {
            assert(head =~= ppm_header(self.width, self.height));
        }
        let mut i: usize = 0;
        while i < self.pixels.len()
            invariant
                i <= self.pixels@.len(),
                head == ppm_header(self.width, self.height),
                out@ == head + rgb_bytes(self.pixels@.take(i as int)),
            decreases self.pixels@.len() - i,
        {
            let (r, g, b) = self.pixels[i];
            out.push(r);
            out.push(g);
            out.push(b);
            proof {
                assert(self.pixels@.take(i as int + 1).drop_last() =~= self.pixels@.take(i as int));
                assert(self.pixels@.take(i as int + 1).last() == self.pixels@[i as int]);
            }
            i = i + 1;
        }
        proof {
            assert(self.pixels@.take(self.pixels@.len() as int) =~= self.pixels@);
        }
        out
    }
}

} // verus!
