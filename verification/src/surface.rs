//! The cell framebuffer: a `width x height` grid of [`Cell`]s, and the
//! rectangles that address it.
use crate::cell::{glyph_width, is_space_cell, overlay_style, plain_style, Cell, Glyph, Style};
use crate::text::{grapheme_split, graphemes};
use vstd::prelude::*;

verus! {

/// An axis-aligned rectangle of cells.
#[derive(Debug, Clone, Copy, PartialEq, Eq, Structural, Default)]
pub struct Rect {
    pub x: u16,
    pub y: u16,
    pub width: u16,
    pub height: u16,
}

/// The rectangle `[lo, hi)` along one axis shared by `[a, a + aw)` and
/// `[b, b + bw)`, as `(start, length)`; length 0 when they do not overlap.
pub open spec fn overlap(a: int, aw: int, b: int, bw: int) -> (int, int) {
    let lo = if a >= b { a } else { b };
    let hi = if a + aw <= b + bw { a + aw } else { b + bw };
    if hi > lo { (lo, hi - lo) } else { (0, 0) }
}

impl Rect {
    pub fn new(x: u16, y: u16, width: u16, height: u16) -> (r: Self)
        ensures
            r == (Rect { x, y, width, height }),
    {
        Rect { x, y, width, height }
    }

    /// True when the rectangle covers no cell.
    pub fn is_empty(&self) -> (b: bool)
        ensures
            b == (self.width == 0 || self.height == 0),
    {
        self.width == 0 || self.height == 0
    }

    /// Whether `(x, y)` lies inside the rectangle.
    pub open spec fn contains_point(&self, x: int, y: int) -> bool {
        self.x <= x < self.x + self.width && self.y <= y < self.y + self.height
    }

    /// The cells both rectangles cover; the empty rectangle `(0, 0, 0, 0)` when
    /// they do not overlap.
    pub fn intersection(&self, other: &Rect) -> (r: Rect)
        ensures
            ({
                let ox = overlap(self.x as int, self.width as int, other.x as int, other.width as int);
                let oy = overlap(self.y as int, self.height as int, other.y as int, other.height as int);
                if ox.1 > 0 && oy.1 > 0 {
                    r.x == ox.0 && r.width == ox.1 && r.y == oy.0 && r.height == oy.1
                } else {
                    r == Rect { x: 0, y: 0, width: 0, height: 0 }
                }
            }),
            forall|px: int, py: int| r.contains_point(px, py) <==> (self.contains_point(px, py) && other.contains_point(px, py)),
    {
        let x0: u32 = if self.x >= other.x { self.x as u32 } else { other.x as u32 };
        let y0: u32 = if self.y >= other.y { self.y as u32 } else { other.y as u32 };
        let sx1: u32 = self.x as u32 + self.width as u32;
        let ox1: u32 = other.x as u32 + other.width as u32;
        let sy1: u32 = self.y as u32 + self.height as u32;
        let oy1: u32 = other.y as u32 + other.height as u32;
        let x1: u32 = if sx1 <= ox1 { sx1 } else { ox1 };
        let y1: u32 = if sy1 <= oy1 { sy1 } else { oy1 };
        if x1 > x0 && y1 > y0 {
            Rect { x: x0 as u16, y: y0 as u16, width: (x1 - x0) as u16, height: (y1 - y0) as u16 }
        } else {
            Rect { x: 0, y: 0, width: 0, height: 0 }
        }
    }
}

/// A grid of cells, stored row-major.
#[derive(Debug, Clone, PartialEq, Eq)]
pub struct Surface {
    pub width: u16,
    pub height: u16,
    pub cells: Vec<Cell>,
}

/// Row-major index of `(x, y)` in a grid `w` columns wide.
pub open spec fn grid_index(x: int, y: int, w: int) -> int {
    y * w + x
}

/// Distinct in-bounds coordinates have distinct row-major indices, and every
/// in-bounds index is below `w * h`.
pub proof fn lemma_grid_index(x: int, y: int, px: int, py: int, w: int, h: int)
    requires
        0 <= x < w,
        0 <= px < w,
        0 <= y < h,
        0 <= py < h,
    ensures
        0 <= grid_index(x, y, w) < w * h,
        grid_index(x, y, w) == grid_index(px, py, w) <==> (x == px && y == py),
{
    assert(0 <= y * w) by (nonlinear_arith) requires 0 <= y, 0 <= w;
    assert(y * w + x < w * h) by (nonlinear_arith) requires 0 <= x < w, 0 <= y < h;
    if y < py {
        assert(y * w + w <= py * w) by (nonlinear_arith) requires y < py, w >= 0;
    } else if py < y {
        assert(py * w + w <= y * w) by (nonlinear_arith) requires py < y, w >= 0;
    }
}

/// A grid of at most `65535 x 65535` cells is addressable with 32 bits.
pub proof fn lemma_area_fits(w: u16, h: u16)
    ensures
        w as int * h as int <= 0xFFFE_0001,
        0 <= w as int * h as int,
{
    assert(w as int * h as int <= 0xFFFE_0001) by (nonlinear_arith) requires w <= 0xFFFF, h <= 0xFFFF;
    assert(0 <= w as int * h as int) by (nonlinear_arith) requires w >= 0, h >= 0;
}

impl Surface {
    /// The grid holds exactly `width * height` cells.
    pub open spec fn wf(&self) -> bool {
        self.cells@.len() == self.width as int * self.height as int
    }

    pub open spec fn in_bounds(&self, x: int, y: int) -> bool {
        0 <= x < self.width && 0 <= y < self.height
    }

    /// The cell at `(x, y)`.
    pub open spec fn at(&self, x: int, y: int) -> Cell {
        self.cells@[grid_index(x, y, self.width as int)]
    }

    /// A surface of blank, opaque, unstyled spaces.
    pub fn new(width: u16, height: u16) -> (s: Self)
        ensures
            s.wf(),
            s.width == width,
            s.height == height,
            forall|x: int, y: int| s.in_bounds(x, y) ==> is_space_cell(#[trigger] s.at(x, y), plain_style()),
    {
        Self::filled(width, height, false)
    }

    /// A surface of fully transparent cells.
    pub fn new_transparent(width: u16, height: u16) -> (s: Self)
        ensures
            s.wf(),
            s.width == width,
            s.height == height,
            forall|x: int, y: int| s.in_bounds(x, y) ==> {
                let c = #[trigger] s.at(x, y);
                &&& c.transparent && !c.is_continuation && !c.style_only
                &&& c.glyph.grapheme@ == seq![' '] && c.glyph.display_width == 1
                &&& c.style == plain_style()
            },
    {
        Self::filled(width, height, true)
    }

    fn filled(width: u16, height: u16, transparent: bool) -> (s: Self)
        ensures
            s.wf(),
            s.width == width,
            s.height == height,
            forall|x: int, y: int| s.in_bounds(x, y) ==> {
                let c = #[trigger] s.at(x, y);
                &&& c.transparent == transparent && !c.is_continuation && !c.style_only
                &&& c.glyph.grapheme@ == seq![' '] && c.glyph.display_width == 1
                &&& c.style == plain_style()
            },
    {
        proof {
            lemma_area_fits(width, height);
        }
        let n: usize = width as usize * height as usize;
        let mut cells: Vec<Cell> = Vec::new();
        let mut i: usize = 0;
        while i < n
            invariant
                i <= n,
                cells@.len() == i,
                forall|j: int| 0 <= j < i ==> {
                    let c = #[trigger] cells@[j];
                    &&& c.transparent == transparent && !c.is_continuation && !c.style_only
                    &&& c.glyph.grapheme@ == seq![' '] && c.glyph.display_width == 1
                    &&& c.style == plain_style()
                },
            decreases n - i,
        {
            let mut c = Cell::space(Style::new());
            c.transparent = transparent;
            cells.push(c);
            i = i + 1;
        }
        let s = Surface { width, height, cells };
        proof {
            assert forall|x: int, y: int| s.in_bounds(x, y) implies {
                let c = #[trigger] s.at(x, y);
                &&& c.transparent == transparent && !c.is_continuation && !c.style_only
                &&& c.glyph.grapheme@ == seq![' '] && c.glyph.display_width == 1
                &&& c.style == plain_style()
            } by {
                lemma_grid_index(x, y, x, y, width as int, height as int);
            }
        }
        s
    }

    /// The rectangle covering the whole surface.
    pub fn area(&self) -> (r: Rect)
        ensures
            r == (Rect { x: 0, y: 0, width: self.width, height: self.height }),
    {
        Rect { x: 0, y: 0, width: self.width, height: self.height }
    }

    /// The cell at `(x, y)`, or `None` outside the surface.
    pub fn get(&self, x: u16, y: u16) -> (c: Option<&Cell>)
        requires
            self.wf(),
        ensures
            match c {
                Some(cell) => self.in_bounds(x as int, y as int) && *cell == self.at(x as int, y as int),
                None => !self.in_bounds(x as int, y as int),
            },
    {
        if x < self.width && y < self.height {
            proof {
                lemma_grid_index(x as int, y as int, x as int, y as int, self.width as int, self.height as int);
                lemma_area_fits(self.width, self.height);
                assert(0 <= y as int * self.width as int) by (nonlinear_arith) requires y >= 0, self.width >= 0;
            }
            Some(&self.cells[y as usize * self.width as usize + x as usize])
        } else {
            None
        }
    }

    /// Replaces the cell at `(x, y)`; writes outside the surface are ignored.
    pub fn set_cell(&mut self, x: u16, y: u16, cell: Cell)
        requires
            old(self).wf(),
        ensures
            final(self).wf(),
            final(self).width == old(self).width,
            final(self).height == old(self).height,
            forall|px: int, py: int| final(self).in_bounds(px, py) ==> #[trigger] final(self).at(px, py) == (
                if px == x && py == y { cell } else { old(self).at(px, py) }),
    {
        if x < self.width && y < self.height {
            proof {
                lemma_grid_index(x as int, y as int, x as int, y as int, self.width as int, self.height as int);
                lemma_area_fits(self.width, self.height);
                assert(0 <= y as int * self.width as int) by (nonlinear_arith) requires y >= 0, self.width >= 0;
            }
            let i = y as usize * self.width as usize + x as usize;
            self.cells.set(i, cell);
            proof {
                assert forall|px: int, py: int| self.in_bounds(px, py) implies #[trigger] self.at(px, py) == (
                    if px == x && py == y { cell } else { old(self).at(px, py) }) by {
                    lemma_grid_index(x as int, y as int, px, py, self.width as int, self.height as int);
                    assert(i as int == grid_index(x as int, y as int, self.width as int));
                    assert(self.cells@ == old(self).cells@.update(i as int, cell));
                    if px == x && py == y {
                        assert(self.at(px, py) == cell);
                    } else {
                        assert(grid_index(px, py, self.width as int) != i);
                        lemma_grid_index(px, py, px, py, self.width as int, self.height as int);
                        assert(0 <= grid_index(px, py, self.width as int) < old(self).cells@.len());
                        assert(self.at(px, py) == old(self).at(px, py));
                    }
                }
            }
        }
    }
}


/// The result of compositing `over` onto `under`: a transparent cell leaves
/// `under` as it is, a style-only cell lays its style over `under`'s, and any
/// other cell replaces `under`.
pub open spec fn composite(under: Cell, over: Cell) -> Cell {
    if over.transparent {
        under
    } else if over.style_only {
        Cell { style: overlay_style(under.style, over.style), ..under }
    } else {
        over
    }
}

impl Surface {
    /// Composites `layer` onto this surface with its top-left corner at
    /// `(ox, oy)`, respecting transparency; parts falling outside are dropped.
    pub fn blit_transparent_at(&mut self, layer: &Surface, ox: u16, oy: u16)
        requires
            old(self).wf(),
            layer.wf(),
        ensures
            final(self).wf(),
            final(self).width == old(self).width,
            final(self).height == old(self).height,
            forall|px: int, py: int| final(self).in_bounds(px, py) ==> #[trigger] final(self).at(px, py) == (
                if layer.in_bounds(px - ox, py - oy) {
                    composite(old(self).at(px, py), layer.at(px - ox, py - oy))
                } else {
                    old(self).at(px, py)
                }),
    {
        let mut ly: u16 = 0;
        while ly < layer.height
            invariant
                self.wf(),
                layer.wf(),
                self.width == old(self).width,
                self.height == old(self).height,
                ly <= layer.height,
                forall|px: int, py: int| self.in_bounds(px, py) ==> #[trigger] self.at(px, py) == (
                    if layer.in_bounds(px - ox, py - oy) && py - oy < ly {
                        composite(old(self).at(px, py), layer.at(px - ox, py - oy))
                    } else {
                        old(self).at(px, py)
                    }),
            decreases layer.height - ly,
        {
            let mut lx: u16 = 0;
            while lx < layer.width
                invariant
                    self.wf(),
                    layer.wf(),
                    self.width == old(self).width,
                    self.height == old(self).height,
                    ly < layer.height,
                    lx <= layer.width,
                    forall|px: int, py: int| self.in_bounds(px, py) ==> #[trigger] self.at(px, py) == (
                        if layer.in_bounds(px - ox, py - oy) && (py - oy < ly || (py - oy == ly && px - ox < lx)) {
                            composite(old(self).at(px, py), layer.at(px - ox, py - oy))
                        } else {
                            old(self).at(px, py)
                        }),
                decreases layer.width - lx,
            {
                let tx: u32 = ox as u32 + lx as u32;
                let ty: u32 = oy as u32 + ly as u32;
                if tx < self.width as u32 && ty < self.height as u32 {
                    let over = layer.get(lx, ly).unwrap();
                    if !over.transparent {
                        let under = self.get(tx as u16, ty as u16).unwrap();
                        let next = if over.style_only {
                            let mut c = under.duplicate();
                            c.style = under.style.overlay(over.style);
                            c
                        } else {
                            over.duplicate()
                        };
                        self.set_cell(tx as u16, ty as u16, next);
                    }
                }
                lx = lx + 1;
            }
            ly = ly + 1;
        }
    }
}


/// The graphemes of `gs` from index `i` on that `print_str` places in `room`
/// columns: zero-width graphemes are skipped, and placing stops at the first
/// grapheme wider than the room left.
pub open spec fn fitted(gs: Seq<Seq<char>>, i: int, room: int) -> Seq<Seq<char>>
    decreases gs.len() - i,
{
    if i < 0 || i >= gs.len() {
        Seq::empty()
    } else if glyph_width(gs[i]) == 0 {
        fitted(gs, i + 1, room)
    } else if glyph_width(gs[i]) > room {
        Seq::empty()
    } else {
        seq![gs[i]] + fitted(gs, i + 1, room - glyph_width(gs[i]))
    }
}

/// Columns taken by a run of graphemes laid side by side.
pub open spec fn columns(gs: Seq<Seq<char>>) -> int
    decreases gs.len(),
{
    if gs.len() == 0 {
        0
    } else {
        columns(gs.drop_last()) + glyph_width(gs.last())
    }
}

/// The columns that `print_str` may fill from column `x` of a row `width`
/// cells wide, under an optional cap.
pub open spec fn print_room(width: u16, x: u16, max_width: Option<u16>) -> int {
    let cap: int = match max_width {
        Some(m) => m as int,
        None => 65535,
    };
    if (width - x) as int <= cap { (width - x) as int } else { cap }
}

/// The graphemes of `text` that `print_str` writes.
pub open spec fn printed(width: u16, x: u16, text: Seq<char>, max_width: Option<u16>) -> Seq<Seq<char>> {
    fitted(grapheme_split(text), 0, print_room(width, x, max_width))
}

/// Cell `c` shows grapheme `g` in `style`, as a lead cell.
pub open spec fn shows(c: Cell, g: Seq<char>, style: Style) -> bool {
    &&& c.glyph.grapheme@ == g
    &&& c.glyph.display_width == glyph_width(g)
    &&& c.style == style
    &&& !c.is_continuation && !c.transparent && !c.style_only
}

/// Cell `c` is the trailing half of a wide glyph in `style`.
pub open spec fn continues(c: Cell, style: Style) -> bool {
    &&& c.glyph.grapheme@.len() == 0
    &&& c.glyph.display_width == 0
    &&& c.style == style
    &&& c.is_continuation && !c.transparent && !c.style_only
}

proof fn lemma_columns_push(gs: Seq<Seq<char>>, g: Seq<char>)
    ensures
        columns(gs.push(g)) == columns(gs) + glyph_width(g),
{
    assert(gs.push(g).drop_last() =~= gs);
}

proof fn lemma_columns_nonneg(gs: Seq<Seq<char>>)
    ensures
        columns(gs) >= 0,
    decreases gs.len(),
{
    if gs.len() > 0 {
        lemma_columns_nonneg(gs.drop_last());
    }
}

/// `s1` is `s0` after `print_str(x, y, text, style, max_width)` wrote `n`
/// columns: nothing outside the surface; otherwise the graphemes that fit,
/// side by side from column `x` (a wide one followed by its continuation),
/// and every other cell as it was.
pub open spec fn print_post(s0: Surface, s1: Surface, x: u16, y: u16, text: Seq<char>, style: Style, max_width: Option<u16>, n: u16) -> bool {
    &&& s1.wf()
    &&& s1.width == s0.width
    &&& s1.height == s0.height
    &&& !s0.in_bounds(x as int, y as int) ==> n == 0 && s1 == s0
    &&& s0.in_bounds(x as int, y as int) ==> ({
        let p = printed(s0.width, x, text, max_width);
        &&& n == columns(p)
        &&& n <= print_room(s0.width, x, max_width)
        &&& forall|k: int| 0 <= k < p.len() ==> shows(
            #[trigger] s1.at(x + columns(p.take(k)), y as int), p[k], style)
        &&& forall|k: int| 0 <= k < p.len() && glyph_width(#[trigger] p[k]) == 2 ==> continues(
            s1.at(x + columns(p.take(k)) + 1, y as int), style)
    })
    &&& forall|px: int, py: int| s1.in_bounds(px, py) && !(py == y && x <= px < x + n) ==>
        #[trigger] s1.at(px, py) == s0.at(px, py)
}

/// What `print_str` has written so far: the graphemes `acc` laid out from
/// column `x` of row `y` in `style`, everything else as in `before`.
pub open spec fn row_written(s: Surface, before: Surface, x: int, y: int, acc: Seq<Seq<char>>, style: Style) -> bool {
    &&& forall|k: int| 0 <= k < acc.len() ==> shows(
        #[trigger] s.at(x + columns(acc.take(k)), y), acc[k], style)
    &&& forall|k: int| 0 <= k < acc.len() && glyph_width(#[trigger] acc[k]) == 2 ==> continues(
        s.at(x + columns(acc.take(k)) + 1, y), style)
    &&& forall|px: int, py: int| s.in_bounds(px, py) && !(py == y && x <= px < x + columns(acc)) ==>
        #[trigger] s.at(px, py) == before.at(px, py)
}

proof fn lemma_take_push(acc: Seq<Seq<char>>, g: Seq<char>, k: int)
    requires
        0 <= k <= acc.len(),
    ensures
        acc.push(g).take(k) == acc.take(k),
{
    assert(acc.push(g).take(k) =~= acc.take(k));
}

/// Placing one more grapheme after those already written keeps the layout.
proof fn lemma_row_step(mid: Surface, s: Surface, before: Surface, x: int, y: int, acc: Seq<Seq<char>>, g: Seq<char>, style: Style)
    requires
        row_written(mid, before, x, y, acc, style),
        mid.width == s.width && mid.height == s.height,
        glyph_width(g) == 1 || glyph_width(g) == 2,
        shows(s.at(x + columns(acc), y), g, style),
        glyph_width(g) == 2 ==> continues(s.at(x + columns(acc) + 1, y), style),
        forall|px: int, py: int| s.in_bounds(px, py) && !(py == y && x + columns(acc) <= px < x + columns(acc) + glyph_width(g)) ==>
            #[trigger] s.at(px, py) == mid.at(px, py),
        forall|k: int| 0 <= k < acc.len() ==> columns(#[trigger] acc.take(k)) + glyph_width(acc[k]) <= columns(acc),
        forall|k: int| 0 <= k < acc.len() ==> glyph_width(#[trigger] acc[k]) >= 1,
        x + columns(acc) + glyph_width(g) <= s.width,
        0 <= x,
        0 <= y < s.height,
    ensures
        row_written(s, before, x, y, acc.push(g), style),
        columns(acc.push(g)) == columns(acc) + glyph_width(g),
        forall|k: int| 0 <= k < acc.len() + 1 ==> columns(#[trigger] acc.push(g).take(k)) + glyph_width(acc.push(g)[k]) <= columns(acc.push(g)),
        forall|k: int| 0 <= k < acc.len() + 1 ==> glyph_width(#[trigger] acc.push(g)[k]) >= 1,
{
    let nacc = acc.push(g);
    lemma_columns_push(acc, g);
    lemma_columns_nonneg(acc);
    assert(nacc.take(acc.len() as int) =~= acc);
    assert forall|k: int| 0 <= k < nacc.len() implies shows(
        #[trigger] s.at(x + columns(nacc.take(k)), y), nacc[k], style) by {
        lemma_take_push(acc, g, k);
        if k < acc.len() {
            lemma_columns_nonneg(acc.take(k));
            assert(s.at(x + columns(acc.take(k)), y) == mid.at(x + columns(acc.take(k)), y));
        }
    }
    assert forall|k: int| 0 <= k < nacc.len() && glyph_width(#[trigger] nacc[k]) == 2 implies continues(
        s.at(x + columns(nacc.take(k)) + 1, y), style) by {
        lemma_take_push(acc, g, k);
        if k < acc.len() {
            lemma_columns_nonneg(acc.take(k));
            assert(s.at(x + columns(acc.take(k)) + 1, y) == mid.at(x + columns(acc.take(k)) + 1, y));
        }
    }
    assert forall|k: int| 0 <= k < nacc.len() implies columns(#[trigger] nacc.take(k)) + glyph_width(nacc[k]) <= columns(nacc) by {
        lemma_take_push(acc, g, k);
    }
    assert forall|k: int| 0 <= k < nacc.len() implies glyph_width(#[trigger] nacc[k]) >= 1 by {
        if k < acc.len() {
            assert(nacc[k] == acc[k]);
        }
    }
    assert forall|px: int, py: int| s.in_bounds(px, py) && !(py == y && x <= px < x + columns(nacc)) implies
        #[trigger] s.at(px, py) == before.at(px, py) by {
        assert(columns(nacc) == columns(acc) + glyph_width(g));
        assert(!(py == y && x + columns(acc) <= px < x + columns(acc) + glyph_width(g)));
        assert(s.at(px, py) == mid.at(px, py));
        assert(mid.in_bounds(px, py));
        assert(!(py == y && x <= px < x + columns(acc)));
        assert(mid.at(px, py) == before.at(px, py));
    }
}

impl Surface {
    /// Writes a glyph one or two columns wide at `(x, y)`: a lead cell, and a
    /// continuation cell after it for a wide glyph.
    fn put_glyph(&mut self, x: u16, y: u16, glyph: Glyph, style: Style)
        requires
            old(self).wf(),
            glyph.display_width == 1 || glyph.display_width == 2,
            x + glyph.display_width <= old(self).width,
            y < old(self).height,
        ensures
            final(self).wf(),
            final(self).width == old(self).width,
            final(self).height == old(self).height,
            shows(final(self).at(x as int, y as int), glyph.grapheme@, style) || glyph.display_width != glyph_width(glyph.grapheme@),
            final(self).at(x as int, y as int).glyph == glyph,
            final(self).at(x as int, y as int).style == style,
            !final(self).at(x as int, y as int).is_continuation,
            !final(self).at(x as int, y as int).transparent,
            !final(self).at(x as int, y as int).style_only,
            glyph.display_width == 2 ==> continues(final(self).at(x + 1, y as int), style),
            forall|px: int, py: int| final(self).in_bounds(px, py) && !(py == y && x <= px < x + glyph.display_width) ==>
                #[trigger] final(self).at(px, py) == old(self).at(px, py),
    {
        let w = glyph.display_width;
        self.set_cell(x, y, Cell::new(glyph, style));
        if w == 2 {
            self.set_cell(x + 1, y, Cell::continuation(style));
        }
    }

    /// Writes `text` on row `y` from column `x`, one grapheme per cell (a
    /// wide grapheme takes a lead cell and a continuation cell), in `style`.
    /// Zero-width graphemes are skipped; writing stops at the first grapheme
    /// that would cross the surface's right edge or the `max_width` cap.
    /// Returns the number of columns written; nothing is written when `(x, y)`
    /// is outside the surface.
    pub fn print_str(&mut self, x: u16, y: u16, text: &str, style: Style, max_width: Option<u16>) -> (n: u16)
        requires
            old(self).wf(),
        ensures
            print_post(*old(self), *final(self), x, y, text@, style, max_width, n),
    {
        if x >= self.width || y >= self.height {
            return 0;
        }
        let cap: u16 = match max_width {
            Some(m) => m,
            None => 65535,
        };
        let room: u16 = if self.width - x <= cap { self.width - x } else { cap };
        let gs = graphemes(text);
        let ghost gseq = gs@.map_values(|g: String| g@);
        let ghost acc: Seq<Seq<char>> = Seq::empty();
        let ghost start = *self;
        let mut col: u16 = 0;
        let mut i: usize = 0;
        let mut stopped = false;
        proof {
            assert(acc.len() == 0);
            assert(start.at(x as int, y as int) == start.at(x as int, y as int));
        }
        while i < gs.len() && !stopped
            invariant
                self.wf(),
                start == *old(self),
                self.width == old(self).width,
                self.height == old(self).height,
                x < self.width,
                y < self.height,
                room as int == print_room(old(self).width, x, max_width),
                room as int <= self.width - x,
                gseq == gs@.map_values(|g: String| g@),
                gseq == grapheme_split(text@),
                0 <= i <= gs.len(),
                col as int == columns(acc),
                col <= room,
                printed(old(self).width, x, text@, max_width) == acc + fitted(gseq, i as int, room - col),
                stopped ==> fitted(gseq, i as int, room - col) == Seq::<Seq<char>>::empty(),
                row_written(*self, start, x as int, y as int, acc, style),
                forall|k: int| 0 <= k < acc.len() ==> columns(#[trigger] acc.take(k)) + glyph_width(acc[k]) <= col,
                forall|k: int| 0 <= k < acc.len() ==> glyph_width(#[trigger] acc[k]) >= 1,
            decreases 2 * (gs.len() - i) + (if stopped { 0int } else { 1int }),
        {
            let glyph = Glyph::new(gs[i].as_str());
            let w: u16 = glyph.display_width as u16;
            proof {
                assert(gseq[i as int] == gs@[i as int]@);
            }
            if w == 0 {
                i = i + 1;
            } else if w > room - col {
                stopped = true;
            } else {
                let ghost g = gseq[i as int];
                let ghost mid = *self;
                self.put_glyph(x + col, y, glyph, style);
                proof {
                    lemma_row_step(mid, *self, start, x as int, y as int, acc, g, style);
                    assert(acc + fitted(gseq, i as int, room - col) =~= acc.push(g) + fitted(gseq, i as int + 1, room - col - w));
                    acc = acc.push(g);
                }
                col = col + w;
                i = i + 1;
            }
        }
        proof {
            if !stopped {
                assert(fitted(gseq, i as int, room - col) =~= Seq::<Seq<char>>::empty());
            }
            assert(acc + Seq::<Seq<char>>::empty() =~= acc);
        }
        col
    }
}


/// Line-drawing sets for rectangle borders.
#[derive(Debug, Clone, Copy, PartialEq, Eq, Structural)]
pub enum BorderType {
    Single,
    Double,
    Rounded,
    Thick,
    Ascii,
}

/// Which part of a border a cell of `rect` is: 0 top-left, 1 top-right,
/// 2 bottom-left, 3 bottom-right, 4 horizontal edge, 5 vertical edge,
/// 6 inside.
pub open spec fn border_part(rect: Rect, px: int, py: int) -> int {
    let top = py == rect.y;
    let bottom = py == rect.y + rect.height - 1;
    let left = px == rect.x;
    let right = px == rect.x + rect.width - 1;
    if top && left { 0 }
    else if top && right { 1 }
    else if bottom && left { 2 }
    else if bottom && right { 3 }
    else if top || bottom { 4 }
    else if left || right { 5 }
    else { 6 }
}

/// The character of border part `part` in style `bt`.
pub open spec fn border_char(bt: BorderType, part: int) -> char {
    match bt {
        BorderType::Single => if part == 0 { '\u{250C}' } else if part == 1 { '\u{2510}' } else if part == 2 { '\u{2514}' }
            else if part == 3 { '\u{2518}' } else if part == 4 { '\u{2500}' } else { '\u{2502}' },
        BorderType::Double => if part == 0 { '\u{2554}' } else if part == 1 { '\u{2557}' } else if part == 2 { '\u{255A}' }
            else if part == 3 { '\u{255D}' } else if part == 4 { '\u{2550}' } else { '\u{2551}' },
        BorderType::Rounded => if part == 0 { '\u{256D}' } else if part == 1 { '\u{256E}' } else if part == 2 { '\u{2570}' }
            else if part == 3 { '\u{256F}' } else if part == 4 { '\u{2500}' } else { '\u{2502}' },
        BorderType::Thick => if part == 0 { '\u{250F}' } else if part == 1 { '\u{2513}' } else if part == 2 { '\u{2517}' }
            else if part == 3 { '\u{251B}' } else if part == 4 { '\u{2501}' } else { '\u{2503}' },
        BorderType::Ascii => if part <= 3 { '+' } else if part == 4 { '-' } else { '|' },
    }
}

fn border_char_exec(bt: BorderType, part: u8) -> (c: char)
    requires
        part <= 5,
    ensures
        c == border_char(bt, part as int),
{
    match bt {
        BorderType::Single => if part == 0 { '\u{250C}' } else if part == 1 { '\u{2510}' } else if part == 2 { '\u{2514}' }
            else if part == 3 { '\u{2518}' } else if part == 4 { '\u{2500}' } else { '\u{2502}' },
        BorderType::Double => if part == 0 { '\u{2554}' } else if part == 1 { '\u{2557}' } else if part == 2 { '\u{255A}' }
            else if part == 3 { '\u{255D}' } else if part == 4 { '\u{2550}' } else { '\u{2551}' },
        BorderType::Rounded => if part == 0 { '\u{256D}' } else if part == 1 { '\u{256E}' } else if part == 2 { '\u{2570}' }
            else if part == 3 { '\u{256F}' } else if part == 4 { '\u{2500}' } else { '\u{2502}' },
        BorderType::Thick => if part == 0 { '\u{250F}' } else if part == 1 { '\u{2513}' } else if part == 2 { '\u{2517}' }
            else if part == 3 { '\u{251B}' } else if part == 4 { '\u{2501}' } else { '\u{2503}' },
        BorderType::Ascii => if part <= 3 { '+' } else if part == 4 { '-' } else { '|' },
    }
}

/// The rectangle `n` cells in from every edge of `r`; empty when nothing is
/// left or the inner corner falls outside the coordinate range.
pub open spec fn shrink_spec(r: Rect, n: u16) -> Rect {
    if (r.width as int) > 2 * n && (r.height as int) > 2 * n && r.x + n <= u16::MAX && r.y + n <= u16::MAX {
        Rect { x: (r.x + n) as u16, y: (r.y + n) as u16, width: (r.width - 2 * n) as u16, height: (r.height - 2 * n) as u16 }
    } else {
        Rect { x: 0, y: 0, width: 0, height: 0 }
    }
}

impl Rect {
    /// The rectangle `n` cells in from every edge; empty when nothing is
    /// left.
    pub fn shrink(&self, n: u16) -> (r: Rect)
        ensures
            r == shrink_spec(*self, n),
            self.x + self.width <= u16::MAX ==> r.x + r.width <= u16::MAX,
            self.y + self.height <= u16::MAX ==> r.y + r.height <= u16::MAX,
            forall|px: int, py: int| r.contains_point(px, py) ==> self.contains_point(px, py),
    {
        let w: u32 = self.width as u32;
        let h: u32 = self.height as u32;
        let twice: u32 = 2 * n as u32;
        if w > twice && h > twice && (self.x as u32) + (n as u32) <= 65535 && (self.y as u32) + (n as u32) <= 65535 {
            Rect { x: self.x + n, y: self.y + n, width: (w - twice) as u16, height: (h - twice) as u16 }
        } else {
            Rect { x: 0, y: 0, width: 0, height: 0 }
        }
    }
}

/// `c` is `d` dimmed: a transparent cell becomes a style-only dim layer; an
/// opaque one keeps everything but gains the dim attribute.
pub open spec fn dimmed(c: Cell, d: Cell) -> bool {
    if d.transparent {
        &&& c.glyph.grapheme@ == seq![' '] && c.glyph.display_width == 1
        &&& c.style == Style { dim: true, ..plain_style() }
        &&& !c.is_continuation && !c.transparent && c.style_only
    } else {
        c == Cell { style: Style { dim: true, ..d.style }, ..d }
    }
}

impl Surface {
    /// Sets every cell of `rect` (inside the surface) to `cell`.
    pub fn fill_rect(&mut self, rect: Rect, cell: Cell)
        requires
            old(self).wf(),
        ensures
            final(self).wf(),
            final(self).width == old(self).width,
            final(self).height == old(self).height,
            forall|px: int, py: int| final(self).in_bounds(px, py) ==> #[trigger] final(self).at(px, py) == (
                if rect.contains_point(px, py) { cell } else { old(self).at(px, py) }),
    {
        let ghost s0 = *self;
        let inter = self.area().intersection(&rect);
        if inter.is_empty() {
            return;
        }
        assert(inter.x + inter.width <= s0.width && inter.y + inter.height <= s0.height);
        let mut y = inter.y;
        while y < inter.y + inter.height
            invariant
                self.wf(),
                s0 == *old(self),
                self.width == s0.width && self.height == s0.height,
                forall|px: int, py: int| inter.contains_point(px, py) <==> (s0.in_bounds(px, py) && rect.contains_point(px, py)),
                inter.x + inter.width <= s0.width && inter.y + inter.height <= s0.height,
                inter.y <= y <= inter.y + inter.height,
                forall|px: int, py: int| self.in_bounds(px, py) ==> #[trigger] self.at(px, py) == (
                    if inter.contains_point(px, py) && py < y { cell } else { s0.at(px, py) }),
            decreases inter.y + inter.height - y,
        {
            let mut x = inter.x;
            while x < inter.x + inter.width
                invariant
                    self.wf(),
                    s0 == *old(self),
                    self.width == s0.width && self.height == s0.height,
                    forall|px: int, py: int| inter.contains_point(px, py) <==> (s0.in_bounds(px, py) && rect.contains_point(px, py)),
                    inter.x + inter.width <= s0.width && inter.y + inter.height <= s0.height,
                    inter.y <= y < inter.y + inter.height,
                    inter.x <= x <= inter.x + inter.width,
                    forall|px: int, py: int| self.in_bounds(px, py) ==> #[trigger] self.at(px, py) == (
                        if inter.contains_point(px, py) && (py < y || (py == y && px < x)) { cell } else { s0.at(px, py) }),
                decreases inter.x + inter.width - x,
            {
                self.set_cell(x, y, cell.duplicate());
                x = x + 1;
            }
            y = y + 1;
        }
    }

    /// Dims every cell of `rect` (inside the surface).
    pub fn apply_dim_rect(&mut self, rect: Rect)
        requires
            old(self).wf(),
        ensures
            final(self).wf(),
            final(self).width == old(self).width,
            final(self).height == old(self).height,
            forall|px: int, py: int| final(self).in_bounds(px, py) ==> if rect.contains_point(px, py) {
                dimmed(#[trigger] final(self).at(px, py), old(self).at(px, py))
            } else {
                final(self).at(px, py) == old(self).at(px, py)
            },
    {
        let ghost s0 = *self;
        let inter = self.area().intersection(&rect);
        if inter.is_empty() {
            return;
        }
        assert(inter.x + inter.width <= s0.width && inter.y + inter.height <= s0.height);
        let mut y = inter.y;
        while y < inter.y + inter.height
            invariant
                self.wf(),
                s0 == *old(self),
                self.width == s0.width && self.height == s0.height,
                forall|px: int, py: int| inter.contains_point(px, py) <==> (s0.in_bounds(px, py) && rect.contains_point(px, py)),
                inter.x + inter.width <= s0.width && inter.y + inter.height <= s0.height,
                inter.y <= y <= inter.y + inter.height,
                forall|px: int, py: int| self.in_bounds(px, py) ==> if inter.contains_point(px, py) && py < y {
                    dimmed(#[trigger] self.at(px, py), s0.at(px, py))
                } else {
                    self.at(px, py) == s0.at(px, py)
                },
            decreases inter.y + inter.height - y,
        {
            let mut x = inter.x;
            while x < inter.x + inter.width
                invariant
                    self.wf(),
                    s0 == *old(self),
                    self.width == s0.width && self.height == s0.height,
                    forall|px: int, py: int| inter.contains_point(px, py) <==> (s0.in_bounds(px, py) && rect.contains_point(px, py)),
                    inter.x + inter.width <= s0.width && inter.y + inter.height <= s0.height,
                    inter.y <= y < inter.y + inter.height,
                    inter.x <= x <= inter.x + inter.width,
                    forall|px: int, py: int| self.in_bounds(px, py) ==> if inter.contains_point(px, py) && (py < y || (py == y && px < x)) {
                        dimmed(#[trigger] self.at(px, py), s0.at(px, py))
                    } else {
                        self.at(px, py) == s0.at(px, py)
                    },
                decreases inter.x + inter.width - x,
            {
                let c = self.get(x, y).unwrap();
                let next = if c.transparent {
                    Cell::style_overlay(Style::new().dim())
                } else {
                    let mut d = c.duplicate();
                    d.style.dim = true;
                    d
                };
                self.set_cell(x, y, next);
                x = x + 1;
            }
            y = y + 1;
        }
    }

    /// Draws the outline of `rect` (inside the surface) in `bt` and `style`;
    /// the inside is left as it is.
    pub fn draw_border(&mut self, rect: Rect, bt: BorderType, style: Style)
        requires
            old(self).wf(),
        ensures
            final(self).wf(),
            final(self).width == old(self).width,
            final(self).height == old(self).height,
            forall|px: int, py: int| final(self).in_bounds(px, py) ==> if rect.contains_point(px, py) && border_part(rect, px, py) < 6 {
                shows(#[trigger] final(self).at(px, py), seq![border_char(bt, border_part(rect, px, py))], style)
            } else {
                final(self).at(px, py) == old(self).at(px, py)
            },
    {
        let ghost s0 = *self;
        let inter = self.area().intersection(&rect);
        if inter.is_empty() {
            return;
        }
        assert(inter.x + inter.width <= s0.width && inter.y + inter.height <= s0.height);
        let mut y = inter.y;
        while y < inter.y + inter.height
            invariant
                self.wf(),
                s0 == *old(self),
                self.width == s0.width && self.height == s0.height,
                forall|px: int, py: int| inter.contains_point(px, py) <==> (s0.in_bounds(px, py) && rect.contains_point(px, py)),
                inter.x + inter.width <= s0.width && inter.y + inter.height <= s0.height,
                inter.y <= y <= inter.y + inter.height,
                forall|px: int, py: int| self.in_bounds(px, py) ==> if inter.contains_point(px, py) && py < y && border_part(rect, px, py) < 6 {
                    shows(#[trigger] self.at(px, py), seq![border_char(bt, border_part(rect, px, py))], style)
                } else {
                    self.at(px, py) == s0.at(px, py)
                },
            decreases inter.y + inter.height - y,
        {
            let mut x = inter.x;
            while x < inter.x + inter.width
                invariant
                    self.wf(),
                    s0 == *old(self),
                    self.width == s0.width && self.height == s0.height,
                    forall|px: int, py: int| inter.contains_point(px, py) <==> (s0.in_bounds(px, py) && rect.contains_point(px, py)),
                    inter.x + inter.width <= s0.width && inter.y + inter.height <= s0.height,
                    inter.y <= y < inter.y + inter.height,
                    inter.x <= x <= inter.x + inter.width,
                    forall|px: int, py: int| self.in_bounds(px, py) ==> if inter.contains_point(px, py) && (py < y || (py == y && px < x))
                        && border_part(rect, px, py) < 6 {
                        shows(#[trigger] self.at(px, py), seq![border_char(bt, border_part(rect, px, py))], style)
                    } else {
                        self.at(px, py) == s0.at(px, py)
                    },
                decreases inter.x + inter.width - x,
            {
                let top = y == rect.y;
                let bottom = y as u32 + 1 == rect.y as u32 + rect.height as u32;
                let left = x == rect.x;
                let right = x as u32 + 1 == rect.x as u32 + rect.width as u32;
                let part: u8 = if top && left { 0 } else if top && right { 1 } else if bottom && left { 2 }
                    else if bottom && right { 3 } else if top || bottom { 4 } else if left || right { 5 } else { 6 };
                proof {
                    assert(part as int == border_part(rect, x as int, y as int));
                }
                if part < 6 {
                    let ch = border_char_exec(bt, part);
                    self.set_cell(x, y, Cell::new(crate::canvas::char_glyph(ch), style));
                }
                x = x + 1;
            }
            y = y + 1;
        }
    }

    /// Composites `layer` (same origin) onto this surface, respecting
    /// transparency.
    pub fn blit_transparent(&mut self, layer: &Surface)
        requires
            old(self).wf(),
            layer.wf(),
        ensures
            final(self).wf(),
            final(self).width == old(self).width,
            final(self).height == old(self).height,
            forall|px: int, py: int| final(self).in_bounds(px, py) ==> #[trigger] final(self).at(px, py) == (
                if layer.in_bounds(px, py) { composite(old(self).at(px, py), layer.at(px, py)) } else { old(self).at(px, py) }),
    {
        self.blit_transparent_at(layer, 0, 0);
    }

    /// Composites `src`, placed with its origin at `(ox, oy)` (possibly off
    /// the surface), onto the cells of `clip` inside this surface.
    pub fn blit_transparent_clipped(&mut self, src: &Surface, ox: i32, oy: i32, clip: Rect)
        requires
            old(self).wf(),
            src.wf(),
        ensures
            final(self).wf(),
            final(self).width == old(self).width,
            final(self).height == old(self).height,
            forall|px: int, py: int| final(self).in_bounds(px, py) ==> #[trigger] final(self).at(px, py) == (
                if clip.contains_point(px, py) && src.in_bounds(px - ox, py - oy) {
                    composite(old(self).at(px, py), src.at(px - ox, py - oy))
                } else {
                    old(self).at(px, py)
                }),
    {
        let ghost s0 = *self;
        let inter = self.area().intersection(&clip);
        if inter.is_empty() {
            return;
        }
        assert(inter.x + inter.width <= s0.width && inter.y + inter.height <= s0.height);
        let mut y = inter.y;
        while y < inter.y + inter.height
            invariant
                self.wf(),
                src.wf(),
                s0 == *old(self),
                self.width == s0.width && self.height == s0.height,
                forall|px: int, py: int| inter.contains_point(px, py) <==> (s0.in_bounds(px, py) && clip.contains_point(px, py)),
                inter.x + inter.width <= s0.width && inter.y + inter.height <= s0.height,
                inter.y <= y <= inter.y + inter.height,
                forall|px: int, py: int| self.in_bounds(px, py) ==> #[trigger] self.at(px, py) == (
                    if inter.contains_point(px, py) && py < y && src.in_bounds(px - ox, py - oy) {
                        composite(s0.at(px, py), src.at(px - ox, py - oy))
                    } else {
                        s0.at(px, py)
                    }),
            decreases inter.y + inter.height - y,
        {
            let mut x = inter.x;
            while x < inter.x + inter.width
                invariant
                    self.wf(),
                    src.wf(),
                    s0 == *old(self),
                    self.width == s0.width && self.height == s0.height,
                    forall|px: int, py: int| inter.contains_point(px, py) <==> (s0.in_bounds(px, py) && clip.contains_point(px, py)),
                    inter.x + inter.width <= s0.width && inter.y + inter.height <= s0.height,
                    inter.y <= y < inter.y + inter.height,
                    inter.x <= x <= inter.x + inter.width,
                    forall|px: int, py: int| self.in_bounds(px, py) ==> #[trigger] self.at(px, py) == (
                        if inter.contains_point(px, py) && (py < y || (py == y && px < x)) && src.in_bounds(px - ox, py - oy) {
                            composite(s0.at(px, py), src.at(px - ox, py - oy))
                        } else {
                            s0.at(px, py)
                        }),
                decreases inter.x + inter.width - x,
            {
                let sx: i64 = x as i64 - ox as i64;
                let sy: i64 = y as i64 - oy as i64;
                if 0 <= sx && sx < src.width as i64 && 0 <= sy && sy < src.height as i64 {
                    let over = src.get(sx as u16, sy as u16).unwrap();
                    if !over.transparent {
                        let under = self.get(x, y).unwrap();
                        let next = if over.style_only {
                            let mut c = under.duplicate();
                            c.style = under.style.overlay(over.style);
                            c
                        } else {
                            over.duplicate()
                        };
                        self.set_cell(x, y, next);
                    }
                }
                x = x + 1;
            }
            y = y + 1;
        }
    }
}

} // verus!
