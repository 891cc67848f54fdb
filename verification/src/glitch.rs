//! Framebuffer glitch effects. They change cell content only, never the
//! terminal protocol, and repair wide glyphs after every change, so no effect
//! leaves a lead cell without its continuation or a continuation without its
//! lead.
use crate::cell::{is_space_cell, plain_style, Cell, Glyph, Style};
use crate::particles::{output_of, seeded_state, state_after, xorshift, Rng};
use crate::surface::{overlap, shows, Rect, Surface};
use vstd::prelude::*;

verus! {

/// The lead (left) half of a wide glyph.
pub open spec fn is_lead(c: Cell) -> bool {
    c.glyph.display_width == 2 && !c.is_continuation
}

/// Row `y` of a surface, by column.
pub open spec fn surface_row(s: Surface, y: int) -> spec_fn(int) -> Cell {
    |x: int| s.at(x, y)
}

/// Whether column `x` of a row `w` cells wide holds half of a wide glyph
/// whose other half is missing: a lead not followed by a continuation, or a
/// continuation not preceded by a lead.
pub open spec fn dangling(row: spec_fn(int) -> Cell, w: int, x: int) -> bool {
    if is_lead(row(x)) {
        !(x + 1 < w && row(x + 1).is_continuation)
    } else if row(x).is_continuation {
        !(x > 0 && is_lead(row(x - 1)))
    } else {
        false
    }
}

/// `c` is what repairing `d` gives: a blank in `d`'s style where `d` dangled,
/// `d` itself otherwise.
pub open spec fn repaired(c: Cell, d: Cell, dangles: bool) -> bool {
    if dangles { is_space_cell(c, d.style) } else { c == d }
}

/// The cell that `sanitize_wide` leaves at `(x, y)` of `s`, within the rectangle.
pub open spec fn sanitized(c: Cell, s: Surface, x: int, y: int) -> bool {
    repaired(c, s.at(x, y), dangling(surface_row(s, y), s.width as int, x))
}

/// `s1` is what repairing the wide glyphs of `rect` in `s0` gives.
pub open spec fn sanitize_post(s0: Surface, s1: Surface, rect: Rect) -> bool {
    &&& s1.wf()
    &&& s1.width == s0.width
    &&& s1.height == s0.height
    &&& forall|px: int, py: int| s1.in_bounds(px, py) ==> if rect.contains_point(px, py) {
        sanitized(#[trigger] s1.at(px, py), s0, px, py)
    } else {
        s1.at(px, py) == s0.at(px, py)
    }
}

/// Repairs wide-glyph pairs in `rect`: a lead not followed by a continuation,
/// and a continuation not preceded by a lead, become blanks in their own style.
/// Afterwards no cell of `rect` dangles.
pub fn sanitize_wide(surface: &mut Surface, rect: Rect)
    requires
        old(surface).wf(),
    ensures
        sanitize_post(*old(surface), *final(surface), rect),
        forall|px: int, py: int| final(surface).in_bounds(px, py) && rect.contains_point(px, py) ==>
            !dangling(surface_row(*final(surface), py), final(surface).width as int, px),
{
    let ghost s0 = *surface;
    let inter = surface.area().intersection(&rect);
    if inter.is_empty() {
        return;
    }
    assert(inter.x + inter.width <= s0.width && inter.y + inter.height <= s0.height);
    let x0 = inter.x;
    let x1 = inter.x + inter.width;
    let mut y = inter.y;
    while y < inter.y + inter.height
        invariant
            surface.wf(),
            s0 == *old(surface),
            surface.width == s0.width,
            surface.height == s0.height,
            forall|px: int, py: int| inter.contains_point(px, py) <==> (s0.in_bounds(px, py) && rect.contains_point(px, py)),
            x0 == inter.x,
            x1 == inter.x + inter.width,
            inter.x + inter.width <= s0.width && inter.y + inter.height <= s0.height,
            inter.y <= y <= inter.y + inter.height,
            forall|px: int, py: int| surface.in_bounds(px, py) ==> if inter.contains_point(px, py) && py < y {
                sanitized(#[trigger] surface.at(px, py), s0, px, py)
            } else {
                surface.at(px, py) == s0.at(px, py)
            },
        decreases inter.y + inter.height - y,
    {
        let mut x = x0;
        while x < x1
            invariant
                surface.wf(),
                s0 == *old(surface),
                surface.width == s0.width,
                surface.height == s0.height,
                forall|px: int, py: int| inter.contains_point(px, py) <==> (s0.in_bounds(px, py) && rect.contains_point(px, py)),
                x0 == inter.x,
                x1 == inter.x + inter.width,
                inter.x + inter.width <= s0.width && inter.y + inter.height <= s0.height,
                inter.y <= y < inter.y + inter.height,
                x0 <= x <= x1,
                forall|px: int, py: int| surface.in_bounds(px, py) ==> if inter.contains_point(px, py) && (py < y || (py == y && px < x)) {
                    sanitized(#[trigger] surface.at(px, py), s0, px, py)
                } else {
                    surface.at(px, py) == s0.at(px, py)
                },
            decreases x1 - x,
        {
            let c = surface.get(x, y).unwrap();
            let lead = c.glyph.display_width == 2 && !c.is_continuation;
            let cont = c.is_continuation;
            let st = c.style;
            proof {
                assert(*c == s0.at(x as int, y as int));
            }
            let fix = if lead {
                let next_ok = match surface.get(x + 1, y) {
                    Some(n) => n.is_continuation,
                    None => false,
                };
                proof {
                    if x + 1 < s0.width {
                        assert(surface.at(x + 1, y as int) == s0.at(x + 1, y as int));
                    }
                }
                !next_ok
            } else if cont {
                let prev_ok = if x > 0 {
                    match surface.get(x - 1, y) {
                        Some(p) => p.glyph.display_width == 2 && !p.is_continuation,
                        None => false,
                    }
                } else {
                    false
                };
                proof {
                    if x > 0 {
                        let p = surface.at(x - 1, y as int);
                        let q = s0.at(x - 1, y as int);
                        if inter.contains_point(x - 1, y as int) {
                            assert(sanitized(p, s0, x - 1, y as int));
                            if dangling(surface_row(s0, y as int), s0.width as int, x - 1) {
                                assert(!is_lead(q));
                                assert(!is_lead(p));
                            }
                        }
                        assert(is_lead(p) == is_lead(q));
                    }
                }
                !prev_ok
            } else {
                false
            };
            proof {
                assert(fix == dangling(surface_row(s0, y as int), s0.width as int, x as int));
            }
            if fix {
                surface.set_cell(x, y, Cell::space(st));
            }
            x = x + 1;
        }
        y = y + 1;
    }
    proof {
        assert forall|px: int, py: int| surface.in_bounds(px, py) && rect.contains_point(px, py) implies
            !dangling(surface_row(*surface, py), surface.width as int, px) by {
            lemma_sanitized_clean(*surface, s0, rect, px, py);
        }
    }
}

/// After repair, no cell of the repaired rectangle dangles.
proof fn lemma_sanitized_clean(s: Surface, s0: Surface, rect: Rect, px: int, py: int)
    requires
        s.width == s0.width,
        s.height == s0.height,
        s.in_bounds(px, py),
        rect.contains_point(px, py),
        forall|qx: int, qy: int| s.in_bounds(qx, qy) ==> if rect.contains_point(qx, qy) {
            sanitized(#[trigger] s.at(qx, qy), s0, qx, qy)
        } else {
            s.at(qx, qy) == s0.at(qx, qy)
        },
    ensures
        !dangling(surface_row(s, py), s.width as int, px),
{
    let c = s.at(px, py);
    let d = s0.at(px, py);
    assert(sanitized(c, s0, px, py));
    if dangling(surface_row(s0, py), s0.width as int, px) {
        assert(is_space_cell(c, d.style));
    } else {
        assert(c == d);
        if is_lead(d) {
            let n = s.at(px + 1, py);
            let n0 = s0.at(px + 1, py);
            assert(s.in_bounds(px + 1, py));
            if rect.contains_point(px + 1, py) {
                assert(sanitized(n, s0, px + 1, py));
                assert(!dangling(surface_row(s0, py), s0.width as int, px + 1));
            }
            assert(n == n0);
        } else if d.is_continuation {
            let p = s.at(px - 1, py);
            let p0 = s0.at(px - 1, py);
            assert(s.in_bounds(px - 1, py));
            if rect.contains_point(px - 1, py) {
                assert(sanitized(p, s0, px - 1, py));
                if dangling(surface_row(s0, py), s0.width as int, px - 1) {
                    assert(false);
                }
            }
            assert(p == p0);
        }
    }
}


/// A blank, opaque, unstyled cell.
pub open spec fn blank() -> Cell {
    choose|c: Cell| is_space_cell(c, plain_style())
}

/// `blank()` is a blank cell.
proof fn lemma_blank(c: Cell)
    requires
        is_space_cell(c, plain_style()),
    ensures
        is_space_cell(blank(), plain_style()),
{
}

/// Row `y` of `s` with columns `[lo, hi)` moved right by `shift` (left when
/// negative): what comes from outside the span is blank, columns outside the
/// span keep their cells.
pub open spec fn shifted_row(s: Surface, lo: int, hi: int, y: int, shift: int) -> spec_fn(int) -> Cell {
    |x: int| if lo <= x < hi {
        if lo <= x - shift < hi { s.at(x - shift, y) } else { blank() }
    } else {
        s.at(x, y)
    }
}

/// The cell `c` at `(x, y)`, in the span `[lo, hi)`, after the row was shifted
/// by `shift` and repaired.
pub open spec fn shift_result(c: Cell, s: Surface, lo: int, hi: int, x: int, y: int, shift: int) -> bool {
    if lo <= x - shift < hi {
        repaired(c, s.at(x - shift, y), dangling(shifted_row(s, lo, hi, y, shift), s.width as int, x))
    } else {
        is_space_cell(c, plain_style())
    }
}

/// The right end of `rect` within `s`.
pub open spec fn span_end(s: Surface, rect: Rect) -> int {
    if rect.x + rect.width <= s.width { rect.x + rect.width } else { s.width as int }
}

/// The jitter a draw gives: `round(3 * u) - 1` for the draw's top 24 bits
/// `u = v / 2^24`, computed as single-precision floats round it, which puts
/// the steps at these draw values.
pub open spec fn jitter_of(out: u64) -> int {
    let v = out >> 40u64;
    (if v >= 2796203 { 1int } else { 0int }) + (if v >= 8388608 { 1int } else { 0int })
        + (if v >= 13981013 { 1int } else { 0int }) - 1
}

/// The jitter of the `k`-th row of a `row_shift` with `seed`: none for seed
/// zero, else from the `k`-th draw of the seeded generator.
pub open spec fn row_jitter(seed: u64, k: int) -> int {
    if seed == 0 {
        0
    } else {
        jitter_of(output_of(state_after(seeded_state(seed), (k + 1) as nat)))
    }
}

/// Draws the next row jitter.
fn next_jitter(rng: &mut Rng) -> (j: i64)
    ensures
        final(rng).0 == xorshift(old(rng).0),
        j == jitter_of(output_of(final(rng).0)),
{
    let v = rng.next_u64() >> 40u64;
    let a: i64 = if v >= 2796203 { 1 } else { 0 };
    let b: i64 = if v >= 8388608 { 1 } else { 0 };
    let c: i64 = if v >= 13981013 { 1 } else { 0 };
    a + b + c - 1
}

/// Moves the cells of columns `[lo, hi)` of row `y` right by `shift` (left
/// when negative), filling from the other edge with blanks.
fn shift_span(surface: &mut Surface, lo: u16, hi: u16, y: u16, shift: i64)
    requires
        old(surface).wf(),
        lo <= hi <= old(surface).width,
        y < old(surface).height,
    ensures
        final(surface).wf(),
        final(surface).width == old(surface).width,
        final(surface).height == old(surface).height,
        forall|px: int, py: int| final(surface).in_bounds(px, py) ==> if py == y && lo <= px < hi {
            if lo <= px - shift < hi {
                #[trigger] final(surface).at(px, py) == old(surface).at(px - shift, py)
            } else {
                is_space_cell(final(surface).at(px, py), plain_style())
            }
        } else {
            final(surface).at(px, py) == old(surface).at(px, py)
        },
{
    let w: u16 = hi - lo;
    let mut row: Vec<Cell> = Vec::new();
    let mut out: Vec<Cell> = Vec::new();
    let mut i: u16 = 0;
    while i < w
        invariant
            surface.wf(),
            lo <= hi <= surface.width,
            y < surface.height,
            w == hi - lo,
            i <= w,
            row@.len() == i,
            out@.len() == i,
            forall|j: int| 0 <= j < i ==> #[trigger] row@[j] == surface.at(lo + j, y as int),
            forall|j: int| 0 <= j < i ==> is_space_cell(#[trigger] out@[j], plain_style()),
        decreases w - i,
    {
        row.push(surface.get(lo + i, y).unwrap().duplicate());
        out.push(Cell::default());
        i = i + 1;
    }
    let mut i: u16 = 0;
    while i < w
        invariant
            w == hi - lo,
            i <= w,
            row@.len() == w,
            out@.len() == w,
            forall|t: int| 0 <= t < w ==> if 0 <= t - shift < i {
                #[trigger] out@[t] == row@[t - shift]
            } else {
                is_space_cell(out@[t], plain_style())
            },
        decreases w - i,
    {
        let in_range = if shift >= 0 { (w as i64) - (i as i64) > shift } else { (i as i64) + shift >= 0 };
        if in_range {
            let t: usize = ((i as i64) + shift) as usize;
            out.set(t, row[i as usize].duplicate());
        }
        i = i + 1;
    }
    let ghost s1 = *surface;
    let mut i: u16 = 0;
    while i < w
        invariant
            surface.wf(),
            surface.width == s1.width,
            surface.height == s1.height,
            lo <= hi <= surface.width,
            y < surface.height,
            w == hi - lo,
            i <= w,
            out@.len() == w,
            forall|px: int, py: int| surface.in_bounds(px, py) ==> if py == y && lo <= px < lo + i {
                #[trigger] surface.at(px, py) == out@[px - lo]
            } else {
                surface.at(px, py) == s1.at(px, py)
            },
        decreases w - i,
    {
        surface.set_cell(lo + i, y, out[i as usize].duplicate());
        i = i + 1;
    }
    proof {
        assert forall|px: int, py: int| surface.in_bounds(px, py) && py == y && lo <= px < hi implies
            if lo <= px - shift < hi {
                #[trigger] surface.at(px, py) == s1.at(px - shift, py)
            } else {
                is_space_cell(surface.at(px, py), plain_style())
            } by {
            assert(surface.at(px, py) == out@[px - lo]);
            if lo <= px - shift < hi {
                assert(out@[px - lo] == row@[px - lo - shift]);
            }
        }
    }
}

/// Rows that agree on which cells are leads and which are continuations
/// agree on which cells dangle.
proof fn lemma_dangling_same_shape(a: spec_fn(int) -> Cell, b: spec_fn(int) -> Cell, w: int, x: int)
    requires
        is_lead(a(x)) == is_lead(b(x)) && a(x).is_continuation == b(x).is_continuation,
        x > 0 ==> is_lead(a(x - 1)) == is_lead(b(x - 1)),
        x + 1 < w ==> a(x + 1).is_continuation == b(x + 1).is_continuation,
    ensures
        dangling(a, w, x) == dangling(b, w, x),
{
}

/// Shifts the rows of `rect` horizontally by `amount` cells (plus, for a
/// non-zero `seed`, a seeded jitter of -1 to 2 per row), filling from the
/// opposite edge with blanks; whole cells move together, then wide glyphs are
/// repaired. A zero `amount` changes nothing.
pub fn row_shift(surface: &mut Surface, rect: Rect, amount: i32, seed: u64)
    requires
        old(surface).wf(),
    ensures
        final(surface).wf(),
        final(surface).width == old(surface).width,
        final(surface).height == old(surface).height,
        forall|px: int, py: int| final(surface).in_bounds(px, py) ==> if amount != 0 && rect.contains_point(px, py) {
            shift_result(#[trigger] final(surface).at(px, py), *old(surface), rect.x as int, span_end(*old(surface), rect),
                px, py, amount + row_jitter(seed, py - rect.y))
        } else {
            final(surface).at(px, py) == old(surface).at(px, py)
        },
        amount != 0 ==> forall|px: int, py: int| final(surface).in_bounds(px, py) && rect.contains_point(px, py) ==>
            !dangling(surface_row(*final(surface), py), final(surface).width as int, px),
{
    let ghost s0 = *surface;
    let inter = surface.area().intersection(&rect);
    if inter.is_empty() || amount == 0 {
        return;
    }
    assert(inter.x + inter.width <= s0.width && inter.y + inter.height <= s0.height);
    assert(inter.x == rect.x && inter.y == rect.y && inter.x + inter.width == span_end(s0, rect));
    let mut rng = Rng::new(seed);
    let mut y = inter.y;
    while y < inter.y + inter.height
        invariant
            surface.wf(),
            s0 == *old(surface),
            amount != 0,
            surface.width == s0.width,
            surface.height == s0.height,
            forall|px: int, py: int| inter.contains_point(px, py) <==> (s0.in_bounds(px, py) && rect.contains_point(px, py)),
            inter.x == rect.x && inter.y == rect.y && inter.x + inter.width == span_end(s0, rect),
            inter.x + inter.width <= s0.width && inter.y + inter.height <= s0.height,
            inter.y <= y <= inter.y + inter.height,
            seed != 0 ==> rng.0 == state_after(seeded_state(seed), (y - inter.y) as nat),
            forall|px: int, py: int| surface.in_bounds(px, py) ==> if inter.contains_point(px, py) && py < y {
                let sh = amount + row_jitter(seed, py - rect.y);
                if rect.x <= px - sh < span_end(s0, rect) {
                    #[trigger] surface.at(px, py) == s0.at(px - sh, py)
                } else {
                    is_space_cell(surface.at(px, py), plain_style())
                }
            } else {
                surface.at(px, py) == s0.at(px, py)
            },
        decreases inter.y + inter.height - y,
    {
        let ghost k = y - inter.y;
        let jitter: i64 = if seed != 0 { next_jitter(&mut rng) } else { 0 };
        proof {
            assert(state_after(seeded_state(seed), (k + 1) as nat) == xorshift(state_after(seeded_state(seed), k as nat)));
            if seed != 0 {
                assert(rng.0 == state_after(seeded_state(seed), (k + 1) as nat));
            }
            assert(jitter == row_jitter(seed, y - rect.y));
        }
        let shift: i64 = amount as i64 + jitter;
        shift_span(surface, inter.x, inter.x + inter.width, y, shift);
        y = y + 1;
    }
    let ghost mid = *surface;
    let c0 = Cell::space(Style::new());
    sanitize_wide(surface, inter);
    proof {
        lemma_blank(c0);
        let lo = rect.x as int;
        let hi = span_end(s0, rect);
        assert forall|px: int, py: int| surface.in_bounds(px, py) && rect.contains_point(px, py) implies
            shift_result(#[trigger] surface.at(px, py), s0, lo, hi, px, py, amount + row_jitter(seed, py - rect.y)) by {
            let sh = amount + row_jitter(seed, py - rect.y);
            let m = shifted_row(s0, lo, hi, py, sh);
            let r = surface_row(mid, py);
            assert(inter.contains_point(px, py));
            assert forall|q: int| 0 <= q < s0.width implies is_lead(#[trigger] r(q)) == is_lead(m(q))
                && r(q).is_continuation == m(q).is_continuation by {
                assert(mid.in_bounds(q, py));
                if lo <= q < hi {
                    assert(inter.contains_point(q, py));
                }
            }
            lemma_dangling_same_shape(r, m, s0.width as int, px);
        }
    }
}


/// Inverts the style of every opaque cell in `rect`; transparent cells are
/// left as they are.
pub fn invert_rect(surface: &mut Surface, rect: Rect)
    requires
        old(surface).wf(),
    ensures
        final(surface).wf(),
        final(surface).width == old(surface).width,
        final(surface).height == old(surface).height,
        forall|px: int, py: int| final(surface).in_bounds(px, py) ==> #[trigger] final(surface).at(px, py) == (
            if rect.contains_point(px, py) && !old(surface).at(px, py).transparent {
                Cell { style: Style { reverse: true, ..old(surface).at(px, py).style }, ..old(surface).at(px, py) }
            } else {
                old(surface).at(px, py)
            }),
{
    let ghost s0 = *surface;
    let inter = surface.area().intersection(&rect);
    if inter.is_empty() {
        return;
    }
    assert(inter.x + inter.width <= s0.width && inter.y + inter.height <= s0.height);
    let mut y = inter.y;
    while y < inter.y + inter.height
        invariant
            surface.wf(),
            s0 == *old(surface),
            surface.width == s0.width,
            surface.height == s0.height,
            forall|px: int, py: int| inter.contains_point(px, py) <==> (s0.in_bounds(px, py) && rect.contains_point(px, py)),
            inter.x + inter.width <= s0.width && inter.y + inter.height <= s0.height,
            inter.y <= y <= inter.y + inter.height,
            forall|px: int, py: int| surface.in_bounds(px, py) ==> #[trigger] surface.at(px, py) == (
                if inter.contains_point(px, py) && py < y && !s0.at(px, py).transparent {
                    Cell { style: Style { reverse: true, ..s0.at(px, py).style }, ..s0.at(px, py) }
                } else {
                    s0.at(px, py)
                }),
        decreases inter.y + inter.height - y,
    {
        let mut x = inter.x;
        while x < inter.x + inter.width
            invariant
                surface.wf(),
                s0 == *old(surface),
                surface.width == s0.width,
                surface.height == s0.height,
                forall|px: int, py: int| inter.contains_point(px, py) <==> (s0.in_bounds(px, py) && rect.contains_point(px, py)),
                inter.x + inter.width <= s0.width && inter.y + inter.height <= s0.height,
                inter.y <= y < inter.y + inter.height,
                inter.x <= x <= inter.x + inter.width,
                forall|px: int, py: int| surface.in_bounds(px, py) ==> #[trigger] surface.at(px, py) == (
                    if inter.contains_point(px, py) && (py < y || (py == y && px < x)) && !s0.at(px, py).transparent {
                        Cell { style: Style { reverse: true, ..s0.at(px, py).style }, ..s0.at(px, py) }
                    } else {
                        s0.at(px, py)
                    }),
            decreases inter.x + inter.width - x,
        {
            let c = surface.get(x, y).unwrap();
            if !c.transparent {
                let mut d = c.duplicate();
                d.style = d.style.overlay(Style::new().reverse());
                surface.set_cell(x, y, d);
            }
            x = x + 1;
        }
        y = y + 1;
    }
}

/// The sideways jump a tear draw gives: `round(7 * u) - 3` for the draw's top
/// 24 bits `u = v / 2^24`, computed as single-precision floats round it, which
/// puts the steps at these draw values.
pub open spec fn tear_offset(out: u64) -> int {
    let v = out >> 40u64;
    (if v >= 1198373 { 1int } else { 0int }) + (if v >= 3595118 { 1int } else { 0int })
        + (if v >= 5991863 { 1int } else { 0int }) + (if v >= 8388608 { 1int } else { 0int })
        + (if v >= 10785353 { 1int } else { 0int }) + (if v >= 13182098 { 1int } else { 0int })
        + (if v >= 15578843 { 1int } else { 0int }) - 3
}

/// Whether a draw tears its row: its top 24 bits, as a fraction of `2^24`,
/// fall below one quarter.
pub open spec fn tears(out: u64) -> bool {
    (out >> 40u64) < 0x40_0000
}

/// The generator state after deciding one row of `tear` from state `st`: one
/// draw, and a second when the row tears.
pub open spec fn tear_step(st: u64) -> u64 {
    let s1 = xorshift(st);
    if tears(output_of(s1)) { xorshift(s1) } else { s1 }
}

/// The jump of the row decided from state `st`; zero when it does not tear.
pub open spec fn tear_shift(st: u64) -> int {
    let s1 = xorshift(st);
    if tears(output_of(s1)) { tear_offset(output_of(xorshift(s1))) } else { 0 }
}

/// The generator state before row `k` of `tear`.
pub open spec fn tear_state(st: u64, k: nat) -> u64
    decreases k,
{
    if k == 0 { st } else { tear_step(tear_state(st, (k - 1) as nat)) }
}

/// The jump of row `py` of `rect` in a `tear` with `seed`.
pub open spec fn tear_row_shift(seed: u64, rect: Rect, py: int) -> int {
    tear_shift(tear_state(seeded_state(seed), (py - rect.y) as nat))
}

/// Shift results depend only on the row they are taken in.
proof fn lemma_shift_result_row(c: Cell, a: Surface, b: Surface, lo: int, hi: int, x: int, y: int, shift: int)
    requires
        a.width == b.width,
        a.height == b.height,
        0 <= lo <= hi <= a.width,
        lo <= x < hi,
        forall|q: int| 0 <= q < a.width ==> #[trigger] a.at(q, y) == b.at(q, y),
    ensures
        shift_result(c, a, lo, hi, x, y, shift) == shift_result(c, b, lo, hi, x, y, shift),
{
    let ra = shifted_row(a, lo, hi, y, shift);
    let rb = shifted_row(b, lo, hi, y, shift);
    if lo <= x - shift < hi {
        assert(a.at(x - shift, y) == b.at(x - shift, y));
        assert(ra(x) == rb(x));
        if x > 0 {
            assert(ra(x - 1) == rb(x - 1));
        }
        if x + 1 < a.width {
            assert(ra(x + 1) == rb(x + 1));
        }
        lemma_dangling_same_shape(ra, rb, a.width as int, x);
    }
}

/// `s1` is `s0` torn in `rect` with `seed`: each row of `rect` that the
/// seed picks is shifted and repaired, every other cell is kept, and no wide
/// glyph dangles in a shifted row.
pub open spec fn torn(s0: Surface, s1: Surface, rect: Rect, seed: u64) -> bool {
    &&& s1.wf()
    &&& s1.width == s0.width
    &&& s1.height == s0.height
    &&& forall|px: int, py: int| s1.in_bounds(px, py) ==> if rect.contains_point(px, py) && tear_row_shift(seed, rect, py) != 0 {
        shift_result(#[trigger] s1.at(px, py), s0, rect.x as int, span_end(s0, rect), px, py, tear_row_shift(seed, rect, py))
    } else {
        s1.at(px, py) == s0.at(px, py)
    }
    &&& forall|px: int, py: int| s1.in_bounds(px, py) && rect.contains_point(px, py) && tear_row_shift(seed, rect, py) != 0 ==>
        !dangling(surface_row(s1, py), s1.width as int, px)
}

/// The two cells show the same thing: the same text, width, style and flags.
pub open spec fn same_cell(a: Cell, b: Cell) -> bool {
    &&& a.glyph.grapheme@ == b.glyph.grapheme@
    &&& a.glyph.display_width == b.glyph.display_width
    &&& a.style == b.style
    &&& a.is_continuation == b.is_continuation
    &&& a.transparent == b.transparent
    &&& a.style_only == b.style_only
}

/// Tearing is deterministic: tearing the same surface in the same rectangle
/// with the same seed gives the same cells. Cells outside the rectangle are
/// kept, so a rectangle that misses the surface leaves it as it was.
pub proof fn law_tear_is_deterministic(s0: Surface, s1: Surface, s2: Surface, rect: Rect, seed: u64)
    requires
        s0.wf(),
        torn(s0, s1, rect, seed),
        torn(s0, s2, rect, seed),
    ensures
        s1.width == s2.width && s1.height == s2.height,
        forall|px: int, py: int| s1.in_bounds(px, py) ==> same_cell(#[trigger] s1.at(px, py), s2.at(px, py)),
        forall|px: int, py: int| s1.in_bounds(px, py) && !rect.contains_point(px, py) ==> #[trigger] s1.at(px, py) == s0.at(px, py),
{
    assert forall|px: int, py: int| s1.in_bounds(px, py) implies same_cell(#[trigger] s1.at(px, py), s2.at(px, py)) by {
        assert(s2.in_bounds(px, py));
    }
}

/// Horizontal tearing: seeded rows of `rect` (about one in four) jump
/// sideways by -3 to 3 cells, filled with blanks and with wide glyphs repaired.
pub fn tear(surface: &mut Surface, rect: Rect, seed: u64)
    requires
        old(surface).wf(),
    ensures
        torn(*old(surface), *final(surface), rect, seed),
{
    let ghost s0 = *surface;
    let inter = surface.area().intersection(&rect);
    if inter.is_empty() {
        return;
    }
    assert(inter.x + inter.width <= s0.width && inter.y + inter.height <= s0.height);
    assert(inter.x == rect.x && inter.y == rect.y && inter.x + inter.width == span_end(s0, rect));
    let mut rng = Rng::new(seed);
    let mut y = inter.y;
    while y < inter.y + inter.height
        invariant
            surface.wf(),
            s0 == *old(surface),
            surface.width == s0.width,
            surface.height == s0.height,
            forall|px: int, py: int| inter.contains_point(px, py) <==> (s0.in_bounds(px, py) && rect.contains_point(px, py)),
            inter.x == rect.x && inter.y == rect.y && inter.x + inter.width == span_end(s0, rect),
            inter.x + inter.width <= s0.width && inter.y + inter.height <= s0.height,
            inter.y <= y <= inter.y + inter.height,
            rng.0 == tear_state(seeded_state(seed), (y - inter.y) as nat),
            forall|px: int, py: int| surface.in_bounds(px, py) ==> if inter.contains_point(px, py) && py < y && tear_row_shift(seed, rect, py) != 0 {
                &&& shift_result(#[trigger] surface.at(px, py), s0, rect.x as int, span_end(s0, rect), px, py, tear_row_shift(seed, rect, py))
                &&& !dangling(surface_row(*surface, py), surface.width as int, px)
            } else {
                surface.at(px, py) == s0.at(px, py)
            },
        decreases inter.y + inter.height - y,
    {
        let ghost st = rng.0;
        let ghost k = (y - inter.y) as nat;
        let v = rng.next_u64() >> 40u64;
        if v < 0x40_0000 {
            let d = rng.next_u64() >> 40u64;
            let mut a: i32 = 0 - 3;
            if d >= 1198373 { a = a + 1; }
            if d >= 3595118 { a = a + 1; }
            if d >= 5991863 { a = a + 1; }
            if d >= 8388608 { a = a + 1; }
            if d >= 10785353 { a = a + 1; }
            if d >= 13182098 { a = a + 1; }
            if d >= 15578843 { a = a + 1; }
            let ghost before = *surface;
            proof {
                assert(a == tear_shift(st));
                assert(tear_row_shift(seed, rect, y as int) == tear_shift(st));
            }
            row_shift(surface, Rect::new(inter.x, y, inter.width, 1), a, 0);
            proof {
                let r1 = Rect { x: inter.x, y: y, width: inter.width, height: 1 };
                assert(span_end(before, r1) == span_end(s0, rect));
                assert forall|px: int, py: int| surface.in_bounds(px, py) implies if inter.contains_point(px, py) && py < y + 1 && tear_row_shift(seed, rect, py) != 0 {
                    &&& shift_result(#[trigger] surface.at(px, py), s0, rect.x as int, span_end(s0, rect), px, py, tear_row_shift(seed, rect, py))
                    &&& !dangling(surface_row(*surface, py), surface.width as int, px)
                } else {
                    surface.at(px, py) == s0.at(px, py)
                } by {
                    if py == y {
                        if inter.contains_point(px, py) && a != 0 {
                            assert(r1.contains_point(px, py));
                            assert(row_jitter(0, py - r1.y) == 0);
                            assert forall|q: int| 0 <= q < s0.width implies #[trigger] before.at(q, y as int) == s0.at(q, y as int) by {
                                assert(before.in_bounds(q, y as int));
                            }
                            lemma_shift_result_row(surface.at(px, py), before, s0, rect.x as int, span_end(s0, rect), px, py, a as int);
                        }
                    } else {
                        assert(!r1.contains_point(px, py));
                        if inter.contains_point(px, py) && py < y && tear_row_shift(seed, rect, py) != 0 {
                            assert(surface.at(px, py) == before.at(px, py));
                            assert forall|q: int| 0 <= q < s0.width implies #[trigger] surface_row(*surface, py)(q) == surface_row(before, py)(q) by {
                                assert(surface.in_bounds(q, py));
                                assert(!r1.contains_point(q, py));
                            }
                            lemma_dangling_same_shape(surface_row(*surface, py), surface_row(before, py), s0.width as int, px);
                        }
                    }
                }
            }
        } else {
            proof {
                assert(tear_row_shift(seed, rect, y as int) == 0);
            }
        }
        proof {
            assert(rng.0 == tear_step(st));
            assert(tear_state(seeded_state(seed), k + 1) == tear_step(tear_state(seeded_state(seed), k)));
        }
        y = y + 1;
    }
}


/// Repairing twice is repairing once: the second repair finds nothing
/// dangling and changes no cell.
pub proof fn law_sanitize_is_idempotent(s0: Surface, s1: Surface, s2: Surface, rect: Rect)
    requires
        sanitize_post(s0, s1, rect),
        sanitize_post(s1, s2, rect),
    ensures
        forall|px: int, py: int| s2.in_bounds(px, py) ==> #[trigger] s2.at(px, py) == s1.at(px, py),
{
    assert forall|px: int, py: int| s2.in_bounds(px, py) implies #[trigger] s2.at(px, py) == s1.at(px, py) by {
        if rect.contains_point(px, py) {
            lemma_sanitized_clean(s1, s0, rect, px, py);
            assert(sanitized(s2.at(px, py), s1, px, py));
        }
    }
}


/// The part of `rect` inside the surface, as `Rect::intersection` gives it.
pub open spec fn clipped(s: Surface, rect: Rect) -> Rect {
    let ox = overlap(0, s.width as int, rect.x as int, rect.width as int);
    let oy = overlap(0, s.height as int, rect.y as int, rect.height as int);
    if ox.1 > 0 && oy.1 > 0 {
        Rect { x: ox.0 as u16, y: oy.0 as u16, width: ox.1 as u16, height: oy.1 as u16 }
    } else {
        Rect { x: 0, y: 0, width: 0, height: 0 }
    }
}

/// A cell that scrambling may replace: opaque, not a continuation, one
/// column wide.
pub open spec fn scramble_eligible(c: Cell) -> bool {
    !c.transparent && !c.is_continuation && c.glyph.display_width == 1
}

/// Whether a draw falls below the threshold (out of `2^24`).
pub open spec fn below(out: u64, threshold: u32) -> bool {
    (out >> 40u64) < threshold
}

/// The generator state after visiting cell `c` from state `st`: eligible
/// cells draw once to decide, and once more for the glyph when replaced.
pub open spec fn scramble_step(c: Cell, st: u64, threshold: u32) -> u64 {
    if !scramble_eligible(c) {
        st
    } else {
        let s1 = xorshift(st);
        if below(output_of(s1), threshold) { xorshift(s1) } else { s1 }
    }
}

/// The alphabet index that replaces cell `c` visited from state `st`, if any.
pub open spec fn scramble_pick(c: Cell, st: u64, threshold: u32, len: nat) -> Option<int> {
    if !scramble_eligible(c) {
        None
    } else {
        let s1 = xorshift(st);
        if below(output_of(s1), threshold) { Some((output_of(xorshift(s1)) as nat % len) as int) } else { None }
    }
}

/// The texts of string slices.
pub open spec fn texts(a: Seq<&str>) -> Seq<Seq<char>> {
    a.map_values(|t: &str| t@)
}

/// Cell `k` of `r` in row-major order.
pub open spec fn walk_cell(s: Surface, r: Rect, k: int) -> Cell {
    s.at(r.x + k % (r.width as int), r.y + k / (r.width as int))
}

/// The generator state before cell `k` of the walk over `r`.
pub open spec fn walk_state(s: Surface, r: Rect, threshold: u32, st0: u64, k: int) -> u64
    decreases k,
{
    if k <= 0 { st0 } else { scramble_step(walk_cell(s, r, k - 1), walk_state(s, r, threshold, st0, k - 1), threshold) }
}

/// The walk position of `(x, y)` inside `r`.
pub open spec fn walk_index(r: Rect, x: int, y: int) -> int {
    (y - r.y) * (r.width as int) + (x - r.x)
}

/// `mid` is `s0` with the seeded replacements of a scramble over `rect`,
/// before wide glyphs are repaired.
pub open spec fn scramble_mid(s0: Surface, mid: Surface, rect: Rect, alphabet: Seq<Seq<char>>, threshold: u32, seed: u64, style: Style) -> bool {
    let r = clipped(s0, rect);
    &&& mid.wf()
    &&& mid.width == s0.width
    &&& mid.height == s0.height
    &&& forall|px: int, py: int| mid.in_bounds(px, py) ==> if r.contains_point(px, py) {
        match scramble_pick(s0.at(px, py), walk_state(s0, r, threshold, seeded_state(seed), walk_index(r, px, py)), threshold, alphabet.len()) {
            Some(j) => shows(#[trigger] mid.at(px, py), alphabet[j], style),
            None => mid.at(px, py) == s0.at(px, py),
        }
    } else {
        mid.at(px, py) == s0.at(px, py)
    }
}

proof fn lemma_walk_index(r: Rect, x: int, y: int)
    requires
        r.contains_point(x, y),
    ensures
        walk_index(r, x, y) >= 0,
        walk_index(r, x, y) % (r.width as int) == x - r.x,
        walk_index(r, x, y) / (r.width as int) == y - r.y,
        walk_index(r, x, y) + 1 == walk_index(r, x + 1, y),
{
    let w = r.width as int;
    let k = walk_index(r, x, y);
    assert(k == (y - r.y) * w + (x - r.x));
    assert(0 <= (y - r.y) * w) by (nonlinear_arith) requires y - r.y >= 0, w >= 0;
    assert(k % w == x - r.x && k / w == y - r.y) by (nonlinear_arith)
        requires k == (y - r.y) * w + (x - r.x), 0 <= x - r.x < w, y - r.y >= 0;
    assert((y - r.y) * w + (x + 1 - r.x) == k + 1);
}

/// Replaces seeded narrow cells of `rect` with glyphs of `alphabet` in
/// `style`: each opaque, one-column, non-continuation cell, visited row by
/// row, draws a number whose top 24 bits are compared with `threshold` (out
/// of `2^24`); below it, a second draw picks the glyph. Wide glyphs are then
/// repaired. Deterministic for a given `seed`; an empty alphabet changes
/// nothing.
pub fn scramble_rect_scaled(surface: &mut Surface, rect: Rect, alphabet: &[&str], threshold: u32, seed: u64, style: Style)
    requires
        old(surface).wf(),
    ensures
        alphabet@.len() == 0 ==> *final(surface) == *old(surface),
        alphabet@.len() > 0 ==> exists|mid: Surface|
            #[trigger] scramble_mid(*old(surface), mid, rect, texts(alphabet@), threshold, seed, style)
                && sanitize_post(mid, *final(surface), rect),
{
    if alphabet.len() == 0 {
        return;
    }
    let ghost s0 = *surface;
    let ghost av = texts(alphabet@);
    let inter = surface.area().intersection(&rect);
    proof {
        assert(inter == clipped(s0, rect));
    }
    let mut rng = Rng::new(seed);
    let len = alphabet.len();
    if !inter.is_empty() {
        assert(inter.x + inter.width <= s0.width && inter.y + inter.height <= s0.height);
        let mut y = inter.y;
        while y < inter.y + inter.height
            invariant
                surface.wf(),
                s0 == *old(surface),
                surface.width == s0.width,
                surface.height == s0.height,
                inter == clipped(s0, rect),
                inter.width > 0 && inter.height > 0,
                forall|px: int, py: int| inter.contains_point(px, py) <==> (s0.in_bounds(px, py) && rect.contains_point(px, py)),
                inter.x + inter.width <= s0.width && inter.y + inter.height <= s0.height,
                inter.y <= y <= inter.y + inter.height,
                len == alphabet@.len(),
                len > 0,
                av == texts(alphabet@),
                rng.0 == walk_state(s0, inter, threshold, seeded_state(seed), walk_index(inter, inter.x as int, y as int)),
                forall|px: int, py: int| surface.in_bounds(px, py) ==> if inter.contains_point(px, py) && py < y {
                    match scramble_pick(s0.at(px, py), walk_state(s0, inter, threshold, seeded_state(seed), walk_index(inter, px, py)), threshold, av.len()) {
                        Some(j) => shows(#[trigger] surface.at(px, py), av[j], style),
                        None => surface.at(px, py) == s0.at(px, py),
                    }
                } else {
                    surface.at(px, py) == s0.at(px, py)
                },
            decreases inter.y + inter.height - y,
        {
            let mut x = inter.x;
            while x < inter.x + inter.width
                invariant
                    surface.wf(),
                    s0 == *old(surface),
                    surface.width == s0.width,
                    surface.height == s0.height,
                    inter == clipped(s0, rect),
                    inter.width > 0 && inter.height > 0,
                    forall|px: int, py: int| inter.contains_point(px, py) <==> (s0.in_bounds(px, py) && rect.contains_point(px, py)),
                    inter.x + inter.width <= s0.width && inter.y + inter.height <= s0.height,
                    inter.y <= y < inter.y + inter.height,
                    inter.x <= x <= inter.x + inter.width,
                    len == alphabet@.len(),
                    len > 0,
                    av == texts(alphabet@),
                    rng.0 == walk_state(s0, inter, threshold, seeded_state(seed), walk_index(inter, x as int, y as int)),
                    forall|px: int, py: int| surface.in_bounds(px, py) ==> if inter.contains_point(px, py) && (py < y || (py == y && px < x)) {
                        match scramble_pick(s0.at(px, py), walk_state(s0, inter, threshold, seeded_state(seed), walk_index(inter, px, py)), threshold, av.len()) {
                            Some(j) => shows(#[trigger] surface.at(px, py), av[j], style),
                            None => surface.at(px, py) == s0.at(px, py),
                        }
                    } else {
                        surface.at(px, py) == s0.at(px, py)
                    },
                decreases inter.x + inter.width - x,
            {
                let ghost k = walk_index(inter, x as int, y as int);
                let ghost st = rng.0;
                proof {
                    lemma_walk_index(inter, x as int, y as int);
                    assert(walk_cell(s0, inter, k) == s0.at(x as int, y as int));
                    assert(walk_state(s0, inter, threshold, seeded_state(seed), k + 1)
                        == scramble_step(s0.at(x as int, y as int), st, threshold));
                }
                let c = surface.get(x, y).unwrap();
                let eligible = !c.transparent && !c.is_continuation && c.glyph.display_width == 1;
                if eligible {
                    let v = rng.next_u64() >> 40u64;
                    if v < threshold as u64 {
                        let out = rng.next_u64();
                        let j: usize = (out % (len as u64)) as usize;
                        let g = alphabet[j];
                        proof {
                            assert(av[j as int] == g@);
                        }
                        surface.set_cell(x, y, Cell::new(Glyph::new(g), style));
                    }
                }
                x = x + 1;
            }
            proof {
                lemma_walk_row_end(inter, y as int);
            }
            y = y + 1;
        }
    }
    let ghost mid = *surface;
    sanitize_wide(surface, inter);
    proof {
        assert(scramble_mid(s0, mid, rect, av, threshold, seed, style));
    }
}

/// The walk position after a row's last cell is the start of the next row.
proof fn lemma_walk_row_end(r: Rect, y: int)
    ensures
        walk_index(r, r.x + r.width, y) == walk_index(r, r.x as int, y + 1),
{
    assert((y - r.y) * (r.width as int) + (r.width as int) == (y + 1 - r.y) * (r.width as int)) by (nonlinear_arith);
}

} // verus!
