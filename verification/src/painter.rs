//! Painting of the single-line text input widget: horizontally scrolled so
//! that the cursor stays visible, one cell per grapheme cluster, the cursor
//! cluster in the cursor style.
use crate::cell::{glyph_width, is_space_cell, Cell, Glyph, Style};
use crate::input::{cluster_columns, columns_before};
use crate::surface::{overlap, print_post, print_room, shows, Rect, Surface};
use crate::node::{Node, NodeKind, WrapMode};
use crate::cell::{Line, TextAlign};
use crate::layout::{line_view, lines_view, span_views_width, spans_view, wrap_rich_text, wrap_text, LineView, SpanView};
use crate::text::{display_width_of, grapheme_split, graphemes, str_width};
use vstd::prelude::*;

verus! {

/// What painting reports back.
#[derive(Debug, Clone, Copy, PartialEq, Eq, Default)]
pub struct PaintContext {
    /// Where a focused widget asked for the cursor, if any.
    pub cursor_position: Option<(u16, u16)>,
    /// The scroll offset, in columns, that a text input settled on.
    pub text_scroll_offset: Option<usize>,
}

/// The column at which cluster `i` starts.
pub open spec fn gcol(gs: Seq<Seq<char>>, i: int) -> int {
    columns_before(gs, i) as int
}

/// The columns cluster `i` takes (at least one).
pub open spec fn gwid(gs: Seq<Seq<char>>, i: int) -> int {
    cluster_columns(gs[i]) as int
}

/// The scroll offset that keeps column `cc` inside a view `vis` columns wide
/// that was scrolled to `scroll`: scrolled back to the cursor when it is left
/// of the view, forward just enough when it is right of it.
pub open spec fn scroll_for(cc: int, scroll: int, vis: int) -> int {
    if cc < scroll { cc } else if cc - scroll >= vis { cc - vis + 1 } else { scroll }
}

/// Cluster `i` lies wholly inside the view `[sc, sc + vis)`.
pub open spec fn shown(gs: Seq<Seq<char>>, i: int, sc: int, vis: int) -> bool {
    sc <= gcol(gs, i) && gcol(gs, i) + gwid(gs, i) <= sc + vis
}

/// Cluster `i` straddles the left edge of the view.
pub open spec fn cut_left(gs: Seq<Seq<char>>, i: int, sc: int) -> bool {
    gcol(gs, i) < sc < gcol(gs, i) + gwid(gs, i)
}

/// The cursor sits after the last cluster, inside the view.
pub open spec fn end_cursor(gs: Seq<Seq<char>>, ci: int, sc: int, vis: int) -> bool {
    ci >= gs.len() && sc <= gcol(gs, ci) < sc + vis
}

/// Some cluster among the first `k` is drawn at offset `off` of the view:
/// a shown cluster at its column, or the blank left by a cluster cut at the
/// left edge.
pub open spec fn drawn_upto(gs: Seq<Seq<char>>, k: int, sc: int, vis: int, off: int) -> bool {
    (exists|i: int| 0 <= i < k && shown(gs, i, sc, vis) && off == #[trigger] gcol(gs, i) - sc)
        || (exists|i: int| 0 <= i < k && #[trigger] cut_left(gs, i, sc) && off == 0)
}

/// The text of an optional string.
pub open spec fn opt_text(o: Option<&str>) -> Option<Seq<char>> {
    match o {
        Some(t) => Some(t@),
        None => None,
    }
}

/// `s1` is `s0` with the placeholder (if any) printed at the start of
/// `rect`, `n` columns of it.
pub open spec fn placeholder_post(s0: Surface, s1: Surface, rect: Rect, placeholder: Option<Seq<char>>, style: Style, n: u16) -> bool {
    match placeholder {
        Some(ph) => print_post(s0, s1, rect.x, rect.y, ph, style, Some(rect.width), n),
        None => s1 == s0,
    }
}

/// Whether a cluster is drawn extends the record of drawn offsets by one.
proof fn lemma_drawn_extend(gs: Seq<Seq<char>>, i: int, sc: int, vis: int)
    requires
        0 <= i,
    ensures
        forall|off: int| drawn_upto(gs, i + 1, sc, vis, off) <==> (drawn_upto(gs, i, sc, vis, off)
            || (shown(gs, i, sc, vis) && off == gcol(gs, i) - sc) || (cut_left(gs, i, sc) && off == 0)),
{
    assert forall|off: int| drawn_upto(gs, i + 1, sc, vis, off) <==> (drawn_upto(gs, i, sc, vis, off)
        || (shown(gs, i, sc, vis) && off == gcol(gs, i) - sc) || (cut_left(gs, i, sc) && off == 0)) by {
        if drawn_upto(gs, i + 1, sc, vis, off) {
            if exists|k: int| 0 <= k < i + 1 && shown(gs, k, sc, vis) && off == #[trigger] gcol(gs, k) - sc {
                let k = choose|k: int| 0 <= k < i + 1 && shown(gs, k, sc, vis) && off == #[trigger] gcol(gs, k) - sc;
                if k < i {
                    assert(drawn_upto(gs, i, sc, vis, off));
                }
            } else {
                let k = choose|k: int| 0 <= k < i + 1 && #[trigger] cut_left(gs, k, sc) && off == 0;
                if k < i {
                    assert(drawn_upto(gs, i, sc, vis, off));
                }
            }
        }
        if drawn_upto(gs, i, sc, vis, off) {
            if exists|k: int| 0 <= k < i && shown(gs, k, sc, vis) && off == #[trigger] gcol(gs, k) - sc {
                let k = choose|k: int| 0 <= k < i && shown(gs, k, sc, vis) && off == #[trigger] gcol(gs, k) - sc;
                assert(0 <= k < i + 1);
            } else {
                let k = choose|k: int| 0 <= k < i && #[trigger] cut_left(gs, k, sc) && off == 0;
                assert(0 <= k < i + 1);
            }
        }
    }
}

/// Clusters that are not drawn leave the record of drawn offsets as it was.
proof fn lemma_drawn_stable(gs: Seq<Seq<char>>, i: int, n: int, sc: int, vis: int)
    requires
        0 <= i <= n,
        forall|j: int| i <= j < n ==> #[trigger] undrawn(gs, j, sc, vis),
    ensures
        forall|off: int| drawn_upto(gs, n, sc, vis, off) == drawn_upto(gs, i, sc, vis, off),
    decreases n - i,
{
    if i < n {
        lemma_drawn_stable(gs, i + 1, n, sc, vis);
        lemma_drawn_extend(gs, i, sc, vis);
        assert(undrawn(gs, i, sc, vis));
    }
}

/// Cluster `j` is neither shown nor cut at the left edge.
pub open spec fn undrawn(gs: Seq<Seq<char>>, j: int, sc: int, vis: int) -> bool {
    !shown(gs, j, sc, vis) && !cut_left(gs, j, sc)
}

/// Once a cluster reaches past the right edge of the view, no later cluster
/// is shown or cut.
proof fn lemma_after_stop(gs: Seq<Seq<char>>, s: int, sc: int, vis: int)
    requires
        0 <= s < gs.len(),
        sc <= gcol(gs, s),
        gcol(gs, s) + gwid(gs, s) > sc + vis,
        gwid(gs, s) >= 1,
    ensures
        forall|j: int| s <= j < gs.len() ==> #[trigger] undrawn(gs, j, sc, vis),
{
    assert forall|j: int| s <= j < gs.len() implies #[trigger] undrawn(gs, j, sc, vis) by {
        lemma_gcol_mono(gs, s, j);
        assert(gwid(gs, j) >= 1);
        if j > s {
            assert(gcol(gs, s) + gwid(gs, s) <= gcol(gs, j));
            assert(gcol(gs, j) > sc + vis);
        } else {
            assert(j == s);
        }
        assert(!shown(gs, j, sc, vis));
        assert(!cut_left(gs, j, sc));
    }
}

/// The style of cluster `i`: the cursor's on the cursor cluster.
pub open spec fn cluster_style(i: int, ci: int, style: Style, cursor_style: Style) -> Style {
    if i == ci { cursor_style } else { style }
}

/// The cursor index: the cursor clamped to the number of clusters.
pub open spec fn cursor_index(gs: Seq<Seq<char>>, cursor: usize) -> int {
    if cursor <= gs.len() { cursor as int } else { gs.len() as int }
}

/// Columns never shrink along the clusters; each cluster ends where the next
/// starts.
proof fn lemma_gcol_mono(gs: Seq<Seq<char>>, i: int, j: int)
    requires
        0 <= i <= j <= gs.len(),
    ensures
        gcol(gs, i) <= gcol(gs, j),
        i < j ==> gcol(gs, i) + gwid(gs, i) <= gcol(gs, j),
    decreases j - i,
{
    if i < j {
        lemma_gcol_mono(gs, i, j - 1);
        assert(gcol(gs, j) == gcol(gs, j - 1) + gwid(gs, j - 1));
        if i < j - 1 {
        } else {
            assert(i == j - 1);
        }
    }
}

/// The column where cluster `k` starts, for a text whose columns fit in
/// `usize`.
fn column_of(gs: &Vec<String>, k: usize) -> (c: usize)
    requires
        k <= gs@.len(),
        columns_before(gs@.map_values(|x: String| x@), gs@.len() as int) <= usize::MAX,
    ensures
        c == gcol(gs@.map_values(|x: String| x@), k as int),
{
    let ghost v = gs@.map_values(|x: String| x@);
    let mut c: usize = 0;
    let mut i: usize = 0;
    while i < k
        invariant
            i <= k <= gs@.len(),
            v == gs@.map_values(|x: String| x@),
            columns_before(v, gs@.len() as int) <= usize::MAX,
            c == gcol(v, i as int),
        decreases k - i,
    {
        let w0 = str_width(gs[i].as_str());
        let w: usize = if w0 >= 1 { w0 } else { 1 };
        proof {
            assert(v[i as int] == gs@[i as int]@);
            lemma_gcol_mono(v, i as int + 1, gs@.len() as int);
            assert(gcol(v, i as int + 1) == gcol(v, i as int) + gwid(v, i as int));
        }
        c = c + w;
        i = i + 1;
    }
    c
}


/// `s1` and `c1` are the surface and context after `paint_text_input`
/// painted `value` into `rect` of `s0` with context `c0`.
pub open spec fn text_input_post(
    s0: Surface, s1: Surface, c0: PaintContext, c1: PaintContext, rect: Rect, value: Seq<char>, cursor_grapheme: usize,
    placeholder: Option<Seq<char>>, style: Style, placeholder_style: Style, cursor_style: Style, scroll_offset: usize,
) -> bool {
    &&& s1.wf()
    &&& s1.width == s0.width
    &&& s1.height == s0.height
    &&& (rect.width == 0 || rect.height == 0 ==> s1 == s0 && c1 == c0)
    &&& ({
        let gs = grapheme_split(value);
        let y = rect.y as int;
        let x0 = rect.x as int;
        rect.width > 0 && rect.height > 0 && gs.len() == 0 ==> {
            &&& c1.cursor_position == Some((rect.x, rect.y))
            &&& c1.text_scroll_offset == c0.text_scroll_offset
            &&& s1.in_bounds(x0, y) ==> is_space_cell(s1.at(x0, y), cursor_style)
            &&& exists|mid: Surface, n: u16| {
                &&& #[trigger] placeholder_post(s0, mid, rect, placeholder, placeholder_style, n)
                &&& forall|px: int, py: int| s1.in_bounds(px, py) && !(px == x0 && py == y) ==>
                    #[trigger] s1.at(px, py) == mid.at(px, py)
            }
        }
    })
    &&& ({
        let gs = grapheme_split(value);
        let n = gs.len() as int;
        let y = rect.y as int;
        let x0 = rect.x as int;
        let vis = rect.width as int;
        let ci = cursor_index(gs, cursor_grapheme);
        let sc = scroll_for(gcol(gs, ci), scroll_offset as int, vis);
        rect.width > 0 && rect.height > 0 && n > 0 ==> {
            &&& c1.text_scroll_offset == Some(sc as usize)
            &&& c1.cursor_position == if end_cursor(gs, ci, sc, vis) || (ci < n && shown(gs, ci, sc, vis)) {
                    Some(((x0 + gcol(gs, ci) - sc) as u16, rect.y))
                } else {
                    c0.cursor_position
                }
            &&& forall|i: int| 0 <= i < n && shown(gs, i, sc, vis) && s1.in_bounds(x0 + gcol(gs, i) - sc, y) ==>
                    shows(#[trigger] s1.at(x0 + gcol(gs, i) - sc, y), gs[i], cluster_style(i, ci, style, cursor_style))
            &&& forall|i: int| 0 <= i < n && #[trigger] cut_left(gs, i, sc) && s1.in_bounds(x0, y) ==>
                    is_space_cell(s1.at(x0, y), style)
            &&& end_cursor(gs, ci, sc, vis) && s1.in_bounds(x0 + gcol(gs, ci) - sc, y) ==>
                    is_space_cell(s1.at(x0 + gcol(gs, ci) - sc, y), cursor_style)
            &&& forall|px: int, py: int| s1.in_bounds(px, py) && !(py == y && (drawn_upto(gs, n, sc, vis, px - x0)
                    || (end_cursor(gs, ci, sc, vis) && px - x0 == gcol(gs, ci) - sc))) ==>
                    #[trigger] s1.at(px, py) == s0.at(px, py)
        }
    })
}

/// Paints a single-line text input into `rect` (its first row). An empty
/// value shows the placeholder (if any) with the cursor cell at the start.
/// Otherwise the view scrolls so that the cursor column stays visible; each
/// cluster wholly inside the view is drawn at its column (the cursor cluster
/// in `cursor_style`), a cluster cut by the left edge leaves a blank there,
/// and a cursor after the last cluster is drawn as a blank in `cursor_style`.
/// `ctx` receives the scroll offset and the cursor position.
pub fn paint_text_input(
    rect: Rect,
    value: &str,
    cursor_grapheme: usize,
    placeholder: Option<&str>,
    style: Style,
    placeholder_style: Style,
    cursor_style: Style,
    scroll_offset: usize,
    surface: &mut Surface,
    ctx: &mut PaintContext,
)
    requires
        old(surface).wf(),
        rect.x + rect.width <= u16::MAX,
        columns_before(grapheme_split(value@), grapheme_split(value@).len() as int) <= usize::MAX,
    ensures
        text_input_post(*old(surface), *final(surface), *old(ctx), *final(ctx), rect, value@, cursor_grapheme,
            opt_text(placeholder), style, placeholder_style, cursor_style, scroll_offset),
{
    if rect.height == 0 || rect.width == 0 {
        return;
    }
    let y = rect.y;
    let gs = graphemes(value);
    let ghost v = gs@.map_values(|x: String| x@);
    let n = gs.len();
    if n == 0 {
        let ghost s0 = *surface;
        let mut written: u16 = 0;
        match placeholder {
            Some(ph) => {
                written = surface.print_str(rect.x, y, ph, placeholder_style, Some(rect.width));
            },
            None => {},
        }
        let ghost mid = *surface;
        surface.set_cell(rect.x, y, Cell::space(cursor_style));
        ctx.cursor_position = Some((rect.x, y));
        proof {
            assert(placeholder_post(s0, mid, rect, opt_text(placeholder), placeholder_style, written));
        }
        return;
    }
    let ci: usize = if cursor_grapheme <= n { cursor_grapheme } else { n };
    let cc = column_of(&gs, ci);
    let vis: usize = rect.width as usize;
    let sc: usize = if cc < scroll_offset {
        cc
    } else if cc - scroll_offset >= vis {
        cc - vis + 1
    } else {
        scroll_offset
    };
    ctx.text_scroll_offset = Some(sc);
    proof {
        assert(ci as int == cursor_index(v, cursor_grapheme));
        assert(sc as int == scroll_for(gcol(v, ci as int), scroll_offset as int, vis as int));
    }
    let ghost s0 = *surface;
    let ghost cur0 = ctx.cursor_position;
    let mut col: usize = 0;
    let mut i: usize = 0;
    let mut stopped = false;
    while i < n && !stopped
        invariant
            surface.wf(),
            s0 == *old(surface),
            surface.width == s0.width,
            surface.height == s0.height,
            v == gs@.map_values(|x: String| x@),
            v == grapheme_split(value@),
            n == v.len(),
            0 < n,
            i <= n,
            ci as int == cursor_index(v, cursor_grapheme),
            vis == rect.width,
            y == rect.y,
            0 < vis,
            rect.x + rect.width <= u16::MAX,
            columns_before(v, n as int) <= usize::MAX,
            col == gcol(v, i as int),
            sc as int == scroll_for(gcol(v, ci as int), scroll_offset as int, vis as int),
            ctx.text_scroll_offset == Some(sc),
            ctx.cursor_position == if ci < i && shown(v, ci as int, sc as int, vis as int) {
                Some(((rect.x + gcol(v, ci as int) - sc) as u16, rect.y))
            } else {
                cur0
            },
            stopped ==> forall|j: int| i <= j < n ==> #[trigger] undrawn(v, j, sc as int, vis as int),
            forall|k: int| 0 <= k < i && shown(v, k, sc as int, vis as int) && surface.in_bounds(rect.x + gcol(v, k) - sc, y as int) ==>
                shows(#[trigger] surface.at(rect.x + gcol(v, k) - sc, y as int), v[k], cluster_style(k, ci as int, style, cursor_style)),
            forall|k: int| 0 <= k < i && #[trigger] cut_left(v, k, sc as int) && surface.in_bounds(rect.x as int, y as int) ==>
                is_space_cell(surface.at(rect.x as int, y as int), style),
            forall|px: int, py: int| surface.in_bounds(px, py) && !(py == y && drawn_upto(v, i as int, sc as int, vis as int, px - rect.x)) ==>
                #[trigger] surface.at(px, py) == s0.at(px, py),
        decreases 2 * (n - i) + (if stopped { 0int } else { 1int }),
    {
        let w0 = str_width(gs[i].as_str());
        let w: usize = if w0 >= 1 { w0 } else { 1 };
        proof {
            assert(v[i as int] == gs@[i as int]@);
            lemma_gcol_mono(v, i as int + 1, n as int);
            assert(gcol(v, i as int + 1) == gcol(v, i as int) + gwid(v, i as int));
            assert(w as int == gwid(v, i as int));
        }
        let gend = col + w;
        let ghost i0 = i as int;
        let ghost before = *surface;
        if gend <= sc {
            proof {
                assert(!shown(v, i0, sc as int, vis as int) && !cut_left(v, i0, sc as int));
                lemma_drawn_extend(v, i0, sc as int, vis as int);
                assert((ci < i0 + 1 && shown(v, ci as int, sc as int, vis as int)) == (ci < i0 && shown(v, ci as int, sc as int, vis as int)));
            }
            i = i + 1;
            col = gend;
        } else if col >= sc && col - sc >= vis {
            proof {
                lemma_after_stop(v, i0, sc as int, vis as int);
            }
            stopped = true;
        } else if col < sc {
            surface.set_cell(rect.x, y, Cell::space(style));
            proof {
                assert(cut_left(v, i0, sc as int) && !shown(v, i0, sc as int, vis as int));
                lemma_drawn_extend(v, i0, sc as int, vis as int);
                assert forall|k: int| 0 <= k < i0 && shown(v, k, sc as int, vis as int) implies false by {
                    lemma_gcol_mono(v, k, i0);
                }
                assert(drawn_upto(v, i0 + 1, sc as int, vis as int, 0));
                assert((ci < i0 + 1 && shown(v, ci as int, sc as int, vis as int)) == (ci < i0 && shown(v, ci as int, sc as int, vis as int)));
            }
            i = i + 1;
            col = gend;
        } else {
            let d = col - sc;
            if w > vis - d {
                proof {
                    lemma_after_stop(v, i0, sc as int, vis as int);
                }
                stopped = true;
            } else {
                let cell_x: u16 = rect.x + d as u16;
                let st = if i == ci { cursor_style } else { style };
                surface.set_cell(cell_x, y, Cell::new(Glyph::new(gs[i].as_str()), st));
                if i == ci {
                    ctx.cursor_position = Some((cell_x, y));
                }
                proof {
                    assert(shown(v, i0, sc as int, vis as int) && !cut_left(v, i0, sc as int));
                    lemma_drawn_extend(v, i0, sc as int, vis as int);
                    assert(drawn_upto(v, i0 + 1, sc as int, vis as int, gcol(v, i0) - sc));
                    if i0 != ci {
                        assert((ci < i0 + 1 && shown(v, ci as int, sc as int, vis as int)) == (ci < i0 && shown(v, ci as int, sc as int, vis as int)));
                    } else {
                        assert(cell_x == (rect.x + gcol(v, ci as int) - sc) as u16);
                    }
                    assert forall|k: int| 0 <= k < i0 + 1 && shown(v, k, sc as int, vis as int)
                        && surface.in_bounds(rect.x + gcol(v, k) - sc, y as int) implies
                        shows(#[trigger] surface.at(rect.x + gcol(v, k) - sc, y as int), v[k], cluster_style(k, ci as int, style, cursor_style)) by {
                        if k < i0 {
                            lemma_gcol_mono(v, k, i0);
                            assert(before.in_bounds(rect.x + gcol(v, k) - sc, y as int));
                        }
                    }
                    assert forall|k: int| 0 <= k < i0 + 1 && #[trigger] cut_left(v, k, sc as int) && surface.in_bounds(rect.x as int, y as int) implies
                        is_space_cell(surface.at(rect.x as int, y as int), style) by {
                        if k < i0 {
                            lemma_gcol_mono(v, k, i0);
                        }
                    }
                }
                i = i + 1;
                col = gend;
            }
        }
    }
    proof {
        if !stopped {
            assert(i == n);
        }
    }
    let ghost s1 = *surface;
    proof {
        lemma_drawn_stable(v, i as int, n as int, sc as int, vis as int);
        if i <= ci < n {
            assert(undrawn(v, ci as int, sc as int, vis as int));
        }
        assert((ci < n && shown(v, ci as int, sc as int, vis as int)) == (ci < i && shown(v, ci as int, sc as int, vis as int)));
        assert forall|k: int| 0 <= k < n && shown(v, k, sc as int, vis as int) && s1.in_bounds(rect.x + gcol(v, k) - sc, y as int) implies
            shows(#[trigger] s1.at(rect.x + gcol(v, k) - sc, y as int), v[k], cluster_style(k, ci as int, style, cursor_style)) by {
            if k >= i {
                assert(undrawn(v, k, sc as int, vis as int));
            }
        }
        assert forall|k: int| 0 <= k < n && #[trigger] cut_left(v, k, sc as int) && s1.in_bounds(rect.x as int, y as int) implies
            is_space_cell(s1.at(rect.x as int, y as int), style) by {
            if k >= i {
                assert(undrawn(v, k, sc as int, vis as int));
            }
        }
    }
    if ci >= n && cc >= sc && cc - sc < vis {
        let end_x: u16 = rect.x + (cc - sc) as u16;
        surface.set_cell(end_x, y, Cell::space(cursor_style));
        ctx.cursor_position = Some((end_x, y));
        proof {
            assert(end_cursor(v, ci as int, sc as int, vis as int));
            assert forall|k: int| 0 <= k < n && shown(v, k, sc as int, vis as int) && surface.in_bounds(rect.x + gcol(v, k) - sc, y as int) implies
                shows(#[trigger] surface.at(rect.x + gcol(v, k) - sc, y as int), v[k], cluster_style(k, ci as int, style, cursor_style)) by {
                lemma_gcol_mono(v, k, n as int);
                assert(s1.in_bounds(rect.x + gcol(v, k) - sc, y as int));
            }
            assert forall|k: int| 0 <= k < n && #[trigger] cut_left(v, k, sc as int) && surface.in_bounds(rect.x as int, y as int) implies
                is_space_cell(surface.at(rect.x as int, y as int), style) by {
                lemma_gcol_mono(v, k, n as int);
            }
        }
    } else {
        proof {
            assert(!end_cursor(v, ci as int, sc as int, vis as int));
        }
    }
}


/// The total columns of the clusters, or `None` when they exceed `usize`.
fn total_columns(gs: &Vec<String>) -> (t: Option<usize>)
    ensures
        match t {
            Some(c) => c == columns_before(gs@.map_values(|x: String| x@), gs@.len() as int),
            None => columns_before(gs@.map_values(|x: String| x@), gs@.len() as int) > usize::MAX,
        },
{
    let ghost v = gs@.map_values(|x: String| x@);
    let mut c: usize = 0;
    let mut i: usize = 0;
    while i < gs.len()
        invariant
            i <= gs@.len(),
            v == gs@.map_values(|x: String| x@),
            c == gcol(v, i as int),
        decreases gs@.len() - i,
    {
        let w0 = str_width(gs[i].as_str());
        let w: usize = if w0 >= 1 { w0 } else { 1 };
        proof {
            assert(v[i as int] == gs@[i as int]@);
            assert(gcol(v, i as int + 1) == gcol(v, i as int) + gwid(v, i as int));
        }
        if w > usize::MAX - c {
            proof {
                lemma_gcol_mono(v, i as int + 1, gs@.len() as int);
            }
            return None;
        }
        c = c + w;
        i = i + 1;
    }
    Some(c)
}

/// Paints a text input as `paint_text_input` does when the display columns
/// of `value` fit in `usize`, and returns whether it painted; otherwise it
/// changes nothing.
pub fn paint_text_input_checked(
    rect: Rect,
    value: &str,
    cursor_grapheme: usize,
    placeholder: Option<&str>,
    style: Style,
    placeholder_style: Style,
    cursor_style: Style,
    scroll_offset: usize,
    surface: &mut Surface,
    ctx: &mut PaintContext,
) -> (painted: bool)
    requires
        old(surface).wf(),
        rect.x + rect.width <= u16::MAX,
    ensures
        painted == (columns_before(grapheme_split(value@), grapheme_split(value@).len() as int) <= usize::MAX),
        painted ==> text_input_post(*old(surface), *final(surface), *old(ctx), *final(ctx), rect, value@, cursor_grapheme,
            opt_text(placeholder), style, placeholder_style, cursor_style, scroll_offset),
        !painted ==> *final(surface) == *old(surface) && *final(ctx) == *old(ctx),
{
    let gs = graphemes(value);
    match total_columns(&gs) {
        Some(_) => {
            paint_text_input(rect, value, cursor_grapheme, placeholder, style, placeholder_style, cursor_style,
                scroll_offset, surface, ctx);
            true
        },
        None => false,
    }
}


/// `s1` is `s0` with changes inside `clip` only.
pub open spec fn paints_within(s0: Surface, s1: Surface, clip: Rect) -> bool {
    &&& s1.wf()
    &&& s1.width == s0.width
    &&& s1.height == s0.height
    &&& forall|px: int, py: int| s1.in_bounds(px, py) && !clip.contains_point(px, py) ==> #[trigger] s1.at(px, py) == s0.at(px, py)
}

/// The cursor request is unchanged or lies inside `clip`.
pub open spec fn cursor_within(c0: PaintContext, c1: PaintContext, clip: Rect) -> bool {
    c1.cursor_position == c0.cursor_position
        || (c1.cursor_position matches Some((x, y)) && clip.contains_point(x as int, y as int))
}

/// Every cell of `a` is a cell of `b`.
pub open spec fn rect_in(a: Rect, b: Rect) -> bool {
    forall|px: int, py: int| a.contains_point(px, py) ==> b.contains_point(px, py)
}

proof fn lemma_within_trans(s0: Surface, s1: Surface, s2: Surface, a: Rect, b: Rect, clip: Rect)
    requires
        paints_within(s0, s1, a),
        paints_within(s1, s2, b),
        rect_in(a, clip),
        rect_in(b, clip),
    ensures
        paints_within(s0, s2, clip),
{
    assert forall|px: int, py: int| s2.in_bounds(px, py) && !clip.contains_point(px, py) implies #[trigger] s2.at(px, py) == s0.at(px, py) by {
        assert(!a.contains_point(px, py));
        assert(!b.contains_point(px, py));
        assert(s1.in_bounds(px, py));
    }
}

proof fn lemma_cursor_trans(c0: PaintContext, c1: PaintContext, c2: PaintContext, a: Rect, b: Rect, clip: Rect)
    requires
        cursor_within(c0, c1, a),
        cursor_within(c1, c2, b),
        rect_in(a, clip),
        rect_in(b, clip),
    ensures
        cursor_within(c0, c2, clip),
{
}

/// The visible part of a `w x h` node at the signed position `(x, y)`
/// within `clip`; empty when they do not meet.
pub open spec fn signed_intersection(x: int, y: int, w: u16, h: u16, clip: Rect) -> Rect {
    let ox = overlap(x, w as int, clip.x as int, clip.width as int);
    let oy = overlap(y, h as int, clip.y as int, clip.height as int);
    if ox.1 > 0 && oy.1 > 0 {
        Rect { x: ox.0 as u16, y: oy.0 as u16, width: ox.1 as u16, height: oy.1 as u16 }
    } else {
        Rect { x: 0, y: 0, width: 0, height: 0 }
    }
}

/// Intersects a node at a possibly negative position with `clip`.
fn intersect_signed(x: i32, y: i32, w: u16, h: u16, clip: Rect) -> (r: Rect)
    ensures
        r == signed_intersection(x as int, y as int, w, h, clip),
        clip.x + clip.width <= u16::MAX && clip.y + clip.height <= u16::MAX ==> {
            &&& r.x + r.width <= u16::MAX
            &&& r.y + r.height <= u16::MAX
            &&& rect_in(r, clip)
            &&& forall|px: int, py: int| r.contains_point(px, py) ==> x <= px < x + w && y <= py < y + h
        },
{
    let x1: i64 = x as i64 + w as i64;
    let y1: i64 = y as i64 + h as i64;
    let cx1: i64 = clip.x as i64 + clip.width as i64;
    let cy1: i64 = clip.y as i64 + clip.height as i64;
    let ix0: i64 = if x as i64 >= clip.x as i64 { x as i64 } else { clip.x as i64 };
    let iy0: i64 = if y as i64 >= clip.y as i64 { y as i64 } else { clip.y as i64 };
    let ix1: i64 = if x1 <= cx1 { x1 } else { cx1 };
    let iy1: i64 = if y1 <= cy1 { y1 } else { cy1 };
    if ix1 > ix0 && iy1 > iy0 {
        Rect { x: ix0 as u16, y: iy0 as u16, width: (ix1 - ix0) as u16, height: (iy1 - iy0) as u16 }
    } else {
        Rect { x: 0, y: 0, width: 0, height: 0 }
    }
}

/// `v` clamped into the `i32` range.
fn clamp_i32(v: i64) -> (r: i32)
    ensures
        r == (if v < i32::MIN { i32::MIN as int } else if v > i32::MAX { i32::MAX as int } else { v as int }),
{
    if v < i32::MIN as i64 {
        i32::MIN
    } else if v > i32::MAX as i64 {
        i32::MAX
    } else {
        v as i32
    }
}

/// Prints `text` on row `y` of `rect` from column `x`, at most `max` columns,
/// where `[x, x + max)` lies inside `rect`: changes stay inside `rect`.
fn print_in(surface: &mut Surface, rect: Rect, x: u16, y: u16, text: &str, style: Style, max: u16) -> (n: u16)
    requires
        old(surface).wf(),
        rect.x <= x,
        x + max <= rect.x + rect.width,
        rect.y <= y < rect.y + rect.height,
    ensures
        paints_within(*old(surface), *final(surface), rect),
        n <= max,
        print_post(*old(surface), *final(surface), x, y, text@, style, Some(max), n),
{
    let ghost s0 = *surface;
    let n = surface.print_str(x, y, text, style, Some(max));
    proof {
        if s0.in_bounds(x as int, y as int) {
            assert(n <= print_room(s0.width, x, Some(max)));
        }
    }
    n
}

/// Row `y` of `s1` is what printing `line` from the left of `rect`, at most
/// `rect.width` columns, gives on a surface whose row `y` is that of `s0`.
pub open spec fn row_printed(s0: Surface, s1: Surface, rect: Rect, line: Seq<char>, y: int, style: Style) -> bool {
    exists|m: Surface, t: Surface, n: u16| {
        &&& #[trigger] print_post(m, t, rect.x, y as u16, line, style, Some(rect.width), n)
        &&& m.width == s0.width && m.height == s0.height
        &&& forall|px: int| m.in_bounds(px, y) ==> #[trigger] m.at(px, y) == s0.at(px, y)
        &&& forall|px: int| s1.in_bounds(px, y) ==> #[trigger] s1.at(px, y) == t.at(px, y)
    }
}

/// Plain text painted into `rect`: its `k`-th wrapped line printed on row
/// `rect.y + k` (as many lines as the rectangle has rows), the other rows of
/// the rectangle unchanged.
pub open spec fn text_painted(s0: Surface, s1: Surface, rect: Rect, lines: Seq<Seq<char>>, style: Style) -> bool {
    &&& forall|k: int| 0 <= k < lines.len() && k < rect.height ==> #[trigger] row_printed(s0, s1, rect, lines[k], rect.y + k, style)
    &&& forall|px: int, py: int| s1.in_bounds(px, py) && rect.contains_point(px, py) && py - rect.y >= lines.len() ==>
        #[trigger] s1.at(px, py) == s0.at(px, py)
}

/// Paints plain wrapped text into `rect`, one wrapped line per row.
fn paint_text(surface: &mut Surface, rect: Rect, text: &str, style: Style, wrap: WrapMode)
    requires
        old(surface).wf(),
        rect.x + rect.width <= u16::MAX,
        rect.y + rect.height <= u16::MAX,
        rect.width > 0,
    ensures
        paints_within(*old(surface), *final(surface), rect),
        text_painted(*old(surface), *final(surface), rect, crate::layout::wrapped(text@, wrap, rect.width as int), style),
{
    let ghost s0 = *surface;
    let lines = wrap_text(text, wrap, rect.width);
    let ghost ls = crate::layout::views(lines@);
    let n = lines.len();
    let rows: usize = rect.height as usize;
    let limit: usize = if n <= rows { n } else { rows };
    let mut i: usize = 0;
    while i < limit
        invariant
            paints_within(s0, *surface, rect),
            s0 == *old(surface),
            rect.x + rect.width <= u16::MAX,
            rect.y + rect.height <= u16::MAX,
            rect.width > 0,
            ls == crate::layout::views(lines@),
            limit <= lines@.len(),
            limit <= rect.height,
            i <= limit,
            forall|k: int| 0 <= k < i ==> #[trigger] row_printed(s0, *surface, rect, ls[k], rect.y + k, style),
            forall|px: int, py: int| surface.in_bounds(px, py) && rect.contains_point(px, py) && py - rect.y >= i ==>
                #[trigger] surface.at(px, py) == s0.at(px, py),
        decreases limit - i,
    {
        let line_y: u16 = rect.y + i as u16;
        let ghost mid = *surface;
        let ghost y = line_y as int;
        let w = print_in(surface, rect, rect.x, line_y, lines[i].as_str(), style, rect.width);
        proof {
            lemma_within_trans(s0, mid, *surface, rect, rect, rect);
            assert(ls[i as int] == lines@[i as int]@);
            assert forall|px: int| mid.in_bounds(px, y) implies #[trigger] mid.at(px, y) == s0.at(px, y) by {
                if !rect.contains_point(px, y) {
                } else {
                    assert(y - rect.y >= i);
                }
            }
            assert(print_post(mid, *surface, rect.x, y as u16, ls[i as int], style, Some(rect.width), w));
            assert(row_printed(s0, *surface, rect, ls[i as int], rect.y + i, style));
            assert forall|k: int| 0 <= k < i + 1 implies #[trigger] row_printed(s0, *surface, rect, ls[k], rect.y + k, style) by {
                if k < i {
                    assert(row_printed(s0, mid, rect, ls[k], rect.y + k, style));
                    let (m, t, nn) = choose|m: Surface, t: Surface, nn: u16| {
                        &&& #[trigger] print_post(m, t, rect.x, (rect.y + k) as u16, ls[k], style, Some(rect.width), nn)
                        &&& m.width == s0.width && m.height == s0.height
                        &&& forall|px: int| m.in_bounds(px, rect.y + k) ==> #[trigger] m.at(px, rect.y + k) == s0.at(px, rect.y + k)
                        &&& forall|px: int| mid.in_bounds(px, rect.y + k) ==> #[trigger] mid.at(px, rect.y + k) == t.at(px, rect.y + k)
                    };
                    assert forall|px: int| surface.in_bounds(px, rect.y + k) implies #[trigger] surface.at(px, rect.y + k) == t.at(px, rect.y + k) by {
                        assert(mid.in_bounds(px, rect.y + k));
                    }
                }
            }
        }
        i = i + 1;
    }
    proof {
        assert(ls == crate::layout::wrapped(text@, wrap, rect.width as int));
    }
}

/// The columns of a line's spans as a 16-bit number (modulo 65536).
fn line_columns(line: &Line) -> (w: u16)
    ensures
        w == crate::cell::spans_width(line.spans@) % 65536,
{
    let mut w: usize = 0;
    let mut i: usize = 0;
    while i < line.spans.len()
        invariant
            i <= line.spans@.len(),
            w == crate::cell::spans_width(line.spans@.take(i as int)) % 65536,
        decreases line.spans@.len() - i,
    {
        let sw = line.spans[i].display_width();
        proof {
            assert(line.spans@.take(i + 1).drop_last() =~= line.spans@.take(i as int));
            let a = crate::cell::spans_width(line.spans@.take(i as int)) as int;
            let b = sw as int;
            assert((a % 65536 + b % 65536) % 65536 == (a + b) % 65536) by (nonlinear_arith)
                requires a >= 0, b >= 0;
        }
        w = (w + sw % 65536) % 65536;
        i = i + 1;
    }
    proof {
        assert(line.spans@.take(line.spans@.len() as int) =~= line.spans@);
    }
    w as u16
}

/// The summed width of spans, whether taken as spans or as their views.
proof fn lemma_spans_width_view(sp: Seq<crate::cell::Span>)
    ensures
        crate::cell::spans_width(sp) == span_views_width(spans_view(sp)),
    decreases sp.len(),
{
    if sp.len() > 0 {
        lemma_spans_width_view(sp.drop_last());
        assert(spans_view(sp).drop_last() =~= spans_view(sp.drop_last()));
    }
}

/// The column, counted from the left of a row `width` wide, at which a line
/// of `lw` columns starts under `align`.
pub open spec fn align_offset(align: TextAlign, lw: int, width: int) -> int {
    let room = if width >= lw { width - lw } else { 0 };
    match align {
        TextAlign::Left => 0,
        TextAlign::Center => room / 2,
        TextAlign::Right => room,
    }
}

/// Spans printed one after another on row `y`, each as far as `max_x`:
/// span `j` turns `ms[j]` into `ms[j + 1]`, printed from column `xs[j]`, and
/// the next starts where it ended; printing stops after the last span or
/// once the row is full.
pub open spec fn span_chain(ms: Seq<Surface>, xs: Seq<int>, spans: Seq<SpanView>, y: int, max_x: int) -> bool {
    &&& ms.len() == xs.len()
    &&& 1 <= ms.len() <= spans.len() + 1
    &&& spans_chained(ms, xs, spans, y, max_x, ms.len() - 1)
    &&& (ms.len() - 1 == spans.len() || xs[ms.len() - 1] >= max_x)
}

/// One more printed span extends a chain.
proof fn lemma_chain_push(ms: Seq<Surface>, xs: Seq<int>, spans: Seq<SpanView>, y: int, max_x: int, k: int, m: Surface, x: int)
    requires
        spans_chained(ms, xs, spans, y, max_x, k),
        ms.len() == k + 1,
        xs.len() == k + 1,
        k >= 0,
        xs[k] < max_x,
        xs[k] <= x <= max_x,
        print_post(ms[k], m, xs[k] as u16, y as u16, spans[k].0, spans[k].1, Some((max_x - xs[k]) as u16), (x - xs[k]) as u16),
    ensures
        spans_chained(ms.push(m), xs.push(x), spans, y, max_x, k + 1),
{
    let ms2 = ms.push(m);
    let xs2 = xs.push(x);
    assert forall|j: int| 0 <= j < k + 1 implies #[trigger] span_step(ms2, xs2, spans, y, max_x, j) by {
        if j < k {
            assert(span_step(ms, xs, spans, y, max_x, j));
            assert(ms2[j] == ms[j] && ms2[j + 1] == ms[j + 1] && xs2[j] == xs[j] && xs2[j + 1] == xs[j + 1]);
        } else {
            assert(ms2[j] == ms[k] && ms2[j + 1] == m && xs2[j] == xs[k] && xs2[j + 1] == x);
        }
    }
}

/// Step `j` of a `span_chain`: span `j` printed from column `xs[j]`, left of
/// `max_x`, turns `ms[j]` into `ms[j + 1]` and ends at column `xs[j + 1]`.
pub open spec fn span_step(ms: Seq<Surface>, xs: Seq<int>, spans: Seq<SpanView>, y: int, max_x: int, j: int) -> bool {
    &&& xs[j] < max_x
    &&& xs[j] <= xs[j + 1] <= max_x
    &&& print_post(ms[j], ms[j + 1], xs[j] as u16, y as u16, spans[j].0, spans[j].1,
            Some((max_x - xs[j]) as u16), (xs[j + 1] - xs[j]) as u16)
}

/// The first `k` steps of a `span_chain`.
pub open spec fn spans_chained(ms: Seq<Surface>, xs: Seq<int>, spans: Seq<SpanView>, y: int, max_x: int, k: int) -> bool {
    forall|j: int| 0 <= j < k ==> #[trigger] span_step(ms, xs, spans, y, max_x, j)
}

/// Row `y` of `s1` is what printing the spans of `line`, aligned in `rect`
/// and cut at its right edge, gives on a surface whose row `y` is that of
/// `s0`.
pub open spec fn rich_row_printed(s0: Surface, s1: Surface, rect: Rect, line: LineView, y: int) -> bool {
    exists|ms: Seq<Surface>, xs: Seq<int>| {
        &&& #[trigger] span_chain(ms, xs, line.0, y, rect.x + rect.width)
        &&& xs[0] == rect.x + align_offset(line.1, (span_views_width(line.0) % 65536) as int, rect.width as int)
        &&& ms[0].width == s0.width && ms[0].height == s0.height
        &&& forall|px: int| ms[0].in_bounds(px, y) ==> #[trigger] ms[0].at(px, y) == s0.at(px, y)
        &&& forall|px: int| s1.in_bounds(px, y) ==> #[trigger] s1.at(px, y) == ms[ms.len() - 1].at(px, y)
    }
}

/// Rich text painted into `rect`: its `k`-th wrapped line printed on row
/// `rect.y + k` (as many lines as the rectangle has rows), the other rows of
/// the rectangle unchanged.
pub open spec fn rich_painted(s0: Surface, s1: Surface, rect: Rect, lines: Seq<LineView>) -> bool {
    &&& forall|k: int| 0 <= k < lines.len() && k < rect.height ==> #[trigger] rich_row_printed(s0, s1, rect, lines[k], rect.y + k)
    &&& forall|px: int, py: int| s1.in_bounds(px, py) && rect.contains_point(px, py) && py - rect.y >= lines.len() ==>
        #[trigger] s1.at(px, py) == s0.at(px, py)
}

/// Paints wrapped, aligned rich text into `rect`.
fn paint_rich_text(surface: &mut Surface, rect: Rect, text: &crate::cell::RichText, wrap: WrapMode)
    requires
        old(surface).wf(),
        rect.x + rect.width <= u16::MAX,
        rect.y + rect.height <= u16::MAX,
    ensures
        paints_within(*old(surface), *final(surface), rect),
        rich_painted(*old(surface), *final(surface), rect,
            crate::layout::rich_wrapped(lines_view(text.lines@), wrap, rect.width as int)),
{
    let ghost s0 = *surface;
    let lines = wrap_rich_text(text, wrap, rect.width);
    let ghost lv = lines_view(lines@);
    let n = lines.len();
    let rows: usize = rect.height as usize;
    let limit: usize = if n <= rows { n } else { rows };
    let mut i: usize = 0;
    while i < limit
        invariant
            paints_within(s0, *surface, rect),
            s0 == *old(surface),
            rect.x + rect.width <= u16::MAX,
            rect.y + rect.height <= u16::MAX,
            lv == lines_view(lines@),
            limit <= lines@.len(),
            limit <= rect.height,
            i <= limit,
            forall|k: int| 0 <= k < i ==> #[trigger] rich_row_printed(s0, *surface, rect, lv[k], rect.y + k),
            forall|px: int, py: int| surface.in_bounds(px, py) && rect.contains_point(px, py) && py - rect.y >= i ==>
                #[trigger] surface.at(px, py) == s0.at(px, py),
        decreases limit - i,
    {
        let line_y: u16 = rect.y + i as u16;
        let ghost y = line_y as int;
        let ghost mid = *surface;
        let line = &lines[i];
        let line_w = line_columns(line);
        proof {
            lemma_spans_width_view(line.spans@);
            assert(lv[i as int] == line_view(*line));
        }
        let room: u16 = if rect.width >= line_w { rect.width - line_w } else { 0 };
        let offset_x: u16 = match line.align {
            TextAlign::Left => 0,
            TextAlign::Center => room / 2,
            TextAlign::Right => room,
        };
        let mut cur_x: u16 = rect.x + offset_x;
        let max_x: u16 = rect.x + rect.width;
        let ghost sv = spans_view(line.spans@);
        let ghost mut ms: Seq<Surface> = seq![*surface];
        let ghost mut xs: Seq<int> = seq![cur_x as int];
        proof {
            assert(xs[0] == rect.x + align_offset(line.align, (span_views_width(sv) % 65536) as int, rect.width as int));
        }
        let mut k: usize = 0;
        let mut full = false;
        while k < line.spans.len() && !full
            invariant
                paints_within(mid, *surface, rect),
                paints_within(s0, mid, rect),
                rect.x <= cur_x <= max_x,
                max_x == rect.x + rect.width,
                rect.y <= y < rect.y + rect.height,
                y == line_y,
                rect.x + rect.width <= u16::MAX,
                rect.y + rect.height <= u16::MAX,
                sv == spans_view(line.spans@),
                k <= line.spans@.len(),
                ms.len() == k + 1 && xs.len() == k + 1,
                ms[0] == mid,
                xs[0] == rect.x + offset_x,
                ms[k as int] == *surface,
                xs[k as int] == cur_x,
                full ==> cur_x >= max_x,
                spans_chained(ms, xs, sv, y, max_x as int, k as int),
                forall|px: int, py: int| surface.in_bounds(px, py) && py != y ==> #[trigger] surface.at(px, py) == mid.at(px, py),
            decreases line.spans@.len() - k + (if full { 0int } else { 1int }),
        {
            if cur_x >= max_x {
                full = true;
            } else {
                let ghost before = *surface;
                let span = &line.spans[k];
                let written = print_in(surface, rect, cur_x, line_y, span.text.as_str(), span.style, max_x - cur_x);
                proof {
                    lemma_within_trans(mid, before, *surface, rect, rect, rect);
                    assert(sv[k as int] == (span.text@, span.style));
                    assert(print_post(before, *surface, cur_x, line_y, span.text@, span.style, Some((max_x - cur_x) as u16), written));
                    lemma_chain_push(ms, xs, sv, y, max_x as int, k as int, *surface, cur_x + written);
                    ms = ms.push(*surface);
                    xs = xs.push(cur_x + written);
                    assert forall|px: int, py: int| surface.in_bounds(px, py) && py != y implies
                        #[trigger] surface.at(px, py) == mid.at(px, py) by {
                        assert(before.in_bounds(px, py));
                    }
                }
                cur_x = cur_x + written;
                k = k + 1;
            }
        }
        proof {
            lemma_within_trans(s0, mid, *surface, rect, rect, rect);
            assert(span_chain(ms, xs, sv, y, max_x as int));
            assert forall|px: int| mid.in_bounds(px, y) implies #[trigger] mid.at(px, y) == s0.at(px, y) by {
                if rect.contains_point(px, y) {
                    assert(y - rect.y >= i);
                }
            }
            assert(lv[i as int].0 == sv);
            assert(span_chain(ms, xs, lv[i as int].0, rect.y + i, rect.x + rect.width));
            assert(xs[0] == rect.x + align_offset(lv[i as int].1, (span_views_width(lv[i as int].0) % 65536) as int, rect.width as int));
            assert(ms[0].width == s0.width && ms[0].height == s0.height);
            assert(forall|px: int| ms[0].in_bounds(px, rect.y + i) ==> #[trigger] ms[0].at(px, rect.y + i) == s0.at(px, rect.y + i));
            assert(forall|px: int| surface.in_bounds(px, rect.y + i) ==> #[trigger] surface.at(px, rect.y + i) == ms[ms.len() - 1].at(px, rect.y + i));
            assert(rich_row_printed(s0, *surface, rect, lv[i as int], rect.y + i));
            assert forall|kk: int| 0 <= kk < i + 1 implies #[trigger] rich_row_printed(s0, *surface, rect, lv[kk], rect.y + kk) by {
                if kk < i {
                    let yk = rect.y + kk;
                    assert(rich_row_printed(s0, mid, rect, lv[kk], yk));
                    let (ms2, xs2) = choose|ms2: Seq<Surface>, xs2: Seq<int>| {
                        &&& #[trigger] span_chain(ms2, xs2, lv[kk].0, yk, rect.x + rect.width)
                        &&& xs2[0] == rect.x + align_offset(lv[kk].1, (span_views_width(lv[kk].0) % 65536) as int, rect.width as int)
                        &&& ms2[0].width == s0.width && ms2[0].height == s0.height
                        &&& forall|px: int| ms2[0].in_bounds(px, yk) ==> #[trigger] ms2[0].at(px, yk) == s0.at(px, yk)
                        &&& forall|px: int| mid.in_bounds(px, yk) ==> #[trigger] mid.at(px, yk) == ms2[ms2.len() - 1].at(px, yk)
                    };
                    assert forall|px: int| surface.in_bounds(px, yk) implies
                        #[trigger] surface.at(px, yk) == ms2[ms2.len() - 1].at(px, yk) by {
                        assert(mid.in_bounds(px, yk));
                    }
                }
            }
            assert forall|px: int, py: int| surface.in_bounds(px, py) && rect.contains_point(px, py) && py - rect.y >= i + 1
                implies #[trigger] surface.at(px, py) == s0.at(px, py) by {
                assert(mid.in_bounds(px, py));
            }
        }
        i = i + 1;
    }
    proof {
        let ws = crate::layout::rich_wrapped(lines_view(text.lines@), wrap, rect.width as int);
        assert(lv == ws);
        assert forall|px: int, py: int| surface.in_bounds(px, py) && rect.contains_point(px, py) && py - rect.y >= ws.len()
            implies #[trigger] surface.at(px, py) == s0.at(px, py) by {
        }
    }
}


/// A drawn offset of the text input lies inside its view.
proof fn lemma_drawn_inside(gs: Seq<Seq<char>>, n: int, sc: int, vis: int, off: int)
    requires
        drawn_upto(gs, n, sc, vis, off),
        n <= gs.len(),
        vis > 0,
    ensures
        0 <= off < vis,
{
    if exists|i: int| 0 <= i < n && shown(gs, i, sc, vis) && off == #[trigger] gcol(gs, i) - sc {
        let i = choose|i: int| 0 <= i < n && shown(gs, i, sc, vis) && off == #[trigger] gcol(gs, i) - sc;
        assert(gwid(gs, i) >= 1);
    }
}

/// Painting a text input changes only its rectangle and asks for the cursor
/// only inside it.
proof fn lemma_text_input_within(
    s0: Surface, s1: Surface, c0: PaintContext, c1: PaintContext, rect: Rect, value: Seq<char>, cursor_grapheme: usize,
    placeholder: Option<Seq<char>>, style: Style, placeholder_style: Style, cursor_style: Style, scroll_offset: usize,
)
    requires
        s0.wf(),
        rect.x + rect.width <= u16::MAX,
        text_input_post(s0, s1, c0, c1, rect, value, cursor_grapheme, placeholder, style, placeholder_style, cursor_style, scroll_offset),
    ensures
        paints_within(s0, s1, rect),
        cursor_within(c0, c1, rect),
{
    let gs = grapheme_split(value);
    let n = gs.len() as int;
    let y = rect.y as int;
    let x0 = rect.x as int;
    let vis = rect.width as int;
    if rect.width == 0 || rect.height == 0 {
    } else if n == 0 {
        let (mid, k) = choose|mid: Surface, k: u16| {
            &&& #[trigger] placeholder_post(s0, mid, rect, placeholder, placeholder_style, k)
            &&& forall|px: int, py: int| s1.in_bounds(px, py) && !(px == x0 && py == y) ==>
                #[trigger] s1.at(px, py) == mid.at(px, py)
        };
        assert forall|px: int, py: int| s1.in_bounds(px, py) && !rect.contains_point(px, py) implies #[trigger] s1.at(px, py) == s0.at(px, py) by {
            assert(s1.at(px, py) == mid.at(px, py));
            match placeholder {
                Some(ph) => {
                    if s0.in_bounds(x0, y) {
                        assert(k <= print_room(s0.width, rect.x, Some(rect.width)));
                    }
                    assert(mid.at(px, py) == s0.at(px, py));
                },
                None => {},
            }
        }
    } else {
        let ci = cursor_index(gs, cursor_grapheme);
        let sc = scroll_for(gcol(gs, ci), scroll_offset as int, vis);
        assert forall|px: int, py: int| s1.in_bounds(px, py) && !rect.contains_point(px, py) implies #[trigger] s1.at(px, py) == s0.at(px, py) by {
            if py == y && drawn_upto(gs, n, sc, vis, px - x0) {
                lemma_drawn_inside(gs, n, sc, vis, px - x0);
            }
        }
        if ci < n && shown(gs, ci, sc, vis) {
            assert(gwid(gs, ci) >= 1);
        }
    }
}

/// `v` clamped into the `i32` range.
pub open spec fn clamp_i32_spec(v: int) -> int {
    if v < i32::MIN { i32::MIN as int } else if v > i32::MAX { i32::MAX as int } else { v }
}

/// `s1` is `s0` with `rect` painted as a box: its border cells show the
/// border's glyphs in `border_style`, the other cells are blanks in the
/// background colour where there is one and unchanged otherwise.
pub open spec fn boxed(s0: Surface, s1: Surface, rect: Rect, border: Option<crate::surface::BorderType>, border_style: Style,
    background: Option<crate::cell::Color>) -> bool {
    &&& paints_within(s0, s1, rect)
    &&& forall|px: int, py: int| s1.in_bounds(px, py) && rect.contains_point(px, py) ==> {
        let c = #[trigger] s1.at(px, py);
        if border is Some && crate::surface::border_part(rect, px, py) < 6 {
            shows(c, seq![crate::surface::border_char(border.unwrap(), crate::surface::border_part(rect, px, py))], border_style)
        } else if background is Some {
            is_space_cell(c, Style { bg: background, ..crate::cell::plain_style() })
        } else {
            c == s0.at(px, py)
        }
    }
}

/// Where a rule's title leaves a gap in its line: the title's width (capped
/// at 65535) when there is a title and the rule has room for it and six more
/// cells.
pub open spec fn rule_gap(title: Option<String>, width: u16) -> Option<int> {
    match title {
        Some(t) => {
            let tw = if display_width_of(t@) > 65535 { 65535int } else { display_width_of(t@) as int };
            if width >= tw + 6 { Some(tw) } else { None }
        },
        None => None,
    }
}

/// `s1` is `s0` with a rule drawn on the top row of `rect`: every cell of
/// that row outside the title's gap (three cells in, two cells plus the
/// title wide) shows a horizontal line in `style`; other rows are kept.
pub open spec fn ruled(s0: Surface, s1: Surface, rect: Rect, title: Option<String>, style: Style) -> bool {
    &&& forall|px: int, py: int| s1.in_bounds(px, py) && rect.contains_point(px, py) && py != rect.y ==>
        #[trigger] s1.at(px, py) == s0.at(px, py)
    &&& forall|px: int, py: int| s1.in_bounds(px, py) && rect.contains_point(px, py) && py == rect.y
        && (rule_gap(title, rect.width) matches Some(tw) ==> px < rect.x + 3 || px >= rect.x + 5 + tw) ==>
        shows(#[trigger] s1.at(px, py), seq!['\u{2500}'], style)
}

/// The title of a rule with a gap: printed in `title_style` from four cells
/// in, at most as wide as the gap left for it.
pub open spec fn rule_titled(s1: Surface, rect: Rect, title: Option<String>, title_style: Style) -> bool {
    rule_gap(title, rect.width) matches Some(tw) ==> exists|m1: Surface, m2: Surface, n: u16| {
        &&& #[trigger] print_post(m1, m2, (rect.x + 4) as u16, rect.y, title.unwrap()@, title_style, Some(tw as u16), n)
        &&& forall|px: int| rect.x + 4 <= px < rect.x + 4 + tw && s1.in_bounds(px, rect.y as int) ==>
            #[trigger] s1.at(px, rect.y as int) == m2.at(px, rect.y as int)
    }
}

/// The frame a spinner shows: `frames[frame_index % len]`, or a space when
/// there are no frames.
pub open spec fn spinner_frame(frames: Seq<String>, frame_index: usize) -> Seq<char> {
    if frames.len() > 0 { frames[(frame_index as int) % (frames.len() as int)]@ } else { seq![' '] }
}

/// What painting a node's own kind into `rect` does (its children aside):
/// a box fills its background and draws its border; a bordered panel does
/// the same and prints its padded title two cells in on the top row, when
/// the panel is wider than four cells; a rule draws its line around its
/// title; a spinner prints its frame, then its label one cell further when
/// there is room; a rail draws its column; a dim veils the rectangle; a
/// raster is composited at the node's origin; a text input is painted as
/// `paint_text_input` paints it (when its columns fit in `usize`); text is
/// printed line by line; stacks and viewports draw nothing. Every kind
/// changes only `rect`, and only a text input touches the context.
pub open spec fn kind_painted(kind: NodeKind, s0: Surface, s1: Surface, c0: PaintContext, c1: PaintContext, rect: Rect, origin_x: int, origin_y: int) -> bool {
    &&& paints_within(s0, s1, rect)
    &&& match kind {
        NodeKind::Box { border, border_style, background } => c1 == c0 && boxed(s0, s1, rect, border, border_style, background),
        NodeKind::Border { border_type, style, title, title_style, background } => {
            &&& c1 == c0
            &&& exists|m: Surface| #[trigger] boxed(s0, m, rect, Some(border_type), style, background) && if title is Some && rect.width > 4 {
                exists|n: u16| #[trigger] print_post(m, s1, (rect.x + 2) as u16, rect.y, seq![' '] + title.unwrap()@ + seq![' '],
                    title_style, Some((rect.width - 4) as u16), n)
            } else {
                s1 == m
            }
        },
        NodeKind::Spinner { frames, frame_index, style, label, label_style } => {
            &&& c1 == c0
            &&& exists|m: Surface, fw: u16| #[trigger] print_post(s0, m, rect.x, rect.y, spinner_frame(frames@, frame_index), style, Some(rect.width), fw)
                && if label is Some && rect.width > fw + 1 {
                    exists|n: u16| #[trigger] print_post(m, s1, (rect.x + fw + 1) as u16, rect.y, label.unwrap()@, label_style,
                        Some((rect.width - (fw + 1)) as u16), n)
                } else {
                    s1 == m
                }
        },
        NodeKind::Rule { title, style, title_style } => c1 == c0 && ruled(s0, s1, rect, title, style)
            && rule_titled(s1, rect, title, title_style),
        NodeKind::Rail { style } => {
            &&& c1 == c0
            &&& forall|px: int, py: int| s1.in_bounds(px, py) && rect.contains_point(px, py) ==> if px == rect.x {
                shows(#[trigger] s1.at(px, py), seq!['\u{2502}'], style)
            } else {
                s1.at(px, py) == s0.at(px, py)
            }
        },
        NodeKind::Dim => {
            &&& c1 == c0
            &&& forall|px: int, py: int| s1.in_bounds(px, py) && rect.contains_point(px, py) ==>
                crate::surface::dimmed(#[trigger] s1.at(px, py), s0.at(px, py))
        },
        NodeKind::Raster { surface: raster } => {
            &&& c1 == c0
            &&& raster.wf() ==> forall|px: int, py: int| s1.in_bounds(px, py) ==> #[trigger] s1.at(px, py) == (
                if rect.contains_point(px, py) && raster.in_bounds(px - origin_x, py - origin_y) {
                    crate::surface::composite(s0.at(px, py), raster.at(px - origin_x, py - origin_y))
                } else {
                    s0.at(px, py)
                })
            &&& !raster.wf() ==> s1 == s0
        },
        NodeKind::TextInput { value, cursor_grapheme, placeholder, style, placeholder_style, cursor_style, scroll_offset } => {
            let fits = columns_before(grapheme_split(value@), grapheme_split(value@).len() as int) <= usize::MAX;
            let ph = match placeholder { Some(p) => Some(p@), None => None };
            &&& fits ==> text_input_post(s0, s1, c0, c1, rect, value@, cursor_grapheme, ph, style, placeholder_style, cursor_style, scroll_offset)
            &&& !fits ==> s1 == s0 && c1 == c0
        },
        NodeKind::Text { text, style, wrap } => c1 == c0
            && text_painted(s0, s1, rect, crate::layout::wrapped(text@, wrap, rect.width as int), style),
        NodeKind::Stack => s1 == s0 && c1 == c0,
        NodeKind::Viewport { .. } => s1 == s0 && c1 == c0,
        NodeKind::RichText { text, wrap } => c1 == c0
            && rich_painted(s0, s1, rect, crate::layout::rich_wrapped(lines_view(text.lines@), wrap, rect.width as int)),
    }
}

/// Paints what `node`'s kind draws into `rect`, the visible part of the
/// node whose origin is at `(origin_x, origin_y)`; children are not painted.
fn paint_kind(node: &Node, surface: &mut Surface, rect: Rect, origin_x: i32, origin_y: i32, ctx: &mut PaintContext)
    requires
        old(surface).wf(),
        rect.x + rect.width <= u16::MAX,
        rect.y + rect.height <= u16::MAX,
        rect.width > 0 && rect.height > 0,
    ensures
        paints_within(*old(surface), *final(surface), rect),
        cursor_within(*old(ctx), *final(ctx), rect),
        kind_painted(node.kind, *old(surface), *final(surface), *old(ctx), *final(ctx), rect, origin_x as int, origin_y as int),
{
    let ghost s0 = *surface;
    match &node.kind {
        NodeKind::Box { border, border_style, background } => {
            match background {
                Some(bg) => surface.fill_rect(rect, Cell::space(Style::new().bg(*bg))),
                None => {},
            }
            let ghost mid = *surface;
            match border {
                Some(bt) => surface.draw_border(rect, *bt, *border_style),
                None => {},
            }
            proof {
                lemma_within_trans(s0, mid, *surface, rect, rect, rect);
                assert forall|px: int, py: int| surface.in_bounds(px, py) && rect.contains_point(px, py) implies {
                    let c = #[trigger] surface.at(px, py);
                    if border is Some && crate::surface::border_part(rect, px, py) < 6 {
                        shows(c, seq![crate::surface::border_char(border.unwrap(), crate::surface::border_part(rect, px, py))], *border_style)
                    } else if background is Some {
                        is_space_cell(c, Style { bg: *background, ..crate::cell::plain_style() })
                    } else {
                        c == s0.at(px, py)
                    }
                } by {
                    assert(mid.in_bounds(px, py));
                }
            }
        },
        NodeKind::Text { text, style, wrap } => {
            paint_text(surface, rect, text.as_str(), *style, *wrap);
        },
        NodeKind::RichText { text, wrap } => {
            paint_rich_text(surface, rect, text, *wrap);
        },
        NodeKind::Rule { title, style, title_style } => {
            paint_rule(surface, rect, title, *style, *title_style);
        },
        NodeKind::Rail { style } => {
            let mut y = rect.y;
            while y < rect.y + rect.height
                invariant
                    paints_within(s0, *surface, rect),
                    rect.y <= y <= rect.y + rect.height,
                    rect.y + rect.height <= u16::MAX,
                    rect.width > 0,
                    *ctx == *old(ctx),
                    forall|px: int, py: int| surface.in_bounds(px, py) && rect.contains_point(px, py) ==> if px == rect.x && py < y {
                        shows(#[trigger] surface.at(px, py), seq!['\u{2502}'], *style)
                    } else {
                        surface.at(px, py) == s0.at(px, py)
                    },
                decreases rect.y + rect.height - y,
            {
                let ghost mid = *surface;
                surface.set_cell(rect.x, y, Cell::new(crate::canvas::char_glyph('\u{2502}'), *style));
                proof {
                    lemma_within_trans(s0, mid, *surface, rect, rect, rect);
                }
                y = y + 1;
            }
        },
        NodeKind::Border { border_type, style, title, title_style, background } => {
            match background {
                Some(bg) => surface.fill_rect(rect, Cell::space(Style::new().bg(*bg))),
                None => {},
            }
            let ghost m1 = *surface;
            surface.draw_border(rect, *border_type, *style);
            let ghost m2 = *surface;
            proof {
                lemma_within_trans(s0, m1, m2, rect, rect, rect);
            }
            proof {
                assert forall|px: int, py: int| m2.in_bounds(px, py) && rect.contains_point(px, py) implies {
                    let c = #[trigger] m2.at(px, py);
                    if crate::surface::border_part(rect, px, py) < 6 {
                        shows(c, seq![crate::surface::border_char(*border_type, crate::surface::border_part(rect, px, py))], *style)
                    } else if background is Some {
                        is_space_cell(c, Style { bg: *background, ..crate::cell::plain_style() })
                    } else {
                        c == s0.at(px, py)
                    }
                } by {
                    assert(m1.in_bounds(px, py));
                }
                assert(boxed(s0, m2, rect, Some(*border_type), *style, *background));
            }
            match title {
                Some(t) => {
                    if rect.width > 4 {
                        let mut title_text = String::new();
                        proof {
                            reveal_strlit(" ");
                        }
                        title_text.append(" ");
                        title_text.append(t.as_str());
                        title_text.append(" ");
                        proof {
                            assert(title_text@ =~= seq![' '] + t@ + seq![' ']);
                        }
                        let n = print_in(surface, rect, rect.x + 2, rect.y, title_text.as_str(), *title_style, rect.width - 4);
                        proof {
                            lemma_within_trans(s0, m2, *surface, rect, rect, rect);
                            assert(print_post(m2, *surface, (rect.x + 2) as u16, rect.y, seq![' '] + t@ + seq![' '],
                                *title_style, Some((rect.width - 4) as u16), n));
                        }
                    }
                },
                None => {},
            }
        },
        NodeKind::Spinner { frames, frame_index, style, label, label_style } => {
            let fw = if frames.len() > 0 {
                print_in(surface, rect, rect.x, rect.y, frames[*frame_index % frames.len()].as_str(), *style, rect.width)
            } else {
                proof {
                    reveal_strlit(" ");
                    assert(" "@ =~= seq![' ']);
                }
                print_in(surface, rect, rect.x, rect.y, " ", *style, rect.width)
            };
            let ghost m1 = *surface;
            proof {
                assert(print_post(s0, m1, rect.x, rect.y, spinner_frame(frames@, *frame_index), *style, Some(rect.width), fw));
            }
            match label {
                Some(lbl) => {
                    if rect.width as u32 > fw as u32 + 1 {
                        let n = print_in(surface, rect, rect.x + fw + 1, rect.y, lbl.as_str(), *label_style, rect.width - (fw + 1));
                        proof {
                            lemma_within_trans(s0, m1, *surface, rect, rect, rect);
                            assert(print_post(m1, *surface, (rect.x + fw + 1) as u16, rect.y, lbl@, *label_style,
                                Some((rect.width - (fw + 1)) as u16), n));
                        }
                    }
                },
                None => {},
            }
        },
        NodeKind::TextInput { value, cursor_grapheme, placeholder, style, placeholder_style, cursor_style, scroll_offset } => {
            let ghost c0 = *ctx;
            let ph: Option<&str> = match placeholder {
                Some(p) => Some(p.as_str()),
                None => None,
            };
            let painted = paint_text_input_checked(rect, value.as_str(), *cursor_grapheme, ph, *style, *placeholder_style,
                *cursor_style, *scroll_offset, surface, ctx);
            proof {
                assert(opt_text(ph) == match placeholder { Some(p) => Some(p@), None => None::<Seq<char>> });
                if painted {
                    lemma_text_input_within(s0, *surface, c0, *ctx, rect, value@, *cursor_grapheme, opt_text(ph), *style,
                        *placeholder_style, *cursor_style, *scroll_offset);
                }
            }
        },
        NodeKind::Dim => {
            surface.apply_dim_rect(rect);
        },
        NodeKind::Stack => {},
        NodeKind::Viewport { .. } => {},
        NodeKind::Raster { surface: raster } => {
            proof {
                crate::surface::lemma_area_fits(raster.width, raster.height);
            }
            if raster.cells.len() == raster.width as usize * raster.height as usize {
                surface.blit_transparent_clipped(raster, origin_x, origin_y, rect);
            } else {
                proof {
                    assert(!raster.wf());
                }
            }
        },
    }
}

/// A rule across the first row of `rect`, with an optional title near its
/// left end when the row has room for it.
fn paint_rule(surface: &mut Surface, rect: Rect, title: &Option<String>, style: Style, title_style: Style)
    requires
        old(surface).wf(),
        rect.x + rect.width <= u16::MAX,
        rect.width > 0 && rect.height > 0,
    ensures
        paints_within(*old(surface), *final(surface), rect),
        ruled(*old(surface), *final(surface), rect, *title, style),
        rule_titled(*final(surface), rect, *title, title_style),
{
    let ghost s0 = *surface;
    let y = rect.y;
    let title_w: u16 = match title {
        Some(t) => {
            let w = str_width(t.as_str());
            if w > 65535 { 65535 } else { w as u16 }
        },
        None => 0,
    };
    let titled = match title {
        Some(_) => rect.width as u32 >= title_w as u32 + 6,
        None => false,
    };
    proof {
        assert(titled == (rule_gap(*title, rect.width) is Some));
        assert(titled ==> rule_gap(*title, rect.width) == Some(title_w as int));
    }
    let end: u16 = rect.x + rect.width;
    let (dash_end, dash_start2): (u16, u16) = if titled { (rect.x + 3, rect.x + 5 + title_w) } else { (end, end) };
    let mut x = rect.x;
    while x < dash_end
        invariant
            paints_within(s0, *surface, rect),
            rect.x <= x <= dash_end <= end,
            end == rect.x + rect.width,
            rect.height > 0,
            y == rect.y,
            forall|px: int, py: int| surface.in_bounds(px, py) && rect.contains_point(px, py) && py != rect.y ==>
                #[trigger] surface.at(px, py) == s0.at(px, py),
            forall|px: int, py: int| surface.in_bounds(px, py) && py == y && rect.x <= px < x ==>
                shows(#[trigger] surface.at(px, py), seq!['\u{2500}'], style),
        decreases dash_end - x,
    {
        let ghost mid = *surface;
        surface.set_cell(x, y, Cell::new(crate::canvas::char_glyph('\u{2500}'), style));
        proof {
            lemma_within_trans(s0, mid, *surface, rect, rect, rect);
        }
        x = x + 1;
    }
    let ghost mut tm1: Surface = *surface;
    let ghost mut tm2: Surface = *surface;
    let ghost mut tnn: u16 = 0;
    if titled {
        match title {
            Some(t) => {
                let ghost m0 = *surface;
                proof {
                    reveal_strlit(" ");
                }
                print_in(surface, rect, rect.x + 3, y, " ", style, 1);
                let ghost m1 = *surface;
                let tn = print_in(surface, rect, rect.x + 4, y, t.as_str(), title_style, title_w);
                let ghost m2 = *surface;
                print_in(surface, rect, rect.x + 4 + title_w, y, " ", style, 1);
                proof {
                    lemma_within_trans(s0, m0, m1, rect, rect, rect);
                    lemma_within_trans(s0, m1, m2, rect, rect, rect);
                    lemma_within_trans(s0, m2, *surface, rect, rect, rect);
                    assert forall|px: int, py: int| surface.in_bounds(px, py) && (py != y || px < rect.x + 3)
                        implies #[trigger] surface.at(px, py) == m0.at(px, py) by {
                        assert(m1.in_bounds(px, py) && m2.in_bounds(px, py));
                    }
                    tm1 = m1;
                    tm2 = m2;
                    tnn = tn;
                    assert forall|px: int| rect.x + 4 <= px < rect.x + 4 + title_w && surface.in_bounds(px, y as int)
                        implies #[trigger] surface.at(px, y as int) == tm2.at(px, y as int) by {
                        assert(m2.in_bounds(px, y as int));
                    }
                }
            },
            None => {},
        }
        let ghost m3 = *surface;
        let mut x = dash_start2;
        while x < end
            invariant
                paints_within(s0, *surface, rect),
                rect.x <= x,
                dash_start2 <= x,
                rect.x + 5 + title_w == dash_start2,
                end == rect.x + rect.width,
                rect.height > 0,
                y == rect.y,
                forall|px: int, py: int| surface.in_bounds(px, py) && rect.contains_point(px, py) && py != rect.y ==>
                    #[trigger] surface.at(px, py) == s0.at(px, py),
                forall|px: int, py: int| surface.in_bounds(px, py) && py == y
                    && (rect.x <= px < rect.x + 3 || dash_start2 <= px < x) ==>
                    shows(#[trigger] surface.at(px, py), seq!['\u{2500}'], style),
                titled && rule_gap(*title, rect.width) == Some(title_w as int),
                print_post(tm1, tm2, (rect.x + 4) as u16, rect.y, title.unwrap()@, title_style, Some(title_w), tnn),
                forall|px: int| rect.x + 4 <= px < rect.x + 4 + title_w && surface.in_bounds(px, y as int) ==>
                    #[trigger] surface.at(px, y as int) == tm2.at(px, y as int),
            decreases end - x,
        {
            let ghost mid = *surface;
            surface.set_cell(x, y, Cell::new(crate::canvas::char_glyph('\u{2500}'), style));
            proof {
                lemma_within_trans(s0, mid, *surface, rect, rect, rect);
            }
            x = x + 1;
        }
    }
}


/// The offset at which `child` is painted inside a parent painted at
/// `(ox, oy)`: an out-of-flow child adds its own offset (saturating).
fn child_offset(child: &Node, ox: i32, oy: i32) -> (r: (i32, i32))
    ensures
        (r.0 as int, r.1 as int) == (if child.absolute {
            (clamp_i32_spec(ox + child.offset_x), clamp_i32_spec(oy + child.offset_y))
        } else {
            (ox as int, oy as int)
        }),
{
    if child.absolute {
        (clamp_i32(ox as i64 + child.offset_x as i64), clamp_i32(oy as i64 + child.offset_y as i64))
    } else {
        (ox, oy)
    }
}

/// `clip` cut to the coordinate range: no cell lies at column or row
/// 65535 or beyond, so nothing is lost.
pub open spec fn fit_clip(clip: Rect) -> Rect {
    Rect {
        x: clip.x,
        y: clip.y,
        width: if clip.x + clip.width <= u16::MAX { clip.width } else { (u16::MAX - clip.x) as u16 },
        height: if clip.y + clip.height <= u16::MAX { clip.height } else { (u16::MAX - clip.y) as u16 },
    }
}

fn fit_clip_exec(clip: Rect) -> (r: Rect)
    ensures
        r == fit_clip(clip),
{
    Rect {
        x: clip.x,
        y: clip.y,
        width: if clip.x as u32 + clip.width as u32 <= 65535 { clip.width } else { 65535 - clip.x },
        height: if clip.y as u32 + clip.height as u32 <= 65535 { clip.height } else { 65535 - clip.y },
    }
}

/// Whether a node painted at `(ox, oy)` starts left of or above `clip`.
pub open spec fn starts_before(node: Node, clip: Rect, ox: int, oy: int) -> bool {
    clamp_i32_spec(node.computed_rect.x + ox) < fit_clip(clip).x
        || clamp_i32_spec(node.computed_rect.y + oy) < fit_clip(clip).y
}

/// The larger of two sizes.
pub open spec fn max_u16(a: u16, b: u16) -> u16 {
    if a >= b { a } else { b }
}

/// The whole of a surface as a rectangle.
pub open spec fn area_of(s: Surface) -> Rect {
    Rect { x: 0, y: 0, width: s.width, height: s.height }
}

/// `l` is a fresh `width x height` layer of transparent, unstyled spaces.
pub open spec fn blank_layer(l: Surface, width: u16, height: u16) -> bool {
    &&& l.wf() && l.width == width && l.height == height
    &&& forall|x: int, y: int| l.in_bounds(x, y) ==> {
        let c = #[trigger] l.at(x, y);
        &&& c.transparent && !c.is_continuation && !c.style_only
        &&& c.glyph.grapheme@ == seq![' '] && c.glyph.display_width == 1
        &&& c.style == crate::cell::plain_style()
    }
}

/// `s1` is `s0` with `src`, its origin placed at `(ox, oy)`, composited onto
/// the cells of `clip`.
pub open spec fn blitted(s0: Surface, src: Surface, ox: int, oy: int, clip: Rect, s1: Surface) -> bool {
    &&& s1.wf() && s1.width == s0.width && s1.height == s0.height
    &&& forall|px: int, py: int| s1.in_bounds(px, py) ==> #[trigger] s1.at(px, py) == (
        if clip.contains_point(px, py) && src.in_bounds(px - ox, py - oy) {
            crate::surface::composite(s0.at(px, py), src.at(px - ox, py - oy))
        } else {
            s0.at(px, py)
        })
}

/// The cursor after a node was painted through a scratch layer placed at
/// `(x0, y0)`: the request made on the layer, moved into place, where it
/// falls inside the visible part `r`; else the request from before.
pub open spec fn scratch_cursor(inner: Option<(u16, u16)>, x0: int, y0: int, r: Rect, prev: Option<(u16, u16)>) -> Option<(u16, u16)> {
    match inner {
        Some((cx, cy)) => if r.contains_point(cx + x0, cy + y0) { Some(((cx + x0) as u16, (cy + y0) as u16)) } else { prev },
        None => prev,
    }
}

/// The clip of a node's children: inside the border of a bordered box or
/// panel, else the node's visible part `r`.
pub open spec fn child_clip_of(kind: NodeKind, r: Rect) -> Rect {
    match kind {
        NodeKind::Box { border: Some(_), .. } => crate::surface::shrink_spec(r, 1),
        NodeKind::Border { .. } => crate::surface::shrink_spec(r, 1),
        _ => r,
    }
}

/// Where a child of `node` painted at `(ox, oy)` is painted: a viewport with
/// a non-zero offset moves all its children by minus the offset; otherwise
/// an out-of-flow child adds its own offset (all saturating).
pub open spec fn child_origin(node: Node, child: Node, ox: int, oy: int) -> (int, int) {
    let cam = match node.kind {
        NodeKind::Viewport { offset_x, offset_y } => (clamp_i32_spec(0 - offset_x), clamp_i32_spec(0 - offset_y)),
        _ => (0int, 0int),
    };
    if cam.0 != 0 || cam.1 != 0 {
        (clamp_i32_spec(ox + cam.0), clamp_i32_spec(oy + cam.1))
    } else if child.absolute {
        (clamp_i32_spec(ox + child.offset_x), clamp_i32_spec(oy + child.offset_y))
    } else {
        (ox, oy)
    }
}

/// What painting `node` with its origin moved by `(ox, oy)` and clipped to
/// `clip` does to the surface `s0` and the context `c0`, giving `s1` and
/// `c1`. An invisible node changes nothing. A node cut by the left or top
/// edge of the clip is painted whole onto a fresh transparent layer at its
/// own origin, which is then composited onto its visible part, and its
/// cursor request is moved into place. Otherwise the node's kind is painted
/// onto its visible part, then each child in order onto the child clip.
pub open spec fn node_painted(node: Node, s0: Surface, s1: Surface, c0: PaintContext, c1: PaintContext, clip: Rect, ox: int, oy: int) -> bool
    decreases node, (if starts_before(node, clip, ox, oy) { 2int } else { 1int }), 0int,
{
    let fc = fit_clip(clip);
    let cr = node.computed_rect;
    let x0 = clamp_i32_spec(cr.x + ox);
    let y0 = clamp_i32_spec(cr.y + oy);
    let r = signed_intersection(x0, y0, cr.width, cr.height, fc);
    if r.width == 0 || r.height == 0 {
        s1 == s0 && c1 == c0
    } else if x0 < fc.x || y0 < fc.y {
        let sw = max_u16(s0.width, cr.width);
        let sh = max_u16(s0.height, cr.height);
        exists|l0: Surface, l1: Surface, inner: Option<(u16, u16)>|
            #[trigger] blank_layer(l0, sw, sh)
            && #[trigger] blitted(s0, l1, x0, y0, r, s1)
            && c1.cursor_position == #[trigger] scratch_cursor(inner, x0, y0, r, c0.cursor_position)
            && whole_node_painted(node, l0, l1, PaintContext { cursor_position: None, ..c0 },
                PaintContext { cursor_position: inner, text_scroll_offset: c1.text_scroll_offset })
    } else {
        exists|sk: Surface, ck: PaintContext|
            #[trigger] kind_painted(node.kind, s0, sk, c0, ck, r, x0, y0)
            && children_painted(node, node.children@.len() as int, sk, s1, ck, c1, child_clip_of(node.kind, r), ox, oy)
    }
}

/// `node` painted whole onto `s0` with its own origin at `(0, 0)`: its kind
/// onto `(0, 0, width, height)`, then its children onto the child clip, as
/// if it were moved by minus its layout position.
pub open spec fn whole_node_painted(node: Node, s0: Surface, s1: Surface, c0: PaintContext, c1: PaintContext) -> bool
    decreases node, 1int, 0int,
{
    let r = Rect { x: 0, y: 0, width: node.computed_rect.width, height: node.computed_rect.height };
    exists|sk: Surface, ck: PaintContext|
        #[trigger] kind_painted(node.kind, s0, sk, c0, ck, r, 0, 0)
        && children_painted(node, node.children@.len() as int, sk, s1, ck, c1, child_clip_of(node.kind, r),
            0 - node.computed_rect.x, 0 - node.computed_rect.y)
}

/// The first `k` children of `node` (painted at `(ox, oy)`) painted in
/// order onto the child clip `cc`, from `sk`, `ck` to `s`, `c`.
pub open spec fn children_painted(node: Node, k: int, sk: Surface, s: Surface, ck: PaintContext, c: PaintContext, cc: Rect, ox: int, oy: int) -> bool
    decreases node, 0int, k,
{
    if k <= 0 {
        s == sk && c == ck
    } else if k > node.children@.len() {
        false
    } else {
        exists|sp: Surface, cp: PaintContext|
            #[trigger] paints_within(sk, sp, cc) && #[trigger] cursor_within(ck, cp, cc)
            && children_painted(node, k - 1, sk, sp, ck, cp, cc, ox, oy)
            && child_painted(node, k - 1, sp, s, cp, c, cc, ox, oy)
    }
}

/// Child `i` of `node` painted onto the child clip `cc`, from `sp`, `cp` to
/// `s`, `c`: a stack paints it onto a fresh transparent layer and composites
/// the layer over the surface; other kinds paint it in place.
pub open spec fn child_painted(node: Node, i: int, sp: Surface, s: Surface, cp: PaintContext, c: PaintContext, cc: Rect, ox: int, oy: int) -> bool
    decreases node, 0int, i,
{
    if 0 <= i < node.children@.len() {
        let child = node.children@[i];
        let pos = child_origin(node, child, ox, oy);
        if node.kind is Stack {
            exists|l0: Surface, l1: Surface|
                #[trigger] blank_layer(l0, sp.width, sp.height)
                && #[trigger] blitted(sp, l1, 0, 0, area_of(sp), s)
                && node_painted(child, l0, l1, cp, c, cc, pos.0, pos.1)
        } else {
            node_painted(child, sp, s, cp, c, cc, pos.0, pos.1)
        }
    } else {
        false
    }
}

/// Paints `node` and its subtree with its origin moved by `(ox, oy)`,
/// clipped to `clip`, as `node_painted` describes. A node cut by the left or
/// top edge of the clip is painted whole into a scratch layer and blitted,
/// so that its off-clip part is cut rather than shifted. Bordered containers
/// clip their children to the inside of the border, so that the border
/// survives them; a stack composites each child through its own transparent
/// layer; a viewport moves its children by minus its offset.
fn paint_node(node: &Node, surface: &mut Surface, clip: Rect, ox: i32, oy: i32, ctx: &mut PaintContext)
    requires
        old(surface).wf(),
    ensures
        paints_within(*old(surface), *final(surface), clip),
        cursor_within(*old(ctx), *final(ctx), clip),
        node_painted(*node, *old(surface), *final(surface), *old(ctx), *final(ctx), clip, ox as int, oy as int),
        ({
            let x0 = clamp_i32_spec(node.computed_rect.x + ox);
            let y0 = clamp_i32_spec(node.computed_rect.y + oy);
            let fc = fit_clip(clip);
            let r = signed_intersection(x0, y0, node.computed_rect.width, node.computed_rect.height, fc);
            (r.width > 0 && r.height > 0 && x0 >= fc.x && y0 >= fc.y) ==> match node.kind {
                NodeKind::Box { border: Some(bt), border_style, .. } =>
                    forall|px: int, py: int| final(surface).in_bounds(px, py) && r.contains_point(px, py)
                        && crate::surface::border_part(r, px, py) < 6 ==>
                        shows(#[trigger] final(surface).at(px, py),
                            seq![crate::surface::border_char(bt, crate::surface::border_part(r, px, py))], border_style),
                _ => true,
            }
        }),
    decreases node, (if starts_before(*node, clip, ox as int, oy as int) { 1int } else { 0int }),
{
    let ghost s0 = *surface;
    let ghost c0 = *ctx;
    let fc = fit_clip_exec(clip);
    let cr = node.computed_rect;
    let origin_x: i32 = clamp_i32(cr.x as i64 + ox as i64);
    let origin_y: i32 = clamp_i32(cr.y as i64 + oy as i64);
    let rect = intersect_signed(origin_x, origin_y, cr.width, cr.height, fc);
    proof {
        assert(rect_in(fc, clip));
    }
    if rect.width == 0 || rect.height == 0 {
        return;
    }
    if origin_x < fc.x as i32 || origin_y < fc.y as i32 {
        proof {
            assert(starts_before(*node, clip, ox as int, oy as int));
        }
        let tx: i32 = 0 - (cr.x as i32);
        let ty: i32 = 0 - (cr.y as i32);
        let sw: u16 = if surface.width >= cr.width { surface.width } else { cr.width };
        let sh: u16 = if surface.height >= cr.height { surface.height } else { cr.height };
        let mut scratch = Surface::new_transparent(sw, sh);
        let ghost l0 = scratch;
        let prev_cursor = ctx.cursor_position;
        ctx.cursor_position = None;
        let ghost cn = *ctx;
        let scratch_area = scratch.area();
        proof {
            assert(!starts_before(*node, scratch_area, tx as int, ty as int));
            assert(blank_layer(l0, sw, sh));
        }
        paint_node(node, &mut scratch, scratch_area, tx, ty, ctx);
        let ghost ci = *ctx;
        surface.blit_transparent_clipped(&scratch, origin_x, origin_y, rect);
        ctx.cursor_position = match ctx.cursor_position {
            Some((cx, cy)) => {
                let mx: i64 = cx as i64 + origin_x as i64;
                let my: i64 = cy as i64 + origin_y as i64;
                if mx >= rect.x as i64 && my >= rect.y as i64 && mx < rect.x as i64 + rect.width as i64
                    && my < rect.y as i64 + rect.height as i64 {
                    Some((mx as u16, my as u16))
                } else {
                    prev_cursor
                }
            },
            None => prev_cursor,
        };
        proof {
            assert(origin_x as int == clamp_i32_spec(cr.x + ox));
            assert(origin_y as int == clamp_i32_spec(cr.y + oy));
            assert(blitted(s0, scratch, origin_x as int, origin_y as int, rect, *surface));
            assert(ctx.cursor_position == scratch_cursor(ci.cursor_position, origin_x as int, origin_y as int, rect, c0.cursor_position));
            assert(cn == (PaintContext { cursor_position: None, ..c0 }));
            assert(signed_intersection(0, 0, cr.width, cr.height, fit_clip(scratch_area))
                == (Rect { x: 0, y: 0, width: cr.width, height: cr.height }));
            assert(whole_node_painted(*node, l0, scratch, cn, ci));
            assert(max_u16(s0.width, cr.width) == sw && max_u16(s0.height, cr.height) == sh);
            assert(node_painted(*node, s0, *surface, c0, *ctx, clip, ox as int, oy as int));
        }
        return;
    }
    paint_kind(node, surface, rect, origin_x, origin_y, ctx);
    let ghost sk = *surface;
    let ghost ck = *ctx;
    proof {
        assert(origin_x as int == clamp_i32_spec(cr.x + ox));
        assert(origin_y as int == clamp_i32_spec(cr.y + oy));
        assert(kind_painted(node.kind, s0, sk, c0, ck, rect, origin_x as int, origin_y as int));
    }
    let child_clip = match &node.kind {
        NodeKind::Box { border: Some(_), .. } => rect.shrink(1),
        NodeKind::Border { .. } => rect.shrink(1),
        _ => rect,
    };
    let is_stack = match &node.kind {
        NodeKind::Stack => true,
        _ => false,
    };
    let (cam_x, cam_y): (i32, i32) = match &node.kind {
        NodeKind::Viewport { offset_x, offset_y } => (clamp_i32(0 - (*offset_x as i64)), clamp_i32(0 - (*offset_y as i64))),
        _ => (0, 0),
    };
    let mut i: usize = 0;
    while i < node.children.len()
        invariant
            surface.wf(),
            paints_within(s0, *surface, clip),
            cursor_within(c0, *ctx, clip),
            rect_in(rect, clip),
            rect_in(child_clip, rect),
            child_clip == child_clip_of(node.kind, rect),
            is_stack == (node.kind is Stack),
            (cam_x as int, cam_y as int) == (match node.kind {
                NodeKind::Viewport { offset_x, offset_y } => (clamp_i32_spec(0 - offset_x), clamp_i32_spec(0 - offset_y)),
                _ => (0int, 0int),
            }),
            i == 0 ==> *surface == sk && *ctx == ck,
            i <= node.children@.len(),
            paints_within(sk, *surface, child_clip),
            cursor_within(ck, *ctx, child_clip),
            children_painted(*node, i as int, sk, *surface, ck, *ctx, child_clip, ox as int, oy as int),
        decreases node.children@.len() - i,
    {
        let child = &node.children[i];
        let (cx, cy) = if cam_x != 0 || cam_y != 0 {
            (clamp_i32(ox as i64 + cam_x as i64), clamp_i32(oy as i64 + cam_y as i64))
        } else {
            child_offset(child, ox, oy)
        };
        proof {
            assert((cx as int, cy as int) == child_origin(*node, *child, ox as int, oy as int));
        }
        let ghost before = *surface;
        let ghost cb = *ctx;
        proof {
            vstd::std_specs::vec::axiom_vec_index_decreases(node.children, i as int);
        }
        if is_stack {
            let mut layer = Surface::new_transparent(surface.width, surface.height);
            let ghost l0 = layer;
            proof {
                assert(blank_layer(l0, before.width, before.height));
            }
            paint_node(child, &mut layer, child_clip, cx, cy, ctx);
            let ghost l1 = layer;
            surface.blit_transparent(&layer);
            proof {
                assert forall|px: int, py: int| surface.in_bounds(px, py) && !child_clip.contains_point(px, py)
                    implies #[trigger] surface.at(px, py) == before.at(px, py) by {
                    assert(layer.at(px, py) == l0.at(px, py));
                    assert(l0.at(px, py).transparent);
                }
                assert(paints_within(before, *surface, child_clip));
                lemma_within_trans(s0, before, *surface, clip, child_clip, clip);
                lemma_within_trans(sk, before, *surface, child_clip, child_clip, child_clip);
                assert(blitted(before, l1, 0, 0, area_of(before), *surface));
                assert(node.children@[i as int] == *child);
                assert(child_painted(*node, i as int, before, *surface, cb, *ctx, child_clip, ox as int, oy as int));
            }
        } else {
            paint_node(child, surface, child_clip, cx, cy, ctx);
            proof {
                lemma_within_trans(s0, before, *surface, clip, child_clip, clip);
                lemma_within_trans(sk, before, *surface, child_clip, child_clip, child_clip);
                assert(node.children@[i as int] == *child);
                assert(child_painted(*node, i as int, before, *surface, cb, *ctx, child_clip, ox as int, oy as int));
            }
        }
        proof {
            lemma_cursor_trans(ck, cb, *ctx, child_clip, child_clip, child_clip);
            assert(paints_within(sk, before, child_clip));
            assert(cursor_within(ck, cb, child_clip));
            assert(children_painted(*node, (i + 1) - 1, sk, before, ck, cb, child_clip, ox as int, oy as int));
            assert(child_painted(*node, (i + 1) - 1, before, *surface, cb, *ctx, child_clip, ox as int, oy as int));
            assert(children_painted(*node, i + 1, sk, *surface, ck, *ctx, child_clip, ox as int, oy as int));
        }
        i = i + 1;
    }
    proof {
        match node.kind {
            NodeKind::Box { border: Some(bt), border_style, .. } => {
                assert forall|px: int, py: int| surface.in_bounds(px, py) && rect.contains_point(px, py)
                    && crate::surface::border_part(rect, px, py) < 6 implies
                    shows(#[trigger] surface.at(px, py),
                        seq![crate::surface::border_char(bt, crate::surface::border_part(rect, px, py))], border_style) by {
                    assert(!child_clip.contains_point(px, py));
                    assert(sk.in_bounds(px, py));
                }
            },
            _ => {},
        }
        assert(node_painted(*node, s0, *surface, c0, *ctx, clip, ox as int, oy as int));
    }
}

/// Paints a laid-out node tree onto `surface` and reports the cursor request
/// and text-input scroll offset.
pub fn paint(root: &Node, surface: &mut Surface) -> (ctx: PaintContext)
    requires
        old(surface).wf(),
    ensures
        final(surface).wf(),
        final(surface).width == old(surface).width,
        final(surface).height == old(surface).height,
        ctx.cursor_position matches Some((x, y)) ==> final(surface).in_bounds(x as int, y as int),
        node_painted(*root, *old(surface), *final(surface), PaintContext { cursor_position: None, text_scroll_offset: None },
            ctx, area_of(*old(surface)), 0, 0),
        ({
            let r = signed_intersection(root.computed_rect.x as int, root.computed_rect.y as int,
                root.computed_rect.width, root.computed_rect.height, area_of(*old(surface)));
            (r.width > 0 && r.height > 0) ==> match root.kind {
                NodeKind::Box { border: Some(bt), border_style, .. } =>
                    forall|px: int, py: int| final(surface).in_bounds(px, py) && r.contains_point(px, py)
                        && crate::surface::border_part(r, px, py) < 6 ==>
                        shows(#[trigger] final(surface).at(px, py),
                            seq![crate::surface::border_char(bt, crate::surface::border_part(r, px, py))], border_style),
                _ => true,
            }
        }),
{
    let mut ctx = PaintContext { cursor_position: None, text_scroll_offset: None };
    let area = surface.area();
    paint_node(root, surface, area, 0, 0, &mut ctx);
    ctx
}

} // verus!
