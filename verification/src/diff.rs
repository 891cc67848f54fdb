//! Differences between two surfaces: per-row patches of changed cell runs
//! (with erase-to-end-of-line where a row got shorter), rows to clear when the
//! surface lost height, and the exact set of cells whose rendered state
//! changed.
use crate::cell::{plain_style, Cell};
use crate::surface::{lemma_area_fits, Surface};
use crate::text::chars_of;
use vstd::prelude::*;

verus! {

/// A contiguous run of modified cells on a single row.
#[derive(Debug, Clone, PartialEq, Eq)]
pub struct CellRun {
    pub x: u16,
    pub cells: Vec<Cell>,
}

/// The updates of a single row.
#[derive(Debug, Clone, PartialEq, Eq)]
pub struct RowPatch {
    pub y: u16,
    pub runs: Vec<CellRun>,
    /// `Some(x)`: erase from column `x` to the end of the line.
    pub erase_eol_from: Option<u16>,
}

/// A diff between two surfaces. `exact_changed` and `exact_changed_spans`
/// describe the cells whose rendered state changed (absent cells count as
/// blank); the patches describe what is written, which may address more
/// cells (an erase-to-end-of-line covers already blank cells too).
#[derive(Debug, Clone, PartialEq, Eq)]
pub struct SurfaceDiff {
    pub patches: Vec<RowPatch>,
    pub prev_height: u16,
    pub next_height: u16,
    /// Rows below `next_height` that the previous surface had and that must
    /// be cleared.
    pub rows_to_clear: u16,
    pub prev_width: u16,
    pub next_width: u16,
    /// The number of cells whose rendered state changed.
    pub exact_changed: usize,
    /// The changed cells as `(row, start_column, length)` spans, row-major.
    pub exact_changed_spans: Vec<(u16, u16, u16)>,
}

impl Default for SurfaceDiff {
    fn default() -> (d: Self)
        ensures
            d.patches@.len() == 0,
            d.prev_height == 0 && d.next_height == 0 && d.rows_to_clear == 0,
            d.prev_width == 0 && d.next_width == 0,
            d.exact_changed == 0,
            d.exact_changed_spans@.len() == 0,
    {
        SurfaceDiff {
            patches: Vec::new(),
            prev_height: 0,
            next_height: 0,
            rows_to_clear: 0,
            prev_width: 0,
            next_width: 0,
            exact_changed: 0,
            exact_changed_spans: Vec::new(),
        }
    }
}

/// Two cells render the same.
pub open spec fn same_cell(a: Cell, b: Cell) -> bool {
    &&& a.glyph.grapheme@ == b.glyph.grapheme@
    &&& a.glyph.display_width == b.glyph.display_width
    &&& a.style == b.style
    &&& a.is_continuation == b.is_continuation
    &&& a.transparent == b.transparent
    &&& a.style_only == b.style_only
}

/// A cell that renders as an absent cell: an empty or space glyph in the
/// plain style, not a continuation.
pub open spec fn is_blank(c: Cell) -> bool {
    &&& !c.is_continuation
    &&& (c.glyph.grapheme@.len() == 0 || c.glyph.grapheme@ == seq![' '])
    &&& c.style == plain_style()
}

/// A cell that shows something other than a plain space.
pub open spec fn is_inked(c: Cell) -> bool {
    c.glyph.grapheme@ != seq![' '] || c.style != plain_style()
}

/// Whether column `x` changed between two rows, absent cells being blank.
pub open spec fn changed_at(prev: Seq<Cell>, next: Seq<Cell>, x: int) -> bool {
    if x < prev.len() && x < next.len() {
        !same_cell(prev[x], next[x])
    } else if x < prev.len() {
        !is_blank(prev[x])
    } else if x < next.len() {
        !is_blank(next[x])
    } else {
        false
    }
}

/// The changed columns of two rows, over the wider of the two.
pub open spec fn change_flags(prev: Seq<Cell>, next: Seq<Cell>) -> Seq<bool> {
    let w = if prev.len() >= next.len() { prev.len() } else { next.len() };
    Seq::new(w, |x: int| changed_at(prev, next, x))
}

/// The maximal runs of `true` in `f` from `x` on, as `(start, length)`; `open`
/// is the start of a run begun before `x`.
pub open spec fn runs_from(f: Seq<bool>, x: int, open: Option<int>) -> Seq<(int, int)>
    decreases f.len() - x,
{
    if x < 0 || x >= f.len() {
        match open {
            Some(s) => seq![(s, f.len() - s)],
            None => Seq::empty(),
        }
    } else if f[x] {
        runs_from(f, x + 1, if open is Some { open } else { Some(x) })
    } else {
        match open {
            Some(s) => seq![(s, x - s)] + runs_from(f, x + 1, None),
            None => runs_from(f, x + 1, None),
        }
    }
}

/// The maximal runs of `true` in `f`.
pub open spec fn runs_of(f: Seq<bool>) -> Seq<(int, int)> {
    runs_from(f, 0, None)
}

/// The number of `true` entries.
pub open spec fn count_true(f: Seq<bool>) -> nat
    decreases f.len(),
{
    if f.len() == 0 { 0 } else { count_true(f.drop_last()) + if f.last() { 1nat } else { 0nat } }
}

/// Runs of row `y` as exact-change spans.
pub open spec fn row_spans(y: int, runs: Seq<(int, int)>) -> Seq<(u16, u16, u16)> {
    runs.map_values(|r: (int, int)| (y as u16, r.0 as u16, r.1 as u16))
}

/// Row `y` of a surface.
pub open spec fn row_of(s: Surface, y: int) -> Seq<Cell> {
    s.cells@.subrange(y * s.width, y * s.width + s.width)
}

/// Row `y` of an optional surface: empty when absent or past its height.
pub open spec fn opt_row(s: Option<Surface>, y: int) -> Seq<Cell> {
    match s {
        Some(p) => if 0 <= y < p.height { row_of(p, y) } else { Seq::empty() },
        None => Seq::empty(),
    }
}

proof fn lemma_count_true_push(f: Seq<bool>, b: bool)
    ensures
        count_true(f.push(b)) == count_true(f) + if b { 1nat } else { 0nat },
{
    assert(f.push(b).drop_last() =~= f);
}

proof fn lemma_count_true_le(f: Seq<bool>)
    ensures
        count_true(f) <= f.len(),
    decreases f.len(),
{
    if f.len() > 0 {
        lemma_count_true_le(f.drop_last());
    }
}

/// Two cells render the same: glyph text, width, style and flags all agree.
fn cells_same(a: &Cell, b: &Cell) -> (r: bool)
    ensures
        r == same_cell(*a, *b),
{
    if a.glyph.display_width != b.glyph.display_width || a.style != b.style || a.is_continuation != b.is_continuation
        || a.transparent != b.transparent || a.style_only != b.style_only {
        return false;
    }
    let ga = chars_of(a.glyph.grapheme.as_str());
    let gb = chars_of(b.glyph.grapheme.as_str());
    proof {
        assert(ga@ == a.glyph.grapheme@);
        assert(gb@ == b.glyph.grapheme@);
    }
    if ga.len() != gb.len() {
        return false;
    }
    let mut i: usize = 0;
    while i < ga.len()
        invariant
            ga@ == a.glyph.grapheme@,
            gb@ == b.glyph.grapheme@,
            ga@.len() == gb@.len(),
            i <= ga@.len(),
            forall|j: int| 0 <= j < i ==> ga@[j] == gb@[j],
        decreases ga@.len() - i,
    {
        if ga[i] != gb[i] {
            return false;
        }
        i = i + 1;
    }
    proof {
        assert(ga@ =~= gb@);
    }
    true
}


/// Whether a cell renders as an absent cell.
fn cell_is_blank(c: &Cell) -> (r: bool)
    ensures
        r == is_blank(*c),
{
    let g = chars_of(c.glyph.grapheme.as_str());
    let empty_or_space = g.len() == 0 || (g.len() == 1 && g[0] == ' ');
    proof {
        if g@.len() == 1 && g@[0] == ' ' {
            assert(g@ =~= seq![' ']);
        }
    }
    !c.is_continuation && empty_or_space && c.style.is_default()
}

/// Whether a cell shows something other than a plain space.
fn cell_is_inked(c: &Cell) -> (r: bool)
    ensures
        r == is_inked(*c),
{
    let g = chars_of(c.glyph.grapheme.as_str());
    let space = g.len() == 1 && g[0] == ' ';
    proof {
        if g@.len() == 1 && g@[0] == ' ' {
            assert(g@ =~= seq![' ']);
        }
    }
    !space || !c.style.is_default()
}

/// One step of the run scan over `f`.
proof fn lemma_runs_step(f: Seq<bool>, x: int, open: Option<int>)
    requires
        0 <= x < f.len(),
    ensures
        f[x] ==> runs_from(f, x, open) == runs_from(f, x + 1, if open is Some { open } else { Some(x) }),
        !f[x] ==> runs_from(f, x, open) == match open {
            Some(s) => seq![(s, x - s)] + runs_from(f, x + 1, None),
            None => runs_from(f, x + 1, None),
        },
{
}

/// Records the exact changes of row `y` (absent cells being blank): the
/// maximal runs of changed columns as spans, and their number.
fn record_exact_row(y: u16, prev: &Vec<Cell>, next: &Vec<Cell>, spans: &mut Vec<(u16, u16, u16)>, count: &mut usize)
    requires
        prev@.len() <= 65535,
        next@.len() <= 65535,
        *old(count) + prev@.len() + next@.len() <= usize::MAX,
    ensures
        final(spans)@ == old(spans)@ + row_spans(y as int, runs_of(change_flags(prev@, next@))),
        *final(count) == *old(count) + count_true(change_flags(prev@, next@)),
{
    let ghost f = change_flags(prev@, next@);
    let width: usize = if prev.len() >= next.len() { prev.len() } else { next.len() };
    let mut start: Option<usize> = None;
    let ghost mut done: Seq<(int, int)> = Seq::empty();
    let mut x: usize = 0;
    proof {
        lemma_count_true_le(f);
        assert(f.take(0) =~= Seq::<bool>::empty());
    }
    while x < width
        invariant
            f == change_flags(prev@, next@),
            width == f.len(),
            width <= 65535,
            x <= width,
            runs_of(f) == done + runs_from(f, x as int, match start { Some(s) => Some(s as int), None => None }),
            start matches Some(s) ==> s < x,
            spans@ == old(spans)@ + row_spans(y as int, done),
            *count == *old(count) + count_true(f.take(x as int)),
            *old(count) + width <= usize::MAX,
            count_true(f.take(x as int)) <= x,
        decreases width - x,
    {
        let changed = if x < prev.len() && x < next.len() {
            !cells_same(&prev[x], &next[x])
        } else if x < prev.len() {
            !cell_is_blank(&prev[x])
        } else if x < next.len() {
            !cell_is_blank(&next[x])
        } else {
            false
        };
        proof {
            assert(changed == f[x as int]);
            lemma_runs_step(f, x as int, match start { Some(s) => Some(s as int), None => None });
            assert(f.take(x as int + 1) =~= f.take(x as int).push(f[x as int]));
            lemma_count_true_push(f.take(x as int), f[x as int]);
        }
        if changed {
            *count = *count + 1;
            if start.is_none() {
                start = Some(x);
            }
        } else {
            match start {
                Some(first) => {
                    spans.push((y, first as u16, (x - first) as u16));
                    proof {
                        let r = (first as int, x as int - first as int);
                        assert(row_spans(y as int, done.push(r)) =~= row_spans(y as int, done).push((y, first as u16, (x - first) as u16)));
                        assert(done + (seq![r] + runs_from(f, x as int + 1, None)) =~= done.push(r) + runs_from(f, x as int + 1, None));
                        done = done.push(r);
                    }
                    start = None;
                },
                None => {},
            }
        }
        x = x + 1;
    }
    proof {
        assert(f.take(width as int) =~= f);
    }
    match start {
        Some(first) => {
            spans.push((y, first as u16, (width - first) as u16));
            proof {
                let r = (first as int, width as int - first as int);
                assert(row_spans(y as int, done.push(r)) =~= row_spans(y as int, done).push((y, first as u16, (width - first) as u16)));
                assert(done + seq![r] =~= done.push(r));
            }
        },
        None => {
            proof {
                assert(done + Seq::<(int, int)>::empty() =~= done);
            }
        },
    }
}


/// The index of the last inked cell of `s`, or -1.
pub open spec fn last_inked(s: Seq<Cell>) -> int
    decreases s.len(),
{
    if s.len() == 0 { -1 } else if is_inked(s.last()) { s.len() - 1 } else { last_inked(s.drop_last()) }
}

/// The index of the last non-blank cell of `s`, or -1.
pub open spec fn last_nonblank(s: Seq<Cell>) -> int
    decreases s.len(),
{
    if s.len() == 0 { -1 } else if !is_blank(s.last()) { s.len() - 1 } else { last_nonblank(s.drop_last()) }
}

/// Where a row that held `prev` and now holds `next` is erased to the end of
/// the line: after the last inked cell of `next`, when `prev` had ink further
/// right.
pub open spec fn erase_from(prev: Seq<Cell>, next: Seq<Cell>) -> Option<int> {
    if last_inked(prev) > last_inked(next) { Some(last_inked(next) + 1) } else { None }
}

/// The columns compared cell by cell: those both rows have, up to the erase.
pub open spec fn diff_limit(prev: Seq<Cell>, next: Seq<Cell>) -> int {
    let common = if prev.len() <= next.len() { prev.len() as int } else { next.len() as int };
    match erase_from(prev, next) {
        Some(e) => if e <= common { e } else { common },
        None => common,
    }
}

/// Which of the first `limit` columns differ.
pub open spec fn differ_flags(prev: Seq<Cell>, next: Seq<Cell>, limit: int) -> Seq<bool> {
    Seq::new(limit as nat, |x: int| !same_cell(prev[x], next[x]))
}

/// Runs given as `(start, length)` with the cells of `next` they cover.
pub open spec fn run_cells(next: Seq<Cell>, runs: Seq<(int, int)>) -> Seq<(int, Seq<Cell>)> {
    runs.map_values(|r: (int, int)| (r.0, next.subrange(r.0, r.0 + r.1)))
}

/// The run of new cells where `next` is wider than `prev`: from the old
/// width through the last inked new cell.
pub open spec fn extra_run(prev: Seq<Cell>, next: Seq<Cell>) -> Seq<(int, Seq<Cell>)> {
    if next.len() > prev.len() {
        let e = last_inked(next.skip(prev.len() as int));
        if e >= 0 {
            seq![(prev.len() as int, next.subrange(prev.len() as int, prev.len() + e + 1))]
        } else {
            Seq::empty()
        }
    } else {
        Seq::empty()
    }
}

/// The runs written for a row: with no previous row, everything through the
/// last non-blank cell; otherwise the maximal runs of differing cells before
/// the limit, then the new cells past the old width.
pub open spec fn patch_runs(prev: Option<Seq<Cell>>, next: Seq<Cell>) -> Seq<(int, Seq<Cell>)> {
    match prev {
        None => {
            let l = last_nonblank(next);
            if l >= 0 { seq![(0int, next.take(l + 1))] } else { Seq::empty() }
        },
        Some(p) => run_cells(next, runs_of(differ_flags(p, next, diff_limit(p, next)))) + extra_run(p, next),
    }
}

/// The erase-to-end-of-line of a row patch.
pub open spec fn patch_erase(prev: Option<Seq<Cell>>, next: Seq<Cell>) -> Option<int> {
    match prev {
        None => None,
        Some(p) => erase_from(p, next),
    }
}

/// An optional column as an integer.
pub open spec fn opt_col(c: Option<u16>) -> Option<int> {
    match c {
        Some(x) => Some(x as int),
        None => None,
    }
}

impl RowPatch {
    /// The runs as `(start column, cells)`.
    pub open spec fn runs_view(&self) -> Seq<(int, Seq<Cell>)> {
        self.runs@.map_values(|r: CellRun| (r.x as int, r.cells@))
    }
}

/// The index, relative to `lo`, of the last cell of `s[lo..]` that is inked
/// (`inked`) or non-blank (`!inked`); -1 when there is none.
fn last_index(s: &Vec<Cell>, lo: usize, inked: bool) -> (r: i64)
    requires
        lo <= s@.len() <= 65535,
    ensures
        r == if inked { last_inked(s@.skip(lo as int)) } else { last_nonblank(s@.skip(lo as int)) },
{
    let mut i: usize = s.len();
    proof {
        assert(s@.skip(lo as int) =~= s@.subrange(lo as int, i as int));
    }
    while i > lo
        invariant
            lo <= i <= s@.len() <= 65535,
            (if inked { last_inked(s@.skip(lo as int)) } else { last_nonblank(s@.skip(lo as int)) })
                == (if inked { last_inked(s@.subrange(lo as int, i as int)) } else { last_nonblank(s@.subrange(lo as int, i as int)) }),
        decreases i - lo,
    {
        let c = &s[i - 1];
        let hit = if inked { cell_is_inked(c) } else { !cell_is_blank(c) };
        proof {
            let t = s@.subrange(lo as int, i as int);
            assert(t.last() == s@[i - 1]);
            assert(t.drop_last() =~= s@.subrange(lo as int, i - 1));
        }
        if hit {
            return (i - 1 - lo) as i64;
        }
        i = i - 1;
    }
    -1
}

/// Copies `next[lo..hi]`.
fn copy_cells(next: &Vec<Cell>, lo: usize, hi: usize) -> (v: Vec<Cell>)
    requires
        lo <= hi <= next@.len(),
    ensures
        v@ == next@.subrange(lo as int, hi as int),
{
    let mut v: Vec<Cell> = Vec::new();
    let mut i: usize = lo;
    while i < hi
        invariant
            lo <= i <= hi <= next@.len(),
            v@ == next@.subrange(lo as int, i as int),
        decreases hi - i,
    {
        v.push(next[i].duplicate());
        proof {
            assert(next@.subrange(lo as int, i as int + 1) =~= next@.subrange(lo as int, i as int).push(next@[i as int]));
        }
        i = i + 1;
    }
    v
}

/// The maximal runs of differing cells among the first `limit` columns.
fn differing_runs(prev: &Vec<Cell>, next: &Vec<Cell>, limit: usize) -> (runs: Vec<CellRun>)
    requires
        limit <= prev@.len(),
        limit <= next@.len(),
        next@.len() <= 65535,
    ensures
        runs@.map_values(|r: CellRun| (r.x as int, r.cells@)) == run_cells(next@, runs_of(differ_flags(prev@, next@, limit as int))),
{
    let ghost f = differ_flags(prev@, next@, limit as int);
    let mut runs: Vec<CellRun> = Vec::new();
    let mut start: Option<usize> = None;
    let ghost mut done: Seq<(int, int)> = Seq::empty();
    let mut x: usize = 0;
    while x < limit
        invariant
            f == differ_flags(prev@, next@, limit as int),
            f.len() == limit,
            limit <= prev@.len(),
            limit <= next@.len(),
            next@.len() <= 65535,
            x <= limit,
            runs_of(f) == done + runs_from(f, x as int, match start { Some(s) => Some(s as int), None => None }),
            start matches Some(s) ==> s < x,
            runs@.map_values(|r: CellRun| (r.x as int, r.cells@)) == run_cells(next@, done),
        decreases limit - x,
    {
        let changed = !cells_same(&prev[x], &next[x]);
        proof {
            assert(changed == f[x as int]);
            lemma_runs_step(f, x as int, match start { Some(s) => Some(s as int), None => None });
        }
        if changed {
            if start.is_none() {
                start = Some(x);
            }
        } else {
            match start {
                Some(first) => {
                    let run = CellRun { x: first as u16, cells: copy_cells(next, first, x) };
                    runs.push(run);
                    proof {
                        let r = (first as int, x as int - first as int);
                        assert(run_cells(next@, done.push(r)) =~= run_cells(next@, done).push((first as int, next@.subrange(first as int, x as int))));
                        assert(runs@.map_values(|r: CellRun| (r.x as int, r.cells@)) =~= run_cells(next@, done.push(r)));
                        assert(done + (seq![r] + runs_from(f, x as int + 1, None)) =~= done.push(r) + runs_from(f, x as int + 1, None));
                        done = done.push(r);
                    }
                    start = None;
                },
                None => {},
            }
        }
        x = x + 1;
    }
    match start {
        Some(first) => {
            let run = CellRun { x: first as u16, cells: copy_cells(next, first, limit) };
            runs.push(run);
            proof {
                let r = (first as int, limit as int - first as int);
                assert(run_cells(next@, done.push(r)) =~= run_cells(next@, done).push((first as int, next@.subrange(first as int, limit as int))));
                assert(runs@.map_values(|r: CellRun| (r.x as int, r.cells@)) =~= run_cells(next@, done.push(r)));
                assert(done + seq![r] =~= done.push(r));
            }
        },
        None => {
            proof {
                assert(done + Seq::<(int, int)>::empty() =~= done);
            }
        },
    }
    runs
}

/// The patch of row `y` from `prev` (absent for a fresh surface) to `next`;
/// `None` when nothing needs writing.
fn diff_row(y: u16, prev: Option<&Vec<Cell>>, next: &Vec<Cell>) -> (r: Option<RowPatch>)
    requires
        next@.len() <= 65535,
        prev matches Some(p) ==> p@.len() <= 65535,
    ensures
        ({
            let pv = match prev { Some(p) => Some(p@), None => None };
            match r {
                Some(patch) => patch.y == y && patch.runs_view() == patch_runs(pv, next@)
                    && opt_col(patch.erase_eol_from) == patch_erase(pv, next@)
                    && (patch_runs(pv, next@).len() > 0 || patch_erase(pv, next@) is Some),
                None => patch_runs(pv, next@).len() == 0 && patch_erase(pv, next@) is None,
            }
        }),
{
    let ghost pv = match prev { Some(p) => Some(p@), None => None };
    let mut runs: Vec<CellRun> = Vec::new();
    let mut erase_eol_from: Option<u16> = None;
    match prev {
        None => {
            let last = last_index(next, 0, false);
            proof {
                assert(next@.skip(0) =~= next@);
                lemma_last_bounds(next@);
            }
            if last >= 0 {
                let count = (last + 1) as usize;
                runs.push(CellRun { x: 0, cells: copy_cells(next, 0, count) });
                proof {
                    assert(next@.subrange(0, count as int) =~= next@.take(count as int));
                    assert(runs@.map_values(|r: CellRun| (r.x as int, r.cells@)) =~= patch_runs(pv, next@));
                }
            } else {
                proof {
                    assert(runs@.map_values(|r: CellRun| (r.x as int, r.cells@)) =~= patch_runs(pv, next@));
                }
            }
        },
        Some(prev_cells) => {
            let common: usize = if prev_cells.len() <= next.len() { prev_cells.len() } else { next.len() };
            let prev_last = last_index(prev_cells, 0, true);
            let next_last = last_index(next, 0, true);
            proof {
                assert(next@.skip(0) =~= next@);
                assert(prev_cells@.skip(0) =~= prev_cells@);
                lemma_last_bounds(next@);
            }
            if prev_last > next_last {
                erase_eol_from = Some((next_last + 1) as u16);
            }
            let limit: usize = match erase_eol_from {
                Some(e) => if (e as usize) <= common { e as usize } else { common },
                None => common,
            };
            runs = differing_runs(prev_cells, next, limit);
            if next.len() > prev_cells.len() {
                let extra_start = prev_cells.len();
                let extra_last = last_index(next, extra_start, true);
                proof {
                    lemma_last_bounds(next@.skip(extra_start as int));
                }
                if extra_last >= 0 {
                    let end = extra_start + extra_last as usize + 1;
                    let ghost before = runs@.map_values(|r: CellRun| (r.x as int, r.cells@));
                    runs.push(CellRun { x: extra_start as u16, cells: copy_cells(next, extra_start, end) });
                    proof {
                        assert(runs@.map_values(|r: CellRun| (r.x as int, r.cells@)) =~= before + extra_run(prev_cells@, next@));
                    }
                } else {
                    proof {
                        assert(extra_run(prev_cells@, next@) =~= Seq::<(int, Seq<Cell>)>::empty());
                        assert(runs@.map_values(|r: CellRun| (r.x as int, r.cells@))
                            =~= runs@.map_values(|r: CellRun| (r.x as int, r.cells@)) + extra_run(prev_cells@, next@));
                    }
                }
            } else {
                proof {
                    assert(runs@.map_values(|r: CellRun| (r.x as int, r.cells@))
                        =~= runs@.map_values(|r: CellRun| (r.x as int, r.cells@)) + extra_run(prev_cells@, next@));
                }
            }
        },
    }
    if runs.len() == 0 && erase_eol_from.is_none() {
        proof {
            assert(runs@.map_values(|r: CellRun| (r.x as int, r.cells@)).len() == 0);
        }
        None
    } else {
        Some(RowPatch { y, runs, erase_eol_from })
    }
}

/// The last inked and last non-blank indices lie in `-1..len`.
proof fn lemma_last_bounds(s: Seq<Cell>)
    ensures
        -1 <= last_inked(s) < s.len(),
        -1 <= last_nonblank(s) < s.len(),
    decreases s.len(),
{
    if s.len() > 0 {
        lemma_last_bounds(s.drop_last());
    }
}


/// The previous row `y` handed to the row diff: absent without a previous
/// surface or below its last row.
pub open spec fn prev_row(prev: Option<Surface>, y: int) -> Option<Seq<Cell>> {
    match prev {
        Some(p) => if 0 <= y < p.height { Some(row_of(p, y)) } else { None },
        None => None,
    }
}

/// The patches of the first `n` rows of `next`, as `(row, runs, erase)`,
/// rows that need no writing left out.
pub open spec fn patches_upto(prev: Option<Surface>, next: Surface, n: int) -> Seq<(int, Seq<(int, Seq<Cell>)>, Option<int>)>
    decreases n,
{
    if n <= 0 {
        Seq::empty()
    } else {
        let rest = patches_upto(prev, next, n - 1);
        let y = n - 1;
        let runs = patch_runs(prev_row(prev, y), row_of(next, y));
        let erase = patch_erase(prev_row(prev, y), row_of(next, y));
        if runs.len() > 0 || erase is Some { rest.push((y, runs, erase)) } else { rest }
    }
}

/// The change flags of row `y`, rows past either surface's end being empty.
pub open spec fn row_flags(prev: Option<Surface>, next: Surface, y: int) -> Seq<bool> {
    change_flags(opt_row(prev, y), opt_row(Some(next), y))
}

/// The exact-change spans of the first `n` rows.
pub open spec fn spans_upto(prev: Option<Surface>, next: Surface, n: int) -> Seq<(u16, u16, u16)>
    decreases n,
{
    if n <= 0 { Seq::empty() } else { spans_upto(prev, next, n - 1) + row_spans(n - 1, runs_of(row_flags(prev, next, n - 1))) }
}

/// The number of changed cells in the first `n` rows.
pub open spec fn changed_upto(prev: Option<Surface>, next: Surface, n: int) -> nat
    decreases n,
{
    if n <= 0 { 0 } else { changed_upto(prev, next, n - 1) + count_true(row_flags(prev, next, n - 1)) }
}

/// The height of an optional surface, zero when absent.
pub open spec fn height_of(s: Option<Surface>) -> u16 {
    match s {
        Some(p) => p.height,
        None => 0,
    }
}

/// The width of an optional surface, zero when absent.
pub open spec fn width_of(s: Option<Surface>) -> u16 {
    match s {
        Some(p) => p.width,
        None => 0,
    }
}

/// The rows examined for exact changes: those of either surface.
pub open spec fn union_rows(prev: Option<Surface>, next: Surface) -> int {
    if height_of(prev) >= next.height { height_of(prev) as int } else { next.height as int }
}

impl SurfaceDiff {
    /// The patches as `(row, runs, erase)`.
    pub open spec fn patches_view(&self) -> Seq<(int, Seq<(int, Seq<Cell>)>, Option<int>)> {
        self.patches@.map_values(|p: RowPatch| (p.y as int, p.runs_view(), opt_col(p.erase_eol_from)))
    }
}

/// A copy of row `y` of `s`.
pub(crate) fn row_cells(s: &Surface, y: u16) -> (v: Vec<Cell>)
    requires
        s.wf(),
        y < s.height,
    ensures
        v@ == row_of(*s, y as int),
        v@.len() == s.width,
{
    proof {
        lemma_area_fits(s.width, s.height);
        assert(y as int * s.width as int + s.width as int <= s.width as int * s.height as int) by (nonlinear_arith)
            requires y < s.height;
        assert(0 <= y as int * s.width as int) by (nonlinear_arith) requires y >= 0, s.width >= 0;
    }
    let start: usize = y as usize * s.width as usize;
    let end: usize = start + s.width as usize;
    let mut v: Vec<Cell> = Vec::new();
    let mut i: usize = start;
    while i < end
        invariant
            start <= i <= end <= s.cells@.len(),
            start == y as int * s.width as int,
            end == start + s.width,
            v@ == s.cells@.subrange(start as int, i as int),
        decreases end - i,
    {
        v.push(s.cells[i].duplicate());
        proof {
            assert(s.cells@.subrange(start as int, i as int + 1) =~= s.cells@.subrange(start as int, i as int).push(s.cells@[i as int]));
        }
        i = i + 1;
    }
    v
}

/// Compares `prev` (if any) with `next`: the row patches that turn the first
/// into the second on screen, the rows to clear when it lost height, and the
/// exact cells whose rendered state changed (absent cells being blank).
pub fn compute_diff(prev: Option<&Surface>, next: &Surface) -> (d: SurfaceDiff)
    requires
        next.wf(),
        prev matches Some(p) ==> p.wf(),
    ensures
        ({
            let pv = match prev { Some(p) => Some(*p), None => None };
            &&& d.prev_height == height_of(pv)
            &&& d.next_height == next.height
            &&& d.rows_to_clear == (if height_of(pv) > next.height { height_of(pv) - next.height } else { 0 })
            &&& d.prev_width == width_of(pv)
            &&& d.next_width == next.width
            &&& d.patches_view() == patches_upto(pv, *next, next.height as int)
            &&& d.exact_changed_spans@ == spans_upto(pv, *next, union_rows(pv, *next))
            &&& d.exact_changed == changed_upto(pv, *next, union_rows(pv, *next))
        }),
{
    let ghost pv = match prev { Some(p) => Some(*p), None => None };
    let prev_height: u16 = match prev { Some(p) => p.height, None => 0 };
    let prev_width: u16 = match prev { Some(p) => p.width, None => 0 };
    let next_height = next.height;
    let mut patches: Vec<RowPatch> = Vec::new();
    let mut exact_changed: usize = 0;
    let mut spans: Vec<(u16, u16, u16)> = Vec::new();
    let mut y: u16 = 0;
    while y < next_height
        invariant
            next.wf(),
            prev matches Some(p) ==> p.wf(),
            pv == match prev { Some(p) => Some(*p), None => None },
            prev_height == height_of(pv),
            next_height == next.height,
            y <= next_height,
            patches@.map_values(|p: RowPatch| (p.y as int, p.runs_view(), opt_col(p.erase_eol_from))) == patches_upto(pv, *next, y as int),
            spans@ == spans_upto(pv, *next, y as int),
            exact_changed == changed_upto(pv, *next, y as int),
            exact_changed <= 65535 * y,
        decreases next_height - y,
    {
        let next_row = row_cells(next, y);
        let prow: Option<Vec<Cell>> = match prev {
            Some(p) => if y < p.height { Some(row_cells(p, y)) } else { None },
            None => None,
        };
        let empty: Vec<Cell> = Vec::new();
        proof {
            lemma_count_true_le(change_flags(opt_row(pv, y as int), row_of(*next, y as int)));
        }
        match &prow {
            Some(pr) => record_exact_row(y, pr, &next_row, &mut spans, &mut exact_changed),
            None => record_exact_row(y, &empty, &next_row, &mut spans, &mut exact_changed),
        }
        proof {
            assert(opt_row(Some(*next), y as int) == row_of(*next, y as int));
            match prow {
                Some(ref pr) => assert(pr@ == opt_row(pv, y as int)),
                None => assert(empty@ =~= opt_row(pv, y as int)),
            }
        }
        let patch = match &prow {
            Some(pr) => diff_row(y, Some(pr), &next_row),
            None => diff_row(y, None, &next_row),
        };
        proof {
            match prow {
                Some(ref pr) => assert(Some(pr@) == prev_row(pv, y as int)),
                None => assert(prev_row(pv, y as int) is None),
            }
        }
        match patch {
            Some(p) => {
                patches.push(p);
            },
            None => {},
        }
        proof {
            assert(patches@.map_values(|p: RowPatch| (p.y as int, p.runs_view(), opt_col(p.erase_eol_from))) =~= patches_upto(pv, *next, y as int + 1));
            assert(65535 * y + 65535 == 65535 * (y + 1));
        }
        y = y + 1;
    }
    let rows_to_clear: u16 = if prev_height > next_height { prev_height - next_height } else { 0 };
    match prev {
        Some(p) => if p.height > next_height {
            let mut y: u16 = next_height;
            while y < p.height
                invariant
                    next.wf(),
                    p.wf(),
                    pv == Some(*p),
                    next_height == next.height,
                    next_height <= y <= p.height,
                    spans@ == spans_upto(pv, *next, y as int),
                    exact_changed == changed_upto(pv, *next, y as int),
                    exact_changed <= 65535 * y,
                decreases p.height - y,
            {
                let prow = row_cells(p, y);
                let empty: Vec<Cell> = Vec::new();
                proof {
                    lemma_count_true_le(change_flags(prow@, empty@));
                    assert(opt_row(Some(*next), y as int) =~= empty@);
                    assert(65535 * y + 65535 == 65535 * (y + 1));
                }
                record_exact_row(y, &prow, &empty, &mut spans, &mut exact_changed);
                y = y + 1;
            }
        },
        None => {},
    }
    SurfaceDiff {
        patches,
        prev_height,
        next_height,
        rows_to_clear,
        prev_width,
        next_width: next.width,
        exact_changed,
        exact_changed_spans: spans,
    }
}


/// `a + b`, saturating at `u16::MAX`.
pub open spec fn sat_add16(a: u16, b: u16) -> u16 {
    if a + b <= u16::MAX { (a + b) as u16 } else { u16::MAX }
}

/// The coordinates of `n` cells from column `x` of row `y`; columns past
/// `u16::MAX` are reported at `u16::MAX`.
pub open spec fn run_coords(y: u16, x: u16, n: int) -> Seq<(u16, u16)> {
    Seq::new(n as nat, |i: int| (sat_add16(x, i as u16), y))
}

/// The coordinates of the cells written by the runs of row `y`.
pub open spec fn runs_coords(y: u16, runs: Seq<CellRun>) -> Seq<(u16, u16)>
    decreases runs.len(),
{
    if runs.len() == 0 {
        Seq::empty()
    } else {
        runs_coords(y, runs.drop_last()) + run_coords(y, runs.last().x, runs.last().cells@.len() as int)
    }
}

/// The number of cells written by the runs.
pub open spec fn runs_total(runs: Seq<CellRun>) -> int
    decreases runs.len(),
{
    if runs.len() == 0 { 0 } else { runs_total(runs.drop_last()) + runs.last().cells@.len() }
}

/// The number of cells written by the runs of all patches.
pub open spec fn explicit_total(ps: Seq<RowPatch>) -> int
    decreases ps.len(),
{
    if ps.len() == 0 { 0 } else { explicit_total(ps.drop_last()) + runs_total(ps.last().runs@) }
}

/// The coordinates of the cells written by the runs of all patches.
pub open spec fn explicit_coords(ps: Seq<RowPatch>) -> Seq<(u16, u16)>
    decreases ps.len(),
{
    if ps.len() == 0 { Seq::empty() } else { explicit_coords(ps.drop_last()) + runs_coords(ps.last().y, ps.last().runs@) }
}

/// The cells an erase from `e` addresses on a row `w` wide.
pub open spec fn erase_len(e: Option<u16>, w: u16) -> int {
    match e {
        Some(x) => if w > x { w - x } else { 0 },
        None => 0,
    }
}

/// The coordinates an erase from `e` addresses on row `y`, `w` wide.
pub open spec fn erase_coords(y: u16, e: Option<u16>, w: u16) -> Seq<(u16, u16)> {
    match e {
        Some(x) => Seq::new(erase_len(e, w) as nat, |i: int| ((x + i) as u16, y)),
        None => Seq::empty(),
    }
}

/// The cells addressed by the erases of all patches, `w` wide.
pub open spec fn erase_total(ps: Seq<RowPatch>, w: u16) -> int
    decreases ps.len(),
{
    if ps.len() == 0 { 0 } else { erase_total(ps.drop_last(), w) + erase_len(ps.last().erase_eol_from, w) }
}

/// The coordinates of the cells addressed by the patches: runs, then the
/// erase, patch by patch.
pub open spec fn patch_coords(ps: Seq<RowPatch>, w: u16) -> Seq<(u16, u16)>
    decreases ps.len(),
{
    if ps.len() == 0 {
        Seq::empty()
    } else {
        patch_coords(ps.drop_last(), w) + runs_coords(ps.last().y, ps.last().runs@)
            + erase_coords(ps.last().y, ps.last().erase_eol_from, w)
    }
}

/// The coordinates of the first `rows` cleared rows below `top`, each `w`
/// wide.
pub open spec fn cleared_coords(top: u16, rows: int, w: u16) -> Seq<(u16, u16)>
    decreases rows,
{
    if rows <= 0 {
        Seq::empty()
    } else {
        cleared_coords(top, rows - 1, w) + Seq::new(w as nat, |cx: int| (cx as u16, sat_add16(top, (rows - 1) as u16)))
    }
}

/// The coordinates of the exact-change spans.
pub open spec fn span_coords(spans: Seq<(u16, u16, u16)>) -> Seq<(u16, u16)>
    decreases spans.len(),
{
    if spans.len() == 0 {
        Seq::empty()
    } else {
        let (y, x, n) = spans.last();
        span_coords(spans.drop_last()) + Seq::new((sat_add16(x, n) - x) as nat, |i: int| ((x + i) as u16, y))
    }
}

/// The wider of the two widths.
pub open spec fn wider(a: u16, b: u16) -> u16 {
    if a >= b { a } else { b }
}

fn push_run_coords(out: &mut Vec<(u16, u16)>, y: u16, x: u16, n: usize)
    ensures
        final(out)@ == old(out)@ + run_coords(y, x, n as int),
{
    let mut i: usize = 0;
    while i < n
        invariant
            i <= n,
            out@ == old(out)@ + run_coords(y, x, i as int),
        decreases n - i,
    {
        let cx = x.saturating_add(i as u16);
        out.push((cx, y));
        proof {
            assert(out@ =~= old(out)@ + run_coords(y, x, i as int + 1));
        }
        i = i + 1;
    }
}

fn push_runs_coords(out: &mut Vec<(u16, u16)>, y: u16, runs: &Vec<CellRun>)
    ensures
        final(out)@ == old(out)@ + runs_coords(y, runs@),
{
    let mut k: usize = 0;
    while k < runs.len()
        invariant
            k <= runs@.len(),
            out@ == old(out)@ + runs_coords(y, runs@.take(k as int)),
        decreases runs@.len() - k,
    {
        push_run_coords(out, y, runs[k].x, runs[k].cells.len());
        proof {
            assert(runs@.take(k as int + 1).drop_last() =~= runs@.take(k as int));
            assert(out@ =~= old(out)@ + runs_coords(y, runs@.take(k as int + 1)));
        }
        k = k + 1;
    }
    proof {
        assert(runs@.take(runs@.len() as int) =~= runs@);
    }
}

fn runs_count(runs: &Vec<CellRun>) -> (n: usize)
    requires
        runs_total(runs@) <= usize::MAX,
    ensures
        n == runs_total(runs@),
{
    let mut n: usize = 0;
    let mut k: usize = 0;
    while k < runs.len()
        invariant
            k <= runs@.len(),
            n == runs_total(runs@.take(k as int)),
            runs_total(runs@) <= usize::MAX,
        decreases runs@.len() - k,
    {
        proof {
            assert(runs@.take(k as int + 1).drop_last() =~= runs@.take(k as int));
            lemma_runs_total_prefix(runs@, k as int + 1);
        }
        n = n + runs[k].cells.len();
        k = k + 1;
    }
    proof {
        assert(runs@.take(runs@.len() as int) =~= runs@);
    }
    n
}

proof fn lemma_runs_total_prefix(runs: Seq<CellRun>, k: int)
    requires
        0 <= k <= runs.len(),
    ensures
        0 <= runs_total(runs.take(k)) <= runs_total(runs),
    decreases runs.len() - k,
{
    if k < runs.len() {
        lemma_runs_total_prefix(runs, k + 1);
        assert(runs.take(k + 1).drop_last() =~= runs.take(k));
    } else {
        assert(runs.take(k) =~= runs);
    }
    lemma_runs_total_nonneg(runs.take(k));
}

proof fn lemma_runs_total_nonneg(runs: Seq<CellRun>)
    ensures
        runs_total(runs) >= 0,
    decreases runs.len(),
{
    if runs.len() > 0 {
        lemma_runs_total_nonneg(runs.drop_last());
    }
}

proof fn lemma_explicit_total_prefix(ps: Seq<RowPatch>, k: int)
    requires
        0 <= k <= ps.len(),
    ensures
        0 <= explicit_total(ps.take(k)) <= explicit_total(ps),
    decreases ps.len() - k,
{
    if k < ps.len() {
        lemma_explicit_total_prefix(ps, k + 1);
        assert(ps.take(k + 1).drop_last() =~= ps.take(k));
        lemma_runs_total_nonneg(ps[k].runs@);
    } else {
        assert(ps.take(k) =~= ps);
    }
    lemma_explicit_total_nonneg(ps.take(k));
}

proof fn lemma_explicit_total_nonneg(ps: Seq<RowPatch>)
    ensures
        explicit_total(ps) >= 0,
    decreases ps.len(),
{
    if ps.len() > 0 {
        lemma_explicit_total_nonneg(ps.drop_last());
        lemma_runs_total_nonneg(ps.last().runs@);
    }
}

proof fn lemma_erase_total_bounds(ps: Seq<RowPatch>, w: u16, k: int)
    requires
        0 <= k <= ps.len(),
    ensures
        0 <= erase_total(ps.take(k), w) <= erase_total(ps, w),
    decreases ps.len() - k,
{
    if k < ps.len() {
        lemma_erase_total_bounds(ps, w, k + 1);
        assert(ps.take(k + 1).drop_last() =~= ps.take(k));
    } else {
        assert(ps.take(k) =~= ps);
    }
    lemma_erase_total_nonneg(ps.take(k), w);
}

proof fn lemma_erase_total_nonneg(ps: Seq<RowPatch>, w: u16)
    ensures
        erase_total(ps, w) >= 0,
    decreases ps.len(),
{
    if ps.len() > 0 {
        lemma_erase_total_nonneg(ps.drop_last(), w);
    }
}

impl SurfaceDiff {
    /// The cells addressed by this diff: explicit run cells, erased cells
    /// (erases reach the wider of the two widths) and cleared rows.
    pub open spec fn logical_total(&self) -> int {
        explicit_total(self.patches@) + erase_total(self.patches@, wider(self.prev_width, self.next_width))
            + self.rows_to_clear * self.prev_width
    }

    /// No patch and no row to clear.
    pub fn is_empty(&self) -> (b: bool)
        ensures
            b == (self.patches@.len() == 0 && self.rows_to_clear == 0),
    {
        self.patches.len() == 0 && self.rows_to_clear == 0
    }

    /// Cells covered by explicit run writes only (no erase, no cleared row).
    pub fn explicit_dirty_count(&self) -> (n: usize)
        requires
            explicit_total(self.patches@) <= usize::MAX,
        ensures
            n == explicit_total(self.patches@),
    {
        let mut n: usize = 0;
        let mut k: usize = 0;
        while k < self.patches.len()
            invariant
                k <= self.patches@.len(),
                n == explicit_total(self.patches@.take(k as int)),
                explicit_total(self.patches@) <= usize::MAX,
            decreases self.patches@.len() - k,
        {
            proof {
                assert(self.patches@.take(k as int + 1).drop_last() =~= self.patches@.take(k as int));
                lemma_explicit_total_prefix(self.patches@, k as int + 1);
                lemma_runs_total_nonneg(self.patches@[k as int].runs@);
            }
            let c = runs_count(&self.patches[k].runs);
            n = n + c;
            k = k + 1;
        }
        proof {
            assert(self.patches@.take(self.patches@.len() as int) =~= self.patches@);
        }
        n
    }

    /// Older name of `explicit_dirty_count`.
    pub fn total_dirty_cells(&self) -> (n: usize)
        requires
            explicit_total(self.patches@) <= usize::MAX,
        ensures
            n == explicit_total(self.patches@),
    {
        self.explicit_dirty_count()
    }

    /// The cells addressed by the update: explicit runs, erase-to-end-of-line
    /// regions and cleared trailing rows. It may exceed the live area when
    /// rows are removed.
    pub fn logical_dirty_count(&self) -> (n: usize)
        requires
            self.logical_total() <= usize::MAX,
        ensures
            n == self.logical_total(),
    {
        proof {
            lemma_explicit_total_nonneg(self.patches@);
            lemma_erase_total_nonneg(self.patches@, wider(self.prev_width, self.next_width));
            assert(0 <= self.rows_to_clear * self.prev_width) by (nonlinear_arith) requires self.rows_to_clear >= 0, self.prev_width >= 0;
        }
        let mut n = self.explicit_dirty_count();
        let w: u16 = if self.prev_width >= self.next_width { self.prev_width } else { self.next_width };
        let mut k: usize = 0;
        while k < self.patches.len()
            invariant
                k <= self.patches@.len(),
                w == wider(self.prev_width, self.next_width),
                n == explicit_total(self.patches@) + erase_total(self.patches@.take(k as int), w),
                self.logical_total() <= usize::MAX,
                explicit_total(self.patches@) >= 0,
                0 <= self.rows_to_clear * self.prev_width,
            decreases self.patches@.len() - k,
        {
            proof {
                assert(self.patches@.take(k as int + 1).drop_last() =~= self.patches@.take(k as int));
                lemma_erase_total_bounds(self.patches@, w, k as int + 1);
            }
            match self.patches[k].erase_eol_from {
                Some(x) => {
                    let extra: u16 = if w > x { w - x } else { 0 };
                    n = n + extra as usize;
                },
                None => {},
            }
            k = k + 1;
        }
        proof {
            assert(self.patches@.take(self.patches@.len() as int) =~= self.patches@);
        }
        n = n + self.rows_to_clear as usize * self.prev_width as usize;
        n
    }

    /// The same count as `logical_dirty_count`: the affected footprint, not
    /// an exact state delta.
    pub fn affected_cell_count(&self) -> (n: usize)
        requires
            self.logical_total() <= usize::MAX,
        ensures
            n == self.logical_total(),
    {
        self.logical_dirty_count()
    }

    /// The number of cells whose rendered state actually changed.
    pub fn exact_changed_cell_count(&self) -> (n: usize)
        ensures
            n == self.exact_changed,
    {
        self.exact_changed
    }

    /// The coordinates `(x, y)` of the cells of the exact-change spans, in
    /// span order.
    pub fn exact_changed_cells(&self) -> (out: Vec<(u16, u16)>)
        ensures
            out@ == span_coords(self.exact_changed_spans@),
    {
        let mut out: Vec<(u16, u16)> = Vec::new();
        let mut k: usize = 0;
        while k < self.exact_changed_spans.len()
            invariant
                k <= self.exact_changed_spans@.len(),
                out@ == span_coords(self.exact_changed_spans@.take(k as int)),
            decreases self.exact_changed_spans@.len() - k,
        {
            let (y, x, length) = self.exact_changed_spans[k];
            let end = x.saturating_add(length);
            let ghost before = out@;
            let mut cx = x;
            while cx < end
                invariant
                    x <= cx <= end,
                    out@ == before + Seq::new((cx - x) as nat, |i: int| ((x + i) as u16, y)),
                decreases end - cx,
            {
                out.push((cx, y));
                proof {
                    assert(out@ =~= before + Seq::new((cx + 1 - x) as nat, |i: int| ((x + i) as u16, y)));
                }
                cx = cx + 1;
            }
            proof {
                assert(self.exact_changed_spans@.take(k as int + 1).drop_last() =~= self.exact_changed_spans@.take(k as int));
                assert(self.exact_changed_spans@.take(k as int + 1).last() == (y, x, length));
                assert(end == sat_add16(x, length));
            }
            k = k + 1;
        }
        proof {
            assert(self.exact_changed_spans@.take(self.exact_changed_spans@.len() as int) =~= self.exact_changed_spans@);
        }
        out
    }

    /// The coordinates `(x, y)` of the explicit run cells, patch by patch.
    pub fn explicit_dirty_cells(&self) -> (out: Vec<(u16, u16)>)
        ensures
            out@ == explicit_coords(self.patches@),
    {
        let mut out: Vec<(u16, u16)> = Vec::new();
        let mut k: usize = 0;
        while k < self.patches.len()
            invariant
                k <= self.patches@.len(),
                out@ == explicit_coords(self.patches@.take(k as int)),
            decreases self.patches@.len() - k,
        {
            push_runs_coords(&mut out, self.patches[k].y, &self.patches[k].runs);
            proof {
                assert(self.patches@.take(k as int + 1).drop_last() =~= self.patches@.take(k as int));
            }
            k = k + 1;
        }
        proof {
            assert(self.patches@.take(self.patches@.len() as int) =~= self.patches@);
        }
        out
    }

    /// The coordinates `(x, y)` of every addressed cell: per patch its run
    /// cells then its erased cells, then the cleared rows.
    pub fn logical_dirty_cells(&self) -> (out: Vec<(u16, u16)>)
        ensures
            out@ == patch_coords(self.patches@, wider(self.prev_width, self.next_width))
                + cleared_coords(self.next_height, self.rows_to_clear as int, self.prev_width),
    {
        let w: u16 = if self.prev_width >= self.next_width { self.prev_width } else { self.next_width };
        let mut out: Vec<(u16, u16)> = Vec::new();
        let mut k: usize = 0;
        while k < self.patches.len()
            invariant
                k <= self.patches@.len(),
                w == wider(self.prev_width, self.next_width),
                out@ == patch_coords(self.patches@.take(k as int), w),
            decreases self.patches@.len() - k,
        {
            let patch = &self.patches[k];
            push_runs_coords(&mut out, patch.y, &patch.runs);
            match patch.erase_eol_from {
                Some(x) => {
                    let ghost before = out@;
                    let mut cx = x;
                    while cx < w
                        invariant
                            x <= cx,
                            cx <= w || cx == x,
                            out@ == before + Seq::new((cx - x) as nat, |i: int| ((x + i) as u16, patch.y)),
                        decreases w - cx,
                    {
                        out.push((cx, patch.y));
                        proof {
                            assert(out@ =~= before + Seq::new((cx + 1 - x) as nat, |i: int| ((x + i) as u16, patch.y)));
                        }
                        cx = cx + 1;
                    }
                    proof {
                        assert(out@ =~= before + erase_coords(patch.y, patch.erase_eol_from, w));
                    }
                },
                None => {
                    proof {
                        assert(out@ =~= out@ + erase_coords(patch.y, patch.erase_eol_from, w));
                    }
                },
            }
            proof {
                assert(self.patches@.take(k as int + 1).drop_last() =~= self.patches@.take(k as int));
            }
            k = k + 1;
        }
        proof {
            assert(self.patches@.take(self.patches@.len() as int) =~= self.patches@);
        }
        let ghost head = out@;
        let mut ry: u16 = 0;
        while ry < self.rows_to_clear
            invariant
                ry <= self.rows_to_clear,
                out@ == head + cleared_coords(self.next_height, ry as int, self.prev_width),
            decreases self.rows_to_clear - ry,
        {
            let y = self.next_height.saturating_add(ry);
            let ghost before = out@;
            let mut cx: u16 = 0;
            while cx < self.prev_width
                invariant
                    cx <= self.prev_width,
                    out@ == before + Seq::new(cx as nat, |c: int| (c as u16, y)),
                decreases self.prev_width - cx,
            {
                out.push((cx, y));
                proof {
                    assert(out@ =~= before + Seq::new((cx + 1) as nat, |c: int| (c as u16, y)));
                }
                cx = cx + 1;
            }
            proof {
                assert(y == sat_add16(self.next_height, ry));
                assert(out@ =~= head + cleared_coords(self.next_height, ry as int + 1, self.prev_width));
            }
            ry = ry + 1;
        }
        out
    }
}


/// A scan over flags that are all false finds no run.
proof fn lemma_runs_from_all_false(f: Seq<bool>, x: int)
    requires
        forall|i: int| 0 <= i < f.len() ==> !f[i],
        0 <= x,
    ensures
        runs_from(f, x, None) == Seq::<(int, int)>::empty(),
    decreases f.len() - x,
{
    if x < f.len() {
        lemma_runs_from_all_false(f, x + 1);
    }
}

/// All-false flags count zero.
proof fn lemma_count_all_false(f: Seq<bool>)
    requires
        forall|i: int| 0 <= i < f.len() ==> !f[i],
    ensures
        count_true(f) == 0,
    decreases f.len(),
{
    if f.len() > 0 {
        lemma_count_all_false(f.drop_last());
    }
}

/// A row compared with itself has no change and needs no patch.
proof fn lemma_row_unchanged(row: Seq<Cell>)
    ensures
        runs_of(change_flags(row, row)) == Seq::<(int, int)>::empty(),
        count_true(change_flags(row, row)) == 0,
        patch_runs(Some(row), row).len() == 0,
        patch_erase(Some(row), row) is None,
{
    let f = change_flags(row, row);
    assert forall|i: int| 0 <= i < f.len() implies !f[i] by {
        assert(same_cell(row[i], row[i]));
    }
    lemma_runs_from_all_false(f, 0);
    lemma_count_all_false(f);
    let lim = diff_limit(row, row);
    let g = differ_flags(row, row, lim);
    assert forall|i: int| 0 <= i < g.len() implies !g[i] by {
        assert(same_cell(row[i], row[i]));
    }
    lemma_runs_from_all_false(g, 0);
    assert(run_cells(row, runs_of(g)) =~= Seq::<(int, Seq<Cell>)>::empty());
    assert(extra_run(row, row) =~= Seq::<(int, Seq<Cell>)>::empty());
}

/// Comparing a surface with itself: no patch, no row to clear, no changed
/// cell.
pub proof fn law_identical_surfaces_give_empty_diff(s: Surface)
    requires
        s.wf(),
    ensures
        patches_upto(Some(s), s, s.height as int).len() == 0,
        spans_upto(Some(s), s, union_rows(Some(s), s)).len() == 0,
        changed_upto(Some(s), s, union_rows(Some(s), s)) == 0,
{
    lemma_identical_rows(s, s.height as int);
}

proof fn lemma_identical_rows(s: Surface, n: int)
    requires
        0 <= n <= s.height,
    ensures
        patches_upto(Some(s), s, n).len() == 0,
        spans_upto(Some(s), s, n).len() == 0,
        changed_upto(Some(s), s, n) == 0,
    decreases n,
{
    if n > 0 {
        lemma_identical_rows(s, n - 1);
        let y = n - 1;
        assert(prev_row(Some(s), y) == Some(row_of(s, y)));
        assert(opt_row(Some(s), y) == row_of(s, y));
        lemma_row_unchanged(row_of(s, y));
        assert(row_spans(y, runs_of(row_flags(Some(s), s, y))) =~= Seq::<(u16, u16, u16)>::empty());
    }
}

proof fn lemma_runs_open(f: Seq<bool>, x0: int, st: int)
    ensures
        runs_from(f, x0, Some(st)).len() > 0,
    decreases f.len() - x0,
{
    if !(x0 < 0 || x0 >= f.len()) && f[x0] {
        lemma_runs_open(f, x0 + 1, st);
    }
}

proof fn lemma_runs_nonempty(f: Seq<bool>, x0: int, open: Option<int>, x: int)
    requires
        0 <= x0 <= x < f.len(),
        f[x],
    ensures
        runs_from(f, x0, open).len() > 0,
    decreases f.len() - x0,
{
    if f[x0] {
        lemma_runs_open(f, x0 + 1, if open is Some { open.unwrap() } else { x0 });
    } else {
        match open {
            Some(st) => {},
            None => lemma_runs_nonempty(f, x0 + 1, None, x),
        }
    }
}

proof fn lemma_count_true_pos(f: Seq<bool>, x: int)
    requires
        0 <= x < f.len(),
        f[x],
    ensures
        count_true(f) >= 1,
    decreases f.len(),
{
    if x < f.len() - 1 {
        assert(f.drop_last()[x] == f[x]);
        lemma_count_true_pos(f.drop_last(), x);
    }
}

proof fn lemma_changed_mono(prev: Option<Surface>, next: Surface, m: int, n: int)
    requires
        0 <= m <= n,
    ensures
        changed_upto(prev, next, m) <= changed_upto(prev, next, n),
        patches_upto(prev, next, m).len() <= patches_upto(prev, next, n).len(),
    decreases n - m,
{
    if m < n {
        lemma_changed_mono(prev, next, m, n - 1);
    }
}

proof fn lemma_row_at(s: Surface, x: int, y: int)
    requires
        s.wf(),
        0 <= x < s.width,
        0 <= y < s.height,
    ensures
        row_of(s, y).len() == s.width,
        row_of(s, y)[x] == s.at(x, y),
{
    assert(y * s.width + s.width <= s.width * s.height) by (nonlinear_arith)
        requires 0 <= y < s.height, s.width >= 0;
    assert(0 <= y * s.width) by (nonlinear_arith) requires 0 <= y, s.width >= 0;
}

/// A cell that looks different in any way (its text, width, style or flags)
/// is a change: it is counted among the exact changes, its row flags it,
/// and the diff has at least one patch. In particular a surface that only
/// recolors a cell never diffs as empty.
pub proof fn law_visible_change_is_diffed(prev: Surface, next: Surface, x: int, y: int)
    requires
        prev.wf(),
        next.wf(),
        prev.width == next.width,
        prev.height == next.height,
        0 <= x < next.width,
        0 <= y < next.height,
        ({
            let a = prev.at(x, y);
            let b = next.at(x, y);
            ||| a.style != b.style
            ||| a.glyph.grapheme@ != b.glyph.grapheme@
            ||| a.glyph.display_width != b.glyph.display_width
            ||| a.is_continuation != b.is_continuation
            ||| a.transparent != b.transparent
            ||| a.style_only != b.style_only
        }),
    ensures
        row_flags(Some(prev), next, y)[x],
        changed_upto(Some(prev), next, union_rows(Some(prev), next)) >= 1,
        patches_upto(Some(prev), next, next.height as int).len() >= 1,
{
    lemma_row_at(prev, x, y);
    lemma_row_at(next, x, y);
    let pr = row_of(prev, y);
    let nr = row_of(next, y);
    assert(opt_row(Some(prev), y) == pr);
    assert(opt_row(Some(next), y) == nr);
    let f = row_flags(Some(prev), next, y);
    assert(f.len() == next.width);
    assert(f[x] == changed_at(pr, nr, x));
    assert(!same_cell(pr[x], nr[x]));
    lemma_count_true_pos(f, x);
    lemma_changed_mono(Some(prev), next, y + 1, union_rows(Some(prev), next));
    lemma_changed_mono(Some(prev), next, y + 1, next.height as int);
    assert(prev_row(Some(prev), y) == Some(pr));
    let erase = patch_erase(Some(pr), nr);
    if erase is None {
        let lim = diff_limit(pr, nr);
        assert(lim == next.width);
        let df = differ_flags(pr, nr, lim);
        assert(df[x]);
        lemma_runs_nonempty(df, 0, None, x);
        let runs = patch_runs(Some(pr), nr);
        assert(runs.len() >= run_cells(nr, runs_of(df)).len());
        assert(runs.len() > 0);
    }
    assert(patches_upto(Some(prev), next, y + 1).len() >= 1);
}

impl SurfaceDiff {
    /// The exact number of changed cells never exceeds the cells of either
    /// surface's rows, each as wide as the wider surface.
    pub open spec fn union_area(prev: Option<Surface>, next: Surface) -> int {
        union_rows(prev, next) * (if width_of(prev) >= next.width { width_of(prev) as int } else { next.width as int })
    }
}

/// The exact delta of a diff never exceeds the union area of the two
/// surfaces (the rows of either, as wide as the wider one).
pub proof fn law_exact_delta_within_union_area(prev: Option<Surface>, next: Surface)
    requires
        next.wf(),
        prev matches Some(p) ==> p.wf(),
    ensures
        changed_upto(prev, next, union_rows(prev, next)) <= SurfaceDiff::union_area(prev, next),
{
    let w: int = if width_of(prev) >= next.width { width_of(prev) as int } else { next.width as int };
    lemma_changed_bound(prev, next, union_rows(prev, next), w);
}

proof fn lemma_changed_bound(prev: Option<Surface>, next: Surface, n: int, w: int)
    requires
        next.wf(),
        prev matches Some(p) ==> p.wf(),
        0 <= n,
        w == (if width_of(prev) >= next.width { width_of(prev) as int } else { next.width as int }),
    ensures
        changed_upto(prev, next, n) <= n * w,
    decreases n,
{
    if n > 0 {
        lemma_changed_bound(prev, next, n - 1, w);
        let f = row_flags(prev, next, n - 1);
        lemma_count_true_le(f);
        lemma_opt_row_len(prev, n - 1);
        lemma_opt_row_len(Some(next), n - 1);
        assert(f.len() <= w);
        assert((n - 1) * w + w == n * w) by (nonlinear_arith);
    }
}

proof fn lemma_opt_row_len(s: Option<Surface>, y: int)
    requires
        s matches Some(p) ==> p.wf(),
    ensures
        opt_row(s, y).len() <= width_of(s),
{
    match s {
        Some(p) => {
            if 0 <= y < p.height {
                assert(y * p.width + p.width <= p.width * p.height) by (nonlinear_arith)
                    requires 0 <= y < p.height, p.width >= 0;
                assert(0 <= y * p.width) by (nonlinear_arith) requires 0 <= y, p.width >= 0;
            }
        },
        None => {},
    }
}

/// The affected footprint of a diff is never below its explicit run cells.
pub proof fn law_logical_covers_explicit(d: SurfaceDiff)
    ensures
        d.logical_total() >= explicit_total(d.patches@),
{
    lemma_erase_total_nonneg(d.patches@, wider(d.prev_width, d.next_width));
    assert(0 <= d.rows_to_clear * d.prev_width) by (nonlinear_arith) requires d.rows_to_clear >= 0, d.prev_width >= 0;
}

} // verus!
