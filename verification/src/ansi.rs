//! Compiles surface diffs into compact ANSI byte streams: minimal cursor
//! motion, SGR transitions from the current style, erase-to-end-of-line, and
//! auto-wrap (and optionally synchronized-update) brackets around each frame.
use crate::cell::{code_if, color_code, color_code_string, plain_style, push_code_if, sgr_reset, Cell, Style};
use crate::diff::{CellRun, RowPatch, SurfaceDiff};
use crate::text::{append_joined, ascii_bytes, decimal, join_semicolon, push_ascii, push_bytes, push_char, push_decimal_bytes};
use vstd::prelude::*;
use vstd::utf8::encode_utf8;

verus! {

/// Converts surface diffs into ANSI bytes, tracking the terminal's cursor and
/// current style between frames.
#[derive(Debug, Clone, Copy)]
pub struct AnsiCompiler {
    pub cursor_x: u16,
    pub cursor_y: u16,
    pub current_style: Style,
    /// Bracket each frame in synchronized-update mode (`CSI ? 2026 h/l`).
    pub sync_updates: bool,
}

/// `ESC [ n fin`: a control sequence with one decimal parameter.
pub open spec fn csi(n: nat, fin: u8) -> Seq<u8> {
    seq![0x1bu8, 0x5bu8] + ascii_bytes(decimal(n)) + seq![fin]
}

/// The compiler after moving the cursor to `(x, y)`, and the bytes that move
/// it: nothing when already there; CR LF for the start of the next line;
/// otherwise a relative vertical move (`CSI n B` down, `CSI n A` up) followed
/// by CR for column 0 or an absolute column (`CSI x+1 G`).
pub open spec fn moved(c: AnsiCompiler, x: u16, y: u16) -> (AnsiCompiler, Seq<u8>) {
    let at = AnsiCompiler { cursor_x: x, cursor_y: y, ..c };
    if c.cursor_x == x && c.cursor_y == y {
        (c, Seq::empty())
    } else if y > c.cursor_y && y - c.cursor_y == 1 && x == 0 {
        (at, seq![13u8, 10u8])
    } else {
        let v = if y > c.cursor_y {
            csi((y - c.cursor_y) as nat, 0x42u8)
        } else if y < c.cursor_y {
            csi((c.cursor_y - y) as nat, 0x41u8)
        } else {
            Seq::empty()
        };
        let h = if x != c.cursor_x {
            if x == 0 { seq![13u8] } else { csi((x + 1) as nat, 0x47u8) }
        } else {
            Seq::empty()
        };
        (at, v + h)
    }
}

/// Going from `cur` to `target` turns an attribute off, which only a full
/// reset can do.
pub open spec fn needs_reset(cur: Style, target: Style) -> bool {
    (cur.bold && !target.bold) || (cur.dim && !target.dim) || (cur.italic && !target.italic)
        || (cur.underline && !target.underline) || (cur.reverse && !target.reverse)
}

/// The SGR parameter for a color change from `base` to `target`: the new
/// color, `39`/`49` when the color is dropped, nothing when unchanged.
pub open spec fn color_codes(target: Option<crate::cell::Color>, base: Option<crate::cell::Color>, is_fg: bool) -> Seq<Seq<char>> {
    if target != base {
        match target {
            Some(col) => seq![color_code(col, is_fg)],
            None => code_if(base is Some, if is_fg { seq!['3', '9'] } else { seq!['4', '9'] }),
        }
    } else {
        Seq::empty()
    }
}

/// The SGR parameters that take `base` to `target`: attributes to turn on,
/// then a changed foreground and background (`39`/`49` to drop a color).
pub open spec fn transition_codes(base: Style, target: Style) -> Seq<Seq<char>> {
    code_if(target.bold && !base.bold, seq!['1']) + code_if(target.dim && !base.dim, seq!['2'])
        + code_if(target.italic && !base.italic, seq!['3']) + code_if(target.underline && !base.underline, seq!['4'])
        + code_if(target.reverse && !base.reverse, seq!['7'])
        + color_codes(target.fg, base.fg, true) + color_codes(target.bg, base.bg, false)
}

/// The compiler after switching to `target`, and the bytes that switch: a
/// reset first when an attribute must go off, then one SGR sequence with the
/// parameters that remain to be set (none when nothing remains).
pub open spec fn styled(c: AnsiCompiler, target: Style) -> (AnsiCompiler, Seq<u8>) {
    if c.current_style == target {
        (c, Seq::empty())
    } else {
        let r = needs_reset(c.current_style, target);
        let base = if r { plain_style() } else { c.current_style };
        let pre = if r { ascii_bytes(sgr_reset()) } else { Seq::empty() };
        let codes = transition_codes(base, target);
        let body = if codes.len() > 0 {
            ascii_bytes(seq!['\x1b', '['] + join_semicolon(codes) + seq!['m'])
        } else {
            Seq::empty()
        };
        (AnsiCompiler { current_style: target, ..c }, pre + body)
    }
}

/// The bytes of one cell of a run, and the compiler after it: continuation
/// cells emit nothing (the terminal already advanced); otherwise the style
/// switch, then the glyph (a space for an empty glyph), advancing the cursor
/// by its width (wrapping at `u16::MAX`).
pub open spec fn cell_emitted(c: AnsiCompiler, cell: Cell) -> (AnsiCompiler, Seq<u8>) {
    if cell.is_continuation {
        (c, Seq::empty())
    } else {
        let s = styled(c, cell.style);
        if cell.glyph.grapheme@.len() == 0 {
            (AnsiCompiler { cursor_x: vstd::wrapping::u16_specs::wrapping_add(s.0.cursor_x, 1), ..s.0 }, s.1 + seq![0x20u8])
        } else {
            (AnsiCompiler { cursor_x: vstd::wrapping::u16_specs::wrapping_add(s.0.cursor_x, cell.glyph.display_width as u16), ..s.0 },
                s.1 + encode_utf8(cell.glyph.grapheme@))
        }
    }
}

/// The cells emitted in order.
pub open spec fn cells_emitted(c: AnsiCompiler, cells: Seq<Cell>) -> (AnsiCompiler, Seq<u8>)
    decreases cells.len(),
{
    if cells.len() == 0 {
        (c, Seq::empty())
    } else {
        let a = cells_emitted(c, cells.drop_last());
        let b = cell_emitted(a.0, cells.last());
        (b.0, a.1 + b.1)
    }
}

/// The runs of row `y` emitted in order: each moves to its start, then
/// emits its cells.
pub open spec fn runs_emitted(c: AnsiCompiler, y: u16, runs: Seq<CellRun>) -> (AnsiCompiler, Seq<u8>)
    decreases runs.len(),
{
    if runs.len() == 0 {
        (c, Seq::empty())
    } else {
        let a = runs_emitted(c, y, runs.drop_last());
        let m = moved(a.0, runs.last().x, y);
        let b = cells_emitted(m.0, runs.last().cells@);
        (b.0, a.1 + m.1 + b.1)
    }
}

/// Moves to `(x, y)`, switches to the plain style and erases to the end of
/// the line (`CSI K`).
pub open spec fn erased(c: AnsiCompiler, x: u16, y: u16) -> (AnsiCompiler, Seq<u8>) {
    let m = moved(c, x, y);
    let s = styled(m.0, plain_style());
    (s.0, m.1 + s.1 + seq![0x1bu8, 0x5bu8, 0x4bu8])
}

/// A row patch emitted: its runs, then its erase-to-end-of-line.
pub open spec fn patch_emitted(c: AnsiCompiler, p: RowPatch) -> (AnsiCompiler, Seq<u8>) {
    let r = runs_emitted(c, p.y, p.runs@);
    match p.erase_eol_from {
        Some(x) => {
            let e = erased(r.0, x, p.y);
            (e.0, r.1 + e.1)
        },
        None => r,
    }
}

/// The patches emitted in order.
pub open spec fn patches_emitted(c: AnsiCompiler, ps: Seq<RowPatch>) -> (AnsiCompiler, Seq<u8>)
    decreases ps.len(),
{
    if ps.len() == 0 {
        (c, Seq::empty())
    } else {
        let a = patches_emitted(c, ps.drop_last());
        let b = patch_emitted(a.0, ps.last());
        (b.0, a.1 + b.1)
    }
}

/// The first `k` rows from `top` erased, each from column 0.
pub open spec fn rows_cleared(c: AnsiCompiler, top: u16, k: int) -> (AnsiCompiler, Seq<u8>)
    decreases k,
{
    if k <= 0 {
        (c, Seq::empty())
    } else {
        let a = rows_cleared(c, top, k - 1);
        let b = erased(a.0, 0, (top + k - 1) as u16);
        (b.0, a.1 + b.1)
    }
}

/// The frame compiled from `d`: nothing for an empty diff; otherwise
/// (synchronized-update begin,) auto-wrap off, the patches, the cleared rows,
/// a final style reset when needed, auto-wrap on (, synchronized-update end).
pub open spec fn compiled(c: AnsiCompiler, d: SurfaceDiff) -> (AnsiCompiler, Seq<u8>) {
    if d.patches@.len() == 0 && d.rows_to_clear == 0 {
        (c, Seq::empty())
    } else {
        let open = (if c.sync_updates { ascii_bytes("\x1b[?2026h"@) } else { Seq::empty() }) + ascii_bytes("\x1b[?7l"@);
        let p = patches_emitted(c, d.patches@);
        let r = rows_cleared(p.0, d.next_height, d.rows_to_clear as int);
        let fin = if r.0.current_style != plain_style() {
            (AnsiCompiler { current_style: plain_style(), ..r.0 }, ascii_bytes("\x1b[0m"@))
        } else {
            (r.0, Seq::empty())
        };
        let close = ascii_bytes("\x1b[?7h"@) + (if c.sync_updates { ascii_bytes("\x1b[?2026l"@) } else { Seq::empty() });
        (fin.0, open + p.1 + r.1 + fin.1 + close)
    }
}

/// Appends the SGR parameter for a color change from `base` to `target`.
fn push_color_code(codes: &mut Vec<String>, target: Option<crate::cell::Color>, base: Option<crate::cell::Color>, is_fg: bool)
    ensures
        final(codes)@.map_values(|x: String| x@) == old(codes)@.map_values(|x: String| x@) + color_codes(target, base, is_fg),
{
    if target != base {
        match target {
            Some(c) => {
                codes.push(color_code_string(c, is_fg));
            },
            None => {
                if base.is_some() {
                    let mut t = String::new();
                    push_char(&mut t, if is_fg { '3' } else { '4' });
                    push_char(&mut t, '9');
                    proof {
                        assert(t@ =~= if is_fg { seq!['3', '9'] } else { seq!['4', '9'] });
                    }
                    codes.push(t);
                }
            },
        }
    }
    proof {
        assert(final(codes)@.map_values(|x: String| x@) =~= old(codes)@.map_values(|x: String| x@) + color_codes(target, base, is_fg));
    }
}

/// The SGR parameters that take `base` to `target`.
fn transition_code_list(base: Style, target: Style) -> (codes: Vec<String>)
    ensures
        codes@.map_values(|x: String| x@) == transition_codes(base, target),
{
    let mut codes: Vec<String> = Vec::new();
    push_code_if(&mut codes, target.bold && !base.bold, '1');
    push_code_if(&mut codes, target.dim && !base.dim, '2');
    push_code_if(&mut codes, target.italic && !base.italic, '3');
    push_code_if(&mut codes, target.underline && !base.underline, '4');
    push_code_if(&mut codes, target.reverse && !base.reverse, '7');
    push_color_code(&mut codes, target.fg, base.fg, true);
    push_color_code(&mut codes, target.bg, base.bg, false);
    proof {
        assert(codes@.map_values(|x: String| x@) =~= transition_codes(base, target));
    }
    codes
}

/// Appends one SGR sequence carrying `codes`, or nothing when there are none.
fn push_sgr(out: &mut Vec<u8>, codes: &Vec<String>)
    ensures
        final(out)@ == old(out)@ + if codes@.len() > 0 {
            ascii_bytes(seq!['\x1b', '['] + join_semicolon(codes@.map_values(|x: String| x@)) + seq!['m'])
        } else {
            Seq::empty()
        },
{
    if codes.len() > 0 {
        let mut seqstr = String::new();
        push_char(&mut seqstr, '\x1b');
        push_char(&mut seqstr, '[');
        append_joined(&mut seqstr, codes);
        push_char(&mut seqstr, 'm');
        push_ascii(out, seqstr.as_str());
        proof {
            assert(seqstr@ =~= seq!['\x1b', '['] + join_semicolon(codes@.map_values(|x: String| x@)) + seq!['m']);
        }
    } else {
        proof {
            assert(old(out)@ + Seq::<u8>::empty() =~= old(out)@);
        }
    }
}

/// Emitting patches never changes the synchronized-update setting.
proof fn lemma_emit_keeps_sync(c: AnsiCompiler, ps: Seq<RowPatch>)
    ensures
        patches_emitted(c, ps).0.sync_updates == c.sync_updates,
    decreases ps.len(),
{
    if ps.len() > 0 {
        lemma_emit_keeps_sync(c, ps.drop_last());
        let a = patches_emitted(c, ps.drop_last()).0;
        lemma_patch_keeps_sync(a, ps.last());
    }
}

proof fn lemma_patch_keeps_sync(c: AnsiCompiler, p: RowPatch)
    ensures
        patch_emitted(c, p).0.sync_updates == c.sync_updates,
{
    lemma_runs_keep_sync(c, p.y, p.runs@);
}

proof fn lemma_runs_keep_sync(c: AnsiCompiler, y: u16, runs: Seq<CellRun>)
    ensures
        runs_emitted(c, y, runs).0.sync_updates == c.sync_updates,
    decreases runs.len(),
{
    if runs.len() > 0 {
        lemma_runs_keep_sync(c, y, runs.drop_last());
        let a = runs_emitted(c, y, runs.drop_last()).0;
        lemma_cells_keep_sync(moved(a, runs.last().x, y).0, runs.last().cells@);
    }
}

proof fn lemma_cells_keep_sync(c: AnsiCompiler, cells: Seq<Cell>)
    ensures
        cells_emitted(c, cells).0.sync_updates == c.sync_updates,
    decreases cells.len(),
{
    if cells.len() > 0 {
        lemma_cells_keep_sync(c, cells.drop_last());
    }
}

impl AnsiCompiler {
    /// A compiler with the cursor at the origin and the plain style current.
    pub fn new(sync_updates: bool) -> (c: Self)
        ensures
            c.cursor_x == 0 && c.cursor_y == 0,
            c.current_style == plain_style(),
            c.sync_updates == sync_updates,
    {
        AnsiCompiler { cursor_x: 0, cursor_y: 0, current_style: Style::new(), sync_updates }
    }

    /// Records that the terminal cursor is at `(x, y)`.
    pub fn reset_cursor(&mut self, x: u16, y: u16)
        ensures
            *final(self) == (AnsiCompiler { cursor_x: x, cursor_y: y, ..*old(self) }),
    {
        self.cursor_x = x;
        self.cursor_y = y;
    }

    /// Appends `ESC [ n fin`.
    fn push_csi(out: &mut Vec<u8>, n: u32, fin: u8)
        ensures
            final(out)@ == old(out)@ + csi(n as nat, fin),
    {
        out.push(0x1b);
        out.push(0x5b);
        push_decimal_bytes(out, n as u64);
        out.push(fin);
        proof {
            assert(final(out)@ =~= old(out)@ + csi(n as nat, fin));
        }
    }

    /// Moves the cursor to `(x, y)` with as few bytes as these sequences
    /// allow, appending them to `out`.
    pub fn move_to(&mut self, x: u16, y: u16, out: &mut Vec<u8>)
        ensures
            *final(self) == moved(*old(self), x, y).0,
            final(out)@ == old(out)@ + moved(*old(self), x, y).1,
    {
        if self.cursor_x == x && self.cursor_y == y {
            proof {
                assert(old(out)@ + Seq::<u8>::empty() =~= old(out)@);
            }
            return;
        }
        let ghost start = out@;
        if y != self.cursor_y {
            if y > self.cursor_y {
                let dy = y - self.cursor_y;
                if dy == 1 && x == 0 {
                    out.push(13);
                    out.push(10);
                    self.cursor_x = 0;
                    self.cursor_y = y;
                    proof {
                        assert(out@ =~= start + seq![13u8, 10u8]);
                    }
                    return;
                } else {
                    Self::push_csi(out, dy as u32, 0x42);
                }
            } else {
                let dy = self.cursor_y - y;
                Self::push_csi(out, dy as u32, 0x41);
            }
            self.cursor_y = y;
        }
        let ghost mid = out@;
        if x != self.cursor_x {
            if x == 0 {
                out.push(13);
            } else {
                Self::push_csi(out, x as u32 + 1, 0x47);
            }
            self.cursor_x = x;
        }
        proof {
            let v = if y > old(self).cursor_y {
                csi((y - old(self).cursor_y) as nat, 0x42u8)
            } else if y < old(self).cursor_y {
                csi((old(self).cursor_y - y) as nat, 0x41u8)
            } else {
                Seq::<u8>::empty()
            };
            assert(mid =~= start + v);
            assert(out@ =~= old(out)@ + moved(*old(self), x, y).1);
        }
    }

    /// Whether switching to `target` turns an attribute off.
    fn needs_reset(&self, target: &Style) -> (r: bool)
        ensures
            r == needs_reset(self.current_style, *target),
    {
        (self.current_style.bold && !target.bold) || (self.current_style.dim && !target.dim)
            || (self.current_style.italic && !target.italic) || (self.current_style.underline && !target.underline)
            || (self.current_style.reverse && !target.reverse)
    }

    /// Appends the SGR bytes that switch the terminal to `target`.
    fn apply_style(&mut self, target: Style, out: &mut Vec<u8>)
        ensures
            *final(self) == styled(*old(self), target).0,
            final(out)@ == old(out)@ + styled(*old(self), target).1,
    {
        if self.current_style == target {
            proof {
                assert(old(out)@ + Seq::<u8>::empty() =~= old(out)@);
            }
            return;
        }
        let ghost start = out@;
        if self.needs_reset(&target) {
            out.push(0x1b);
            out.push(0x5b);
            out.push(0x30);
            out.push(0x6d);
            self.current_style = Style::new();
            proof {
                assert(out@ =~= start + ascii_bytes(sgr_reset()));
            }
        }
        let ghost mid = out@;
        let base = self.current_style;
        let codes = transition_code_list(base, target);
        push_sgr(out, &codes);
        self.current_style = target;
        proof {
            assert(out@ =~= old(out)@ + styled(*old(self), target).1);
        }
    }

    /// Emits one cell of a run.
    fn emit_cell(&mut self, cell: &Cell, out: &mut Vec<u8>)
        ensures
            *final(self) == cell_emitted(*old(self), *cell).0,
            final(out)@ == old(out)@ + cell_emitted(*old(self), *cell).1,
    {
        if cell.is_continuation {
            proof {
                assert(old(out)@ + Seq::<u8>::empty() =~= old(out)@);
            }
            return;
        }
        self.apply_style(cell.style, out);
        if cell.glyph.is_empty() {
            out.push(0x20);
            self.cursor_x = self.cursor_x.wrapping_add(1);
        } else {
            push_bytes(out, cell.glyph.grapheme.as_str().as_bytes());
            self.cursor_x = self.cursor_x.wrapping_add(cell.glyph.display_width as u16);
        }
        proof {
            assert(final(out)@ =~= old(out)@ + cell_emitted(*old(self), *cell).1);
        }
    }

    /// Emits the runs of row `y`.
    fn emit_runs(&mut self, y: u16, runs: &Vec<CellRun>, out: &mut Vec<u8>)
        ensures
            *final(self) == runs_emitted(*old(self), y, runs@).0,
            final(out)@ == old(out)@ + runs_emitted(*old(self), y, runs@).1,
    {
        let mut k: usize = 0;
        while k < runs.len()
            invariant
                k <= runs@.len(),
                *self == runs_emitted(*old(self), y, runs@.take(k as int)).0,
                out@ == old(out)@ + runs_emitted(*old(self), y, runs@.take(k as int)).1,
            decreases runs@.len() - k,
        {
            let ghost before_out = out@;
            let ghost before = *self;
            let run = &runs[k];
            self.move_to(run.x, y, out);
            let ghost after_move = out@;
            let mut i: usize = 0;
            while i < run.cells.len()
                invariant
                    i <= run.cells@.len(),
                    *self == cells_emitted(moved(before, run.x, y).0, run.cells@.take(i as int)).0,
                    out@ == after_move + cells_emitted(moved(before, run.x, y).0, run.cells@.take(i as int)).1,
                decreases run.cells@.len() - i,
            {
                self.emit_cell(&run.cells[i], out);
                proof {
                    assert(run.cells@.take(i as int + 1).drop_last() =~= run.cells@.take(i as int));
                    assert(run.cells@.take(i as int + 1).last() == run.cells@[i as int]);
                    assert(out@ =~= after_move + cells_emitted(moved(before, run.x, y).0, run.cells@.take(i as int + 1)).1);
                }
                i = i + 1;
            }
            proof {
                assert(run.cells@.take(run.cells@.len() as int) =~= run.cells@);
                assert(runs@.take(k as int + 1).drop_last() =~= runs@.take(k as int));
                assert(runs@.take(k as int + 1).last() == runs@[k as int]);
                assert(out@ =~= old(out)@ + runs_emitted(*old(self), y, runs@.take(k as int + 1)).1);
            }
            k = k + 1;
        }
        proof {
            assert(runs@.take(runs@.len() as int) =~= runs@);
        }
    }

    /// Moves to `(x, y)`, switches to the plain style and erases to the end
    /// of the line.
    fn emit_erase(&mut self, x: u16, y: u16, out: &mut Vec<u8>)
        ensures
            *final(self) == erased(*old(self), x, y).0,
            final(out)@ == old(out)@ + erased(*old(self), x, y).1,
    {
        self.move_to(x, y, out);
        self.apply_style(Style::new(), out);
        out.push(0x1b);
        out.push(0x5b);
        out.push(0x4b);
        proof {
            assert(final(out)@ =~= old(out)@ + erased(*old(self), x, y).1);
        }
    }

    /// Emits one row patch: its runs, then its erase-to-end-of-line.
    fn compile_row_patch(&mut self, patch: &RowPatch, out: &mut Vec<u8>)
        ensures
            *final(self) == patch_emitted(*old(self), *patch).0,
            final(out)@ == old(out)@ + patch_emitted(*old(self), *patch).1,
    {
        self.emit_runs(patch.y, &patch.runs, out);
        match patch.erase_eol_from {
            Some(x) => {
                let ghost mid = out@;
                self.emit_erase(x, patch.y, out);
                proof {
                    assert(final(out)@ =~= old(out)@ + patch_emitted(*old(self), *patch).1);
                }
            },
            None => {},
        }
    }

    /// Compiles a diff into the bytes of one frame and updates the tracked
    /// cursor and style; an empty diff gives no bytes.
    pub fn compile(&mut self, diff: &SurfaceDiff) -> (out: Vec<u8>)
        requires
            diff.next_height + diff.rows_to_clear <= u16::MAX,
        ensures
            *final(self) == compiled(*old(self), *diff).0,
            out@ == compiled(*old(self), *diff).1,
    {
        let mut out: Vec<u8> = Vec::new();
        if diff.is_empty() {
            proof {
                assert(out@ =~= Seq::<u8>::empty());
            }
            return out;
        }
        if self.sync_updates {
            push_ascii(&mut out, "\x1b[?2026h");
        }
        push_ascii(&mut out, "\x1b[?7l");
        let ghost open = out@;
        let mut k: usize = 0;
        while k < diff.patches.len()
            invariant
                k <= diff.patches@.len(),
                self.sync_updates == old(self).sync_updates,
                *self == patches_emitted(*old(self), diff.patches@.take(k as int)).0,
                out@ == open + patches_emitted(*old(self), diff.patches@.take(k as int)).1,
            decreases diff.patches@.len() - k,
        {
            self.compile_row_patch(&diff.patches[k], &mut out);
            proof {
                assert(diff.patches@.take(k as int + 1).drop_last() =~= diff.patches@.take(k as int));
                assert(diff.patches@.take(k as int + 1).last() == diff.patches@[k as int]);
                assert(out@ =~= open + patches_emitted(*old(self), diff.patches@.take(k as int + 1)).1);
                lemma_emit_keeps_sync(*old(self), diff.patches@.take(k as int + 1));
            }
            k = k + 1;
        }
        proof {
            assert(diff.patches@.take(diff.patches@.len() as int) =~= diff.patches@);
        }
        let ghost after_patches = out@;
        let ghost pstate = *self;
        let mut r: u16 = 0;
        while r < diff.rows_to_clear
            invariant
                r <= diff.rows_to_clear,
                diff.next_height + diff.rows_to_clear <= u16::MAX,
                self.sync_updates == old(self).sync_updates,
                *self == rows_cleared(pstate, diff.next_height, r as int).0,
                out@ == after_patches + rows_cleared(pstate, diff.next_height, r as int).1,
            decreases diff.rows_to_clear - r,
        {
            self.emit_erase(0, diff.next_height + r, &mut out);
            proof {
                assert(out@ =~= after_patches + rows_cleared(pstate, diff.next_height, r as int + 1).1);
            }
            r = r + 1;
        }
        let ghost after_rows = out@;
        if !self.current_style.is_default() {
            push_ascii(&mut out, "\x1b[0m");
            self.current_style = Style::new();
        }
        push_ascii(&mut out, "\x1b[?7h");
        if self.sync_updates {
            push_ascii(&mut out, "\x1b[?2026l");
        }
        proof {
            assert(out@ =~= compiled(*old(self), *diff).1);
        }
        out
    }
}


/// The bytes `bytes` begin with a full SGR reset, or are a single SGR
/// sequence among whose parameters `code` occurs.
pub open spec fn resets_or_sets(bytes: Seq<u8>, code: Seq<char>) -> bool {
    ||| bytes.len() >= 4 && bytes.take(4) == ascii_bytes(sgr_reset())
    ||| exists|codes: Seq<Seq<char>>| #[trigger] codes.contains(code)
        && bytes == ascii_bytes(seq!['\x1b', '['] + join_semicolon(codes) + seq!['m'])
}

/// The parameters of a switch that drops a color include the code that
/// clears it.
proof fn lemma_transition_clears(base: Style, target: Style)
    ensures
        base.fg is Some && target.fg is None ==> transition_codes(base, target).contains(seq!['3', '9']),
        base.bg is Some && target.bg is None ==> transition_codes(base, target).contains(seq!['4', '9']),
{
    let codes = transition_codes(base, target);
    let attrs = code_if(target.bold && !base.bold, seq!['1']) + code_if(target.dim && !base.dim, seq!['2'])
        + code_if(target.italic && !base.italic, seq!['3']) + code_if(target.underline && !base.underline, seq!['4'])
        + code_if(target.reverse && !base.reverse, seq!['7']);
    let fgc = color_codes(target.fg, base.fg, true);
    let bgc = color_codes(target.bg, base.bg, false);
    assert(codes =~= attrs + fgc + bgc);
    if base.fg is Some && target.fg is None {
        assert(fgc =~= seq![seq!['3', '9']]);
        assert(codes[attrs.len() as int] == seq!['3', '9']);
    }
    if base.bg is Some && target.bg is None {
        assert(bgc =~= seq![seq!['4', '9']]);
        assert(codes[(attrs.len() + fgc.len()) as int] == seq!['4', '9']);
    }
}

/// The bytes of a switch: a reset first when one is needed, else exactly one
/// SGR sequence with the transition's parameters (or nothing).
proof fn lemma_styled_bytes(c: AnsiCompiler, target: Style)
    requires
        c.current_style != target,
        !needs_reset(c.current_style, target),
        transition_codes(c.current_style, target).len() > 0,
    ensures
        styled(c, target).1 == ascii_bytes(seq!['\x1b', '['] + join_semicolon(transition_codes(c.current_style, target)) + seq!['m']),
{
    let body = ascii_bytes(seq!['\x1b', '['] + join_semicolon(transition_codes(c.current_style, target)) + seq!['m']);
    assert(Seq::<u8>::empty() + body =~= body);
}

/// Switching to a style that drops a color the terminal currently shows
/// always clears that color: the bytes either start with a full reset or
/// carry `39` (foreground) or `49` (background) among their parameters, so
/// the terminal's colors end up as the compiler believes them to be.
pub proof fn law_dropped_color_is_cleared(c: AnsiCompiler, target: Style)
    ensures
        styled(c, target).0.current_style == target,
        c.current_style.fg is Some && target.fg is None ==> resets_or_sets(styled(c, target).1, seq!['3', '9']),
        c.current_style.bg is Some && target.bg is None ==> resets_or_sets(styled(c, target).1, seq!['4', '9']),
{
    let cur = c.current_style;
    if cur != target {
        if needs_reset(cur, target) {
            let bytes = styled(c, target).1;
            assert(bytes.take(4) =~= ascii_bytes(sgr_reset()));
        } else {
            lemma_transition_clears(cur, target);
            let codes = transition_codes(cur, target);
            if (cur.fg is Some && target.fg is None) || (cur.bg is Some && target.bg is None) {
                assert(codes.len() > 0);
                lemma_styled_bytes(c, target);
            }
        }
    }
}

/// The bytes `bytes` are one SGR sequence, possibly after a full reset,
/// among whose parameters `code` occurs.
pub open spec fn carries(bytes: Seq<u8>, code: Seq<char>) -> bool {
    exists|codes: Seq<Seq<char>>| #[trigger] codes.contains(code) && {
        ||| bytes == ascii_bytes(seq!['\x1b', '['] + join_semicolon(codes) + seq!['m'])
        ||| bytes == ascii_bytes(sgr_reset()) + ascii_bytes(seq!['\x1b', '['] + join_semicolon(codes) + seq!['m'])
    }
}

proof fn lemma_contains_concat(a: Seq<Seq<char>>, b: Seq<Seq<char>>, x: Seq<char>)
    ensures
        a.contains(x) || b.contains(x) ==> (a + b).contains(x),
{
    if a.contains(x) {
        let i = choose|i: int| 0 <= i < a.len() && a[i] == x;
        assert((a + b)[i] == x);
    } else if b.contains(x) {
        let i = choose|i: int| 0 <= i < b.len() && b[i] == x;
        assert((a + b)[a.len() + i] == x);
    }
}

/// What a switch from `base` asks for: each attribute of `target` that
/// `base` lacks, and each color of `target` that differs from `base`.
proof fn lemma_transition_sets(base: Style, target: Style)
    ensures
        target.bold && !base.bold ==> transition_codes(base, target).contains(seq!['1']),
        target.dim && !base.dim ==> transition_codes(base, target).contains(seq!['2']),
        target.italic && !base.italic ==> transition_codes(base, target).contains(seq!['3']),
        target.underline && !base.underline ==> transition_codes(base, target).contains(seq!['4']),
        target.reverse && !base.reverse ==> transition_codes(base, target).contains(seq!['7']),
        target.fg matches Some(col) ==> (base.fg != target.fg ==> transition_codes(base, target).contains(color_code(col, true))),
        target.bg matches Some(col) ==> (base.bg != target.bg ==> transition_codes(base, target).contains(color_code(col, false))),
        base != target && !needs_reset(base, target) ==> transition_codes(base, target).len() > 0,
{
    let a1 = code_if(target.bold && !base.bold, seq!['1']);
    let a2 = code_if(target.dim && !base.dim, seq!['2']);
    let a3 = code_if(target.italic && !base.italic, seq!['3']);
    let a4 = code_if(target.underline && !base.underline, seq!['4']);
    let a5 = code_if(target.reverse && !base.reverse, seq!['7']);
    let f = color_codes(target.fg, base.fg, true);
    let b = color_codes(target.bg, base.bg, false);
    assert(a1.len() > 0 ==> a1[0] == seq!['1']);
    assert(a2.len() > 0 ==> a2[0] == seq!['2']);
    assert(a3.len() > 0 ==> a3[0] == seq!['3']);
    assert(a4.len() > 0 ==> a4[0] == seq!['4']);
    assert(a5.len() > 0 ==> a5[0] == seq!['7']);
    lemma_contains_concat(a1, a2, seq!['1']);
    lemma_contains_concat(a1, a2, seq!['2']);
    let p2 = a1 + a2;
    lemma_contains_concat(p2, a3, seq!['1']);
    lemma_contains_concat(p2, a3, seq!['2']);
    lemma_contains_concat(p2, a3, seq!['3']);
    let p3 = p2 + a3;
    lemma_contains_concat(p3, a4, seq!['1']);
    lemma_contains_concat(p3, a4, seq!['2']);
    lemma_contains_concat(p3, a4, seq!['3']);
    lemma_contains_concat(p3, a4, seq!['4']);
    let p4 = p3 + a4;
    lemma_contains_concat(p4, a5, seq!['1']);
    lemma_contains_concat(p4, a5, seq!['2']);
    lemma_contains_concat(p4, a5, seq!['3']);
    lemma_contains_concat(p4, a5, seq!['4']);
    lemma_contains_concat(p4, a5, seq!['7']);
    let p5 = p4 + a5;
    let p6 = p5 + f;
    let all = p6 + b;
    assert(transition_codes(base, target) == all);
    lemma_contains_concat(p6, b, seq!['1']);
    lemma_contains_concat(p6, b, seq!['2']);
    lemma_contains_concat(p6, b, seq!['3']);
    lemma_contains_concat(p6, b, seq!['4']);
    lemma_contains_concat(p6, b, seq!['7']);
    lemma_contains_concat(p5, f, seq!['1']);
    lemma_contains_concat(p5, f, seq!['2']);
    lemma_contains_concat(p5, f, seq!['3']);
    lemma_contains_concat(p5, f, seq!['4']);
    lemma_contains_concat(p5, f, seq!['7']);
    match target.fg {
        Some(col) => {
            if base.fg != target.fg {
                assert(f[0] == color_code(col, true));
                lemma_contains_concat(p5, f, color_code(col, true));
                lemma_contains_concat(p6, b, color_code(col, true));
            }
        },
        None => {},
    }
    match target.bg {
        Some(col) => {
            if base.bg != target.bg {
                assert(b[0] == color_code(col, false));
                lemma_contains_concat(p6, b, color_code(col, false));
            }
        },
        None => {},
    }
    if base != target && !needs_reset(base, target) {
        if all.len() == 0 {
            assert(a1.len() == 0 && a2.len() == 0 && a3.len() == 0 && a4.len() == 0 && a5.len() == 0);
            assert(f.len() == 0 && b.len() == 0);
            assert(base == target);
        }
    }
}

/// A style switch leaves the terminal in the target style: nothing is sent
/// when the style is already current, and otherwise some bytes are; an
/// attribute that must go off forces a full reset first; every attribute
/// and every color of the target that the terminal does not already show
/// (after that reset, where there is one) is set among the parameters.
pub proof fn law_style_switch_reaches_target(c: AnsiCompiler, target: Style)
    ensures
        styled(c, target).0.current_style == target,
        (styled(c, target).1.len() == 0) == (c.current_style == target),
        ({
            let cur = c.current_style;
            (cur.bold && !target.bold) || (cur.dim && !target.dim) || (cur.italic && !target.italic)
                || (cur.underline && !target.underline) || (cur.reverse && !target.reverse)
        }) ==> styled(c, target).1.len() >= 4 && styled(c, target).1.take(4) == ascii_bytes(sgr_reset()),
        ({
            let cur = c.current_style;
            let r = needs_reset(cur, target);
            let bytes = styled(c, target).1;
            &&& target.bold && (r || !cur.bold) ==> carries(bytes, seq!['1'])
            &&& target.dim && (r || !cur.dim) ==> carries(bytes, seq!['2'])
            &&& target.italic && (r || !cur.italic) ==> carries(bytes, seq!['3'])
            &&& target.underline && (r || !cur.underline) ==> carries(bytes, seq!['4'])
            &&& target.reverse && (r || !cur.reverse) ==> carries(bytes, seq!['7'])
            &&& (target.fg matches Some(col) ==> ((r || cur.fg != target.fg) ==> carries(bytes, color_code(col, true))))
            &&& (target.bg matches Some(col) ==> ((r || cur.bg != target.bg) ==> carries(bytes, color_code(col, false))))
        }),
{
    let cur = c.current_style;
    if cur != target {
        let r = needs_reset(cur, target);
        let base = if r { plain_style() } else { cur };
        let codes = transition_codes(base, target);
        lemma_transition_sets(base, target);
        let body = ascii_bytes(seq!['\x1b', '['] + join_semicolon(codes) + seq!['m']);
        let bytes = styled(c, target).1;
        if r {
            assert(bytes.take(4) =~= ascii_bytes(sgr_reset()));
            if codes.len() > 0 {
                assert(bytes == ascii_bytes(sgr_reset()) + body);
            }
        } else {
            assert(codes.len() > 0);
            assert(Seq::<u8>::empty() + body =~= body);
            assert(bytes == body);
            assert(body.len() > 0);
        }
    }
}

/// An empty diff compiles to no bytes and leaves the compiler as it was.
pub proof fn law_empty_diff_emits_nothing(c: AnsiCompiler, d: SurfaceDiff)
    requires
        d.patches@.len() == 0,
        d.rows_to_clear == 0,
    ensures
        compiled(c, d) == (c, Seq::<u8>::empty()),
{
}

/// A non-empty frame opens with (the synchronized-update begin and) auto-wrap
/// off, closes with auto-wrap on (and the synchronized-update end), and
/// leaves the terminal in the plain style; the synchronized-update setting is
/// kept.
pub proof fn law_frame_is_bracketed(c: AnsiCompiler, d: SurfaceDiff)
    requires
        d.patches@.len() > 0 || d.rows_to_clear > 0,
    ensures
        ({
            let (c2, bytes) = compiled(c, d);
            let open = (if c.sync_updates { ascii_bytes("\x1b[?2026h"@) } else { Seq::empty() }) + ascii_bytes("\x1b[?7l"@);
            let close = ascii_bytes("\x1b[?7h"@) + (if c.sync_updates { ascii_bytes("\x1b[?2026l"@) } else { Seq::empty() });
            &&& bytes.len() >= open.len() + close.len()
            &&& bytes.take(open.len() as int) == open
            &&& bytes.skip(bytes.len() - close.len()) == close
            &&& c2.current_style == plain_style()
            &&& c2.sync_updates == c.sync_updates
        }),
{
    let open = (if c.sync_updates { ascii_bytes("\x1b[?2026h"@) } else { Seq::<u8>::empty() }) + ascii_bytes("\x1b[?7l"@);
    let close = ascii_bytes("\x1b[?7h"@) + (if c.sync_updates { ascii_bytes("\x1b[?2026l"@) } else { Seq::<u8>::empty() });
    let p = patches_emitted(c, d.patches@);
    let r = rows_cleared(p.0, d.next_height, d.rows_to_clear as int);
    let fin = if r.0.current_style != plain_style() {
        (AnsiCompiler { current_style: plain_style(), ..r.0 }, ascii_bytes("\x1b[0m"@))
    } else {
        (r.0, Seq::<u8>::empty())
    };
    let mid = p.1 + r.1 + fin.1;
    let bytes = open + p.1 + r.1 + fin.1 + close;
    assert(bytes =~= open + mid + close);
    assert(bytes.take(open.len() as int) =~= open);
    assert(bytes.skip(bytes.len() - close.len()) =~= close);
    lemma_emit_keeps_sync(c, d.patches@);
    lemma_rows_keep_sync(p.0, d.next_height, d.rows_to_clear as int);
}

proof fn lemma_rows_keep_sync(c: AnsiCompiler, top: u16, k: int)
    ensures
        rows_cleared(c, top, k).0.sync_updates == c.sync_updates,
    decreases k,
{
    if k > 0 {
        lemma_rows_keep_sync(c, top, k - 1);
    }
}

} // verus!
