//! The differential renderer's own state and decisions: the live-region
//! anchor, how terminal geometry changes invalidate it, which insertion
//! strategy history lines take, the bytes that clear the live region, and
//! the stripping of engine-generated escapes for non-terminal output.
use crate::ansi::{compiled, csi, moved, AnsiCompiler};
use crate::diff::SurfaceDiff;
use crate::capability::{quantize_style, quantized_style, ColorDepth};
use crate::cell::{plain_style, sgr_of, sgr_reset, Cell, Style};
use crate::diff::{compute_diff, height_of, patches_upto, row_cells, row_of};
use crate::surface::Surface;
use crate::text::{ascii_bytes, decimal, push_char, push_decimal_bytes};
use vstd::prelude::*;

verus! {

/// Operating mode of the renderer.
#[derive(Debug, Clone, Copy, PartialEq, Eq, Structural, Default)]
pub enum RenderMode {
    /// Coexists with the terminal's scrollback history.
    #[default]
    Inline,
    /// Owns the terminal through the alternate screen.
    Fullscreen,
}

/// How history lines were inserted above the live region.
#[derive(Debug, Clone, Copy, PartialEq, Eq, Structural)]
pub enum InsertStrategy {
    /// `CSI L` at the region top: the live framebuffer is not repainted.
    InsertLineFastPath,
    /// Erase the region, print the history, repaint the live framebuffer.
    RepaintFallback,
}

impl InsertStrategy {
    pub fn used_fallback(self) -> (b: bool)
        ensures
            b == (self is RepaintFallback),
    {
        match self {
            InsertStrategy::RepaintFallback => true,
            InsertStrategy::InsertLineFastPath => false,
        }
    }
}

/// The physical live-region anchor.
#[derive(Debug, Clone, Copy, PartialEq, Eq, Structural)]
pub enum AnchorState {
    /// No trustworthy anchor: the next frame re-establishes the region.
    Invalid,
    /// The live region was rendered coherently at this geometry.
    Stable { cols: u16, rows: u16, live_height: u16 },
}

/// The differential terminal renderer's state.
pub struct Renderer {
    pub mode: RenderMode,
    /// The last frame on screen, the base of the next diff.
    pub previous_surface: Option<Surface>,
    pub compiler: AnsiCompiler,
    pub live_region_height: u16,
    pub last_cursor_y: u16,
    pub last_cursor_x: u16,
    /// Cursor visibility as last committed.
    pub last_cursor_visible: Option<bool>,
    /// The cursor the last painted frame asked for (region-relative).
    pub last_cursor_desired: Option<(u16, u16)>,
    pub anchor: AnchorState,
    pub last_terminal_size: Option<(u16, u16)>,
    pub total_frame_bytes: u64,
    pub total_commit_bytes: u64,
    pub total_insertion_bytes: u64,
    pub total_control_bytes: u64,
    pub anchor_resyncs: u64,
    pub history_insertions: u64,
    pub fast_insertions: u64,
    pub fallback_insertions: u64,
    pub last_insert_strategy: Option<InsertStrategy>,
}

impl Renderer {
    /// The live-region state is discarded: no anchor, no previous frame, no
    /// region, cursor at the origin with unknown visibility.
    pub open spec fn is_reset(&self) -> bool {
        &&& self.anchor is Invalid
        &&& self.previous_surface is None
        &&& self.live_region_height == 0
        &&& self.last_cursor_x == 0 && self.last_cursor_y == 0
        &&& self.last_cursor_visible is None
        &&& self.last_cursor_desired is None
    }

    /// The counters and settings that anchor invalidation leaves alone.
    pub open spec fn same_books(&self, other: &Renderer) -> bool {
        &&& self.mode == other.mode
        &&& self.compiler == other.compiler
        &&& self.total_frame_bytes == other.total_frame_bytes
        &&& self.total_commit_bytes == other.total_commit_bytes
        &&& self.total_insertion_bytes == other.total_insertion_bytes
        &&& self.total_control_bytes == other.total_control_bytes
        &&& self.history_insertions == other.history_insertions
        &&& self.fast_insertions == other.fast_insertions
        &&& self.fallback_insertions == other.fallback_insertions
        &&& self.last_insert_strategy == other.last_insert_strategy
    }

    /// A renderer with no live region yet.
    pub fn new(mode: RenderMode) -> (r: Self)
        ensures
            r.mode == mode,
            r.is_reset(),
            r.last_terminal_size is None,
            r.compiler.cursor_x == 0 && r.compiler.cursor_y == 0,
            r.compiler.current_style == plain_style(),
            !r.compiler.sync_updates,
            r.total_frame_bytes == 0 && r.total_commit_bytes == 0,
            r.total_insertion_bytes == 0 && r.total_control_bytes == 0,
            r.anchor_resyncs == 0 && r.history_insertions == 0,
            r.fast_insertions == 0 && r.fallback_insertions == 0,
            r.last_insert_strategy is None,
    {
        Renderer {
            mode,
            previous_surface: None,
            compiler: AnsiCompiler::new(false),
            live_region_height: 0,
            last_cursor_y: 0,
            last_cursor_x: 0,
            last_cursor_visible: None,
            last_cursor_desired: None,
            anchor: AnchorState::Invalid,
            last_terminal_size: None,
            total_frame_bytes: 0,
            total_commit_bytes: 0,
            total_insertion_bytes: 0,
            total_control_bytes: 0,
            anchor_resyncs: 0,
            history_insertions: 0,
            fast_insertions: 0,
            fallback_insertions: 0,
            last_insert_strategy: None,
        }
    }

    /// Marks the anchor untrustworthy and discards the diff state, so that
    /// the next frame re-establishes the live region; a resync is counted
    /// when asked for.
    pub fn invalidate_anchor(&mut self, count_resync: bool)
        requires
            count_resync ==> old(self).anchor_resyncs < u64::MAX,
        ensures
            final(self).is_reset(),
            final(self).same_books(old(self)),
            final(self).last_terminal_size == old(self).last_terminal_size,
            final(self).anchor_resyncs == old(self).anchor_resyncs + (if count_resync { 1int } else { 0int }),
    {
        if count_resync {
            self.anchor_resyncs = self.anchor_resyncs + 1;
        }
        self.anchor = AnchorState::Invalid;
        self.previous_surface = None;
        self.live_region_height = 0;
        self.last_cursor_x = 0;
        self.last_cursor_y = 0;
        self.last_cursor_visible = None;
        self.last_cursor_desired = None;
    }

    /// Records the terminal's geometry. An unchanged geometry changes
    /// nothing and returns false. A new one invalidates the anchor; it
    /// returns true, and counts a resync, exactly when a geometry was known
    /// before and a frame or live region existed (a re-anchor rather than a
    /// first frame).
    pub fn observe_geometry(&mut self, cols: u16, rows: u16) -> (reanchor: bool)
        requires
            old(self).anchor_resyncs < u64::MAX,
        ensures
            old(self).last_terminal_size == Some((cols, rows)) ==> !reanchor && *final(self) == *old(self),
            old(self).last_terminal_size != Some((cols, rows)) ==> {
                &&& reanchor == (old(self).last_terminal_size is Some
                    && (old(self).previous_surface is Some || old(self).live_region_height > 0))
                &&& final(self).last_terminal_size == Some((cols, rows))
                &&& final(self).is_reset()
                &&& final(self).same_books(old(self))
                &&& final(self).anchor_resyncs == old(self).anchor_resyncs + (if reanchor { 1int } else { 0int })
            },
    {
        let same = match self.last_terminal_size {
            Some((c, r)) => c == cols && r == rows,
            None => false,
        };
        if same {
            return false;
        }
        let had_prior_state = self.last_terminal_size.is_some()
            && (self.previous_surface.is_some() || self.live_region_height > 0);
        self.last_terminal_size = Some((cols, rows));
        self.invalidate_anchor(had_prior_state);
        had_prior_state
    }

    /// Whether history lines go above the live region by the `CSI L` fast
    /// path: only with a live region, a stable anchor, a terminal known to
    /// support insert-line, room for the lines and the region together, and
    /// a previous frame. Otherwise the always-correct repaint fallback.
    pub fn insert_strategy_for(&self, line_count: usize, term_rows: u16, insert_line_supported: bool) -> (s: InsertStrategy)
        ensures
            (s is InsertLineFastPath) == (self.live_region_height > 0 && self.anchor is Stable && insert_line_supported
                && sat_add_u16((line_count % 65536) as u16, self.live_region_height) <= term_rows
                && self.previous_surface is Some),
    {
        let m: u16 = (line_count % 65536) as u16;
        let combined = m.saturating_add(self.live_region_height);
        let anchor_stable = match self.anchor {
            AnchorState::Stable { .. } => true,
            AnchorState::Invalid => false,
        };
        if self.live_region_height > 0 && anchor_stable && insert_line_supported && combined <= term_rows
            && self.previous_surface.is_some() {
            InsertStrategy::InsertLineFastPath
        } else {
            InsertStrategy::RepaintFallback
        }
    }

    /// The bytes that blank the live region and leave the cursor at its top:
    /// back up to the region's first row, erase every row, return to the top.
    /// Nothing when there is no live region.
    pub fn live_region_clear_bytes(&self) -> (out: Vec<u8>)
        ensures
            out@ == (if self.live_region_height == 0 { Seq::empty() } else { region_clear(self.live_region_height, self.last_cursor_y) }),
    {
        let mut out: Vec<u8> = Vec::new();
        let h = self.live_region_height;
        if h == 0 {
            return out;
        }
        push_up_home(&mut out, self.last_cursor_y);
        let ghost a = out@;
        let mut i: u16 = 0;
        while i < h
            invariant
                i <= h,
                out@ == a + erased_rows(i as int),
            decreases h - i,
        {
            if i > 0 {
                out.push(13);
                out.push(10);
            }
            out.push(0x1b);
            out.push(0x5b);
            out.push(0x4b);
            proof {
                assert(out@ =~= a + erased_rows(i as int + 1));
            }
            i = i + 1;
        }
        push_up_home(&mut out, h - 1);
        proof {
            assert(out@ =~= region_clear(h, self.last_cursor_y));
        }
        out
    }

    /// Books a completed clear of the live region: `bytes` written, and the
    /// anchor invalidated (the next frame starts a fresh region).
    pub fn record_clear(&mut self, bytes: usize)
        requires
            old(self).total_control_bytes + bytes <= u64::MAX,
        ensures
            final(self).is_reset(),
            final(self).total_control_bytes == old(self).total_control_bytes + bytes,
            final(self).anchor_resyncs == old(self).anchor_resyncs,
            final(self).last_terminal_size == old(self).last_terminal_size,
    {
        self.invalidate_anchor(false);
        self.total_control_bytes = self.total_control_bytes + bytes as u64;
    }

    /// Books a completed insertion of history lines: `bytes` written by
    /// `strategy`.
    pub fn record_insertion(&mut self, bytes: usize, strategy: InsertStrategy)
        requires
            old(self).history_insertions < u64::MAX,
            old(self).total_insertion_bytes + bytes <= u64::MAX,
            old(self).fast_insertions < u64::MAX,
            old(self).fallback_insertions < u64::MAX,
        ensures
            final(self).history_insertions == old(self).history_insertions + 1,
            final(self).total_insertion_bytes == old(self).total_insertion_bytes + bytes,
            final(self).last_insert_strategy == Some(strategy),
            final(self).fast_insertions == old(self).fast_insertions + (if strategy is InsertLineFastPath { 1int } else { 0int }),
            final(self).fallback_insertions == old(self).fallback_insertions + (if strategy is RepaintFallback { 1int } else { 0int }),
            final(self).anchor == old(self).anchor,
            final(self).live_region_height == old(self).live_region_height,
    {
        self.history_insertions = self.history_insertions + 1;
        self.total_insertion_bytes = self.total_insertion_bytes + bytes as u64;
        self.last_insert_strategy = Some(strategy);
        match strategy {
            InsertStrategy::InsertLineFastPath => self.fast_insertions = self.fast_insertions + 1,
            InsertStrategy::RepaintFallback => self.fallback_insertions = self.fallback_insertions + 1,
        }
    }

    /// The bytes that commit `lines` to scrollback on a terminal: the live
    /// region (if any) is blanked first, then each line is written followed
    /// by CR LF.
    pub fn commit_bytes(&self, lines: &[&str]) -> (out: Vec<u8>)
        ensures
            out@ == (if self.live_region_height == 0 { Seq::empty() } else { region_clear(self.live_region_height, self.last_cursor_y) })
                + lines_crlf(texts(lines@)),
    {
        let mut out = self.live_region_clear_bytes();
        push_lines_crlf(&mut out, lines);
        out
    }

    /// Books a completed commit of `bytes`: on a terminal the live region is
    /// gone and the anchor invalidated; without one only the bytes count.
    pub fn record_commit(&mut self, bytes: usize, is_tty: bool)
        requires
            old(self).total_commit_bytes + bytes <= u64::MAX,
        ensures
            final(self).total_commit_bytes == old(self).total_commit_bytes + bytes,
            is_tty ==> final(self).is_reset() && final(self).anchor_resyncs == old(self).anchor_resyncs,
            !is_tty ==> final(self).anchor == old(self).anchor && final(self).live_region_height == old(self).live_region_height
                && final(self).previous_surface == old(self).previous_surface,
    {
        if is_tty {
            self.invalidate_anchor(false);
        }
        self.total_commit_bytes = self.total_commit_bytes + bytes as u64;
    }

    /// The bytes of the `CSI L` fast path that inserts `lines` above a live
    /// region: move to the region's bottom, scroll up by one row per line,
    /// return to the (new) region top, open blank rows with `CSI L`, write the
    /// lines, and put the cursor back where it was inside the region. Rows
    /// are counted as a 16-bit number, so the count of lines wraps at 65536.
    pub fn fast_insert_bytes(&self, lines: &[&str]) -> (out: Vec<u8>)
        requires
            self.live_region_height > 0,
            lines@.len() % 65536 + self.live_region_height <= u16::MAX + 1,
        ensures
            out@ == fast_insert((lines@.len() % 65536) as int, self.live_region_height, self.last_cursor_x, self.last_cursor_y)
                + lines_crlf(texts(lines@)) + restore_cursor(self.last_cursor_x, self.last_cursor_y),
    {
        let h = self.live_region_height;
        let y = self.last_cursor_y;
        let m: u16 = (lines.len() % 65536) as u16;
        let mut out: Vec<u8> = Vec::new();
        if y < h - 1 {
            push_csi_bytes(&mut out, (h - 1 - y) as u32, 0x42);
        }
        let ghost a = out@;
        let mut i: u16 = 0;
        while i < m
            invariant
                i <= m,
                out@ == a + crlf_times(i as int),
            decreases m - i,
        {
            out.push(13);
            out.push(10);
            proof {
                assert(out@ =~= a + crlf_times(i as int + 1));
            }
            i = i + 1;
        }
        push_csi_bytes(&mut out, m as u32 + h as u32 - 1, 0x41);
        out.push(13);
        push_csi_bytes(&mut out, m as u32, 0x4c);
        let ghost b = out@;
        push_lines_crlf(&mut out, lines);
        let ghost c = out@;
        if y > 0 {
            push_csi_bytes(&mut out, y as u32, 0x42);
        }
        if self.last_cursor_x > 0 {
            push_csi_bytes(&mut out, self.last_cursor_x as u32, 0x43);
        }
        proof {
            assert(b =~= fast_insert((lines@.len() % 65536) as int, h, self.last_cursor_x, y));
            assert(out@ =~= b + lines_crlf(texts(lines@)) + restore_cursor(self.last_cursor_x, y));
        }
        out
    }
}


/// `a + b`, saturating at `u16::MAX`.
pub open spec fn sat_add_u16(a: u16, b: u16) -> u16 {
    if a + b <= u16::MAX { (a + b) as u16 } else { u16::MAX }
}

/// Up `n` rows and to column 0 (`CSI n A`, CR); just CR for `n == 0`.
pub open spec fn up_home(n: u16) -> Seq<u8> {
    if n > 0 { crate::ansi::csi(n as nat, 0x41u8) + seq![13u8] } else { seq![13u8] }
}

/// `k` rows erased (`CSI K`), with CR LF between consecutive rows.
pub open spec fn erased_rows(k: int) -> Seq<u8>
    decreases k,
{
    if k <= 0 {
        Seq::empty()
    } else if k == 1 {
        seq![0x1bu8, 0x5bu8, 0x4bu8]
    } else {
        erased_rows(k - 1) + seq![13u8, 10u8, 0x1bu8, 0x5bu8, 0x4bu8]
    }
}

/// Clearing a live region `h` rows tall with the cursor on row `y`.
pub open spec fn region_clear(h: u16, y: u16) -> Seq<u8> {
    up_home(y) + erased_rows(h as int) + up_home((h - 1) as u16)
}

fn push_up_home(out: &mut Vec<u8>, n: u16)
    ensures
        final(out)@ == old(out)@ + up_home(n),
{
    if n > 0 {
        out.push(0x1b);
        out.push(0x5b);
        push_decimal_bytes(out, n as u64);
        out.push(0x41);
    }
    out.push(13);
    proof {
        assert(final(out)@ =~= old(out)@ + up_home(n));
    }
}

/// Whether a character ends a control sequence: an ASCII letter, `~` or `@`.
pub open spec fn ends_sequence(c: char) -> bool {
    ('a' <= c <= 'z') || ('A' <= c <= 'Z') || c == '~' || c == '@'
}

/// The position after an OSC string starting at `k`: after its BEL, after
/// `ESC \` (or a lone ESC), or the end of the text.
pub open spec fn osc_end(s: Seq<char>, k: int) -> int
    decreases s.len() - k,
{
    if k < 0 || k >= s.len() {
        s.len() as int
    } else if s[k] == '\x07' {
        k + 1
    } else if s[k] == '\x1b' {
        if k + 1 < s.len() && s[k + 1] == '\\' { k + 2 } else { k + 1 }
    } else {
        osc_end(s, k + 1)
    }
}

/// The text of `s` from `i` on without escape sequences: CSI sequences
/// (`ESC [` up to a final letter, `~` or `@`), OSC strings (`ESC ]` up to BEL
/// or `ESC \`), and other escapes up to a final character; `in_escape` says
/// that a sequence is open at `i`.
pub open spec fn stripped_from(s: Seq<char>, i: int, in_escape: bool) -> Seq<char>
    decreases s.len() - i,
{
    if i < 0 || i >= s.len() {
        Seq::empty()
    } else if s[i] == '\x1b' {
        if i + 1 < s.len() && s[i + 1] == '[' {
            stripped_from(s, i + 2, true)
        } else if i + 1 < s.len() && s[i + 1] == ']' {
            let j = osc_end(s, i + 2);
            if i < j <= s.len() { stripped_from(s, j, false) } else { Seq::empty() }
        } else {
            stripped_from(s, i + 1, true)
        }
    } else if in_escape {
        stripped_from(s, i + 1, !ends_sequence(s[i]))
    } else {
        seq![s[i]] + stripped_from(s, i + 1, false)
    }
}

proof fn lemma_osc_end_bounds(s: Seq<char>, k: int)
    requires
        0 <= k,
    ensures
        k <= osc_end(s, k) <= s.len() || (k > s.len() && osc_end(s, k) == s.len()),
        k < s.len() ==> k < osc_end(s, k),
    decreases s.len() - k,
{
    if k < s.len() && s[k] != '\x07' && s[k] != '\x1b' {
        lemma_osc_end_bounds(s, k + 1);
    }
}

/// Strips CSI, OSC and other escape sequences from engine-generated text,
/// leaving the plain characters. Not a sanitizer for untrusted input.
pub fn strip_ansi_escapes(s: &str) -> (out: String)
    ensures
        out@ == stripped_from(s@, 0, false),
{
    let cs = crate::text::chars_of(s);
    let n = cs.len();
    let mut out = String::new();
    let mut in_escape = false;
    let mut i: usize = 0;
    while i < n
        invariant
            n == cs@.len(),
            cs@ == s@,
            i <= n,
            out@ + stripped_from(cs@, i as int, in_escape) == stripped_from(cs@, 0, false),
        decreases n - i,
    {
        let c = cs[i];
        if c == '\x1b' {
            if i + 1 < n && cs[i + 1] == '[' {
                in_escape = true;
                i = i + 2;
            } else if i + 1 < n && cs[i + 1] == ']' {
                let mut k: usize = i + 2;
                proof {
                    lemma_osc_end_bounds(cs@, k as int);
                }
                let ghost target = osc_end(cs@, i as int + 2);
                while k < n && cs[k] != '\x07' && cs[k] != '\x1b'
                    invariant
                        n == cs@.len(),
                        i + 2 <= k,
                        k <= n || k == i + 2,
                        target == osc_end(cs@, k as int),
                    decreases n - k,
                {
                    k = k + 1;
                }
                let j: usize = if k >= n {
                    n
                } else if cs[k] == '\x07' {
                    k + 1
                } else if k + 1 < n && cs[k + 1] == '\\' {
                    k + 2
                } else {
                    k + 1
                };
                proof {
                    lemma_osc_end_bounds(cs@, i as int + 2);
                    assert(j == target);
                }
                in_escape = false;
                i = j;
            } else {
                in_escape = true;
                i = i + 1;
            }
        } else if in_escape {
            if ('a' <= c && c <= 'z') || ('A' <= c && c <= 'Z') || c == '~' || c == '@' {
                in_escape = false;
            }
            i = i + 1;
        } else {
            let ghost before = out@;
            push_char(&mut out, c);
            proof {
                assert(before + stripped_from(cs@, i as int, false) =~= out@ + stripped_from(cs@, i as int + 1, false));
            }
            i = i + 1;
        }
    }
    proof {
        assert(out@ + Seq::<char>::empty() =~= out@);
    }
    out
}


/// Stripped text holds no escape character.
proof fn lemma_stripped_has_no_escape(s: Seq<char>, i: int, in_escape: bool)
    ensures
        forall|k: int| 0 <= k < stripped_from(s, i, in_escape).len() ==> #[trigger] stripped_from(s, i, in_escape)[k] != '\x1b',
    decreases s.len() - i,
{
    if i < 0 || i >= s.len() {
    } else if s[i] == '\x1b' {
        if i + 1 < s.len() && s[i + 1] == '[' {
            lemma_stripped_has_no_escape(s, i + 2, true);
            assert(stripped_from(s, i, in_escape) == stripped_from(s, i + 2, true));
        } else if i + 1 < s.len() && s[i + 1] == ']' {
            let j = osc_end(s, i + 2);
            if i < j <= s.len() {
                lemma_stripped_has_no_escape(s, j, false);
                assert(stripped_from(s, i, in_escape) == stripped_from(s, j, false));
            } else {
                assert(stripped_from(s, i, in_escape) =~= Seq::<char>::empty());
            }
        } else {
            lemma_stripped_has_no_escape(s, i + 1, true);
            assert(stripped_from(s, i, in_escape) == stripped_from(s, i + 1, true));
        }
    } else if in_escape {
        lemma_stripped_has_no_escape(s, i + 1, !ends_sequence(s[i]));
        assert(stripped_from(s, i, in_escape) == stripped_from(s, i + 1, !ends_sequence(s[i])));
    } else {
        lemma_stripped_has_no_escape(s, i + 1, false);
        let rest = stripped_from(s, i + 1, false);
        assert(stripped_from(s, i, in_escape) == seq![s[i]] + rest);
        assert forall|k: int| 0 <= k < stripped_from(s, i, in_escape).len() implies #[trigger] stripped_from(s, i, in_escape)[k] != '\x1b' by {
            if k > 0 {
                assert(stripped_from(s, i, in_escape)[k] == rest[k - 1]);
            }
        }
    }
}

/// Stripping leaves no escape character, and stripping again changes
/// nothing.
pub proof fn law_strip_is_escape_free_and_idempotent(s: Seq<char>)
    ensures
        forall|k: int| 0 <= k < stripped_from(s, 0, false).len() ==> #[trigger] stripped_from(s, 0, false)[k] != '\x1b',
        stripped_from(stripped_from(s, 0, false), 0, false) == stripped_from(s, 0, false),
{
    lemma_stripped_has_no_escape(s, 0, false);
    law_strip_keeps_plain_text(stripped_from(s, 0, false));
}

/// Text without an escape character comes out of stripping unchanged.
pub proof fn law_strip_keeps_plain_text(s: Seq<char>)
    requires
        forall|i: int| 0 <= i < s.len() ==> s[i] != '\x1b',
    ensures
        stripped_from(s, 0, false) == s,
{
    lemma_strip_plain_from(s, 0);
    assert(s.skip(0) =~= s);
}

proof fn lemma_strip_plain_from(s: Seq<char>, i: int)
    requires
        forall|k: int| 0 <= k < s.len() ==> s[k] != '\x1b',
        0 <= i <= s.len(),
    ensures
        stripped_from(s, i, false) == s.skip(i),
    decreases s.len() - i,
{
    if i < s.len() {
        lemma_strip_plain_from(s, i + 1);
        assert(seq![s[i]] + s.skip(i + 1) =~= s.skip(i));
    } else {
        assert(s.skip(i) =~= Seq::<char>::empty());
    }
}



/// The texts of string slices.
pub open spec fn texts(a: Seq<&str>) -> Seq<Seq<char>> {
    a.map_values(|t: &str| t@)
}

/// Lines written one after another, each followed by CR LF (UTF-8).
pub open spec fn lines_crlf(lines: Seq<Seq<char>>) -> Seq<u8>
    decreases lines.len(),
{
    if lines.len() == 0 {
        Seq::empty()
    } else {
        lines_crlf(lines.drop_last()) + vstd::utf8::encode_utf8(lines.last()) + seq![13u8, 10u8]
    }
}

/// `k` times CR LF.
pub open spec fn crlf_times(k: int) -> Seq<u8>
    decreases k,
{
    if k <= 0 { Seq::empty() } else { crlf_times(k - 1) + seq![13u8, 10u8] }
}

/// The fast-path prefix for `m` lines above a region `h` rows tall with the
/// cursor on row `y`: down to the bottom row, `m` new rows, up to the new
/// top, then `CSI m L`.
pub open spec fn fast_insert(m: int, h: u16, x: u16, y: u16) -> Seq<u8> {
    (if y < h - 1 { crate::ansi::csi((h - 1 - y) as nat, 0x42u8) } else { Seq::empty() })
        + crlf_times(m) + crate::ansi::csi((m + h - 1) as nat, 0x41u8) + seq![13u8]
        + crate::ansi::csi(m as nat, 0x4cu8)
}

/// Back to column `x` of row `y` of the region from its top-left corner.
pub open spec fn restore_cursor(x: u16, y: u16) -> Seq<u8> {
    (if y > 0 { crate::ansi::csi(y as nat, 0x42u8) } else { Seq::empty() })
        + (if x > 0 { crate::ansi::csi(x as nat, 0x43u8) } else { Seq::empty() })
}

/// Appends `ESC [ n fin`.
fn push_csi_bytes(out: &mut Vec<u8>, n: u32, fin: u8)
    ensures
        final(out)@ == old(out)@ + crate::ansi::csi(n as nat, fin),
{
    out.push(0x1b);
    out.push(0x5b);
    push_decimal_bytes(out, n as u64);
    out.push(fin);
    proof {
        assert(final(out)@ =~= old(out)@ + crate::ansi::csi(n as nat, fin));
    }
}

/// Appends each line followed by CR LF.
fn push_lines_crlf(out: &mut Vec<u8>, lines: &[&str])
    ensures
        final(out)@ == old(out)@ + lines_crlf(texts(lines@)),
{
    let mut i: usize = 0;
    while i < lines.len()
        invariant
            i <= lines@.len(),
            out@ == old(out)@ + lines_crlf(texts(lines@).take(i as int)),
        decreases lines@.len() - i,
    {
        crate::text::push_bytes(out, lines[i].as_bytes());
        out.push(13);
        out.push(10);
        proof {
            assert(texts(lines@).take(i as int + 1).drop_last() =~= texts(lines@).take(i as int));
            assert(texts(lines@).take(i as int + 1).last() == lines@[i as int]@);
            assert(out@ =~= old(out)@ + lines_crlf(texts(lines@).take(i as int + 1)));
        }
        i = i + 1;
    }
    proof {
        assert(texts(lines@).take(lines@.len() as int) =~= texts(lines@));
    }
}


/// What a cell puts on a text line: its grapheme, a space for an empty one.
pub open spec fn cell_text(c: Cell) -> Seq<char> {
    if c.glyph.grapheme@.len() == 0 { seq![' '] } else { c.glyph.grapheme@ }
}

/// A cell that a line must reach: a visible glyph, or (on a terminal) any
/// styling.
pub open spec fn line_ink(c: Cell, tty: bool) -> bool {
    (c.glyph.grapheme@.len() > 0 && c.glyph.grapheme@ != seq![' ']) || (tty && c.style != plain_style())
}

/// The length of a row up to and including its last inked cell.
pub open spec fn line_end(row: Seq<Cell>, tty: bool) -> int
    decreases row.len(),
{
    if row.len() == 0 { 0 } else if line_ink(row.last(), tty) { row.len() as int } else { line_end(row.drop_last(), tty) }
}

/// The styled text of a row so far, and the style left active.
pub type LineState = (Seq<char>, Style);

/// One more cell of a styled line: continuations add nothing; otherwise a
/// change of (quantized) style resets the previous one and sets the new one,
/// then the cell's text follows.
pub open spec fn styled_step(st: LineState, c: Cell, depth: ColorDepth) -> LineState {
    if c.is_continuation {
        st
    } else {
        let s = quantized_style(c.style, depth);
        if s != st.1 {
            let t = st.0 + (if st.1 != plain_style() { sgr_reset() } else { Seq::empty() })
                + (if s != plain_style() { sgr_of(s) } else { Seq::empty() });
            (t + cell_text(c), s)
        } else {
            (st.0 + cell_text(c), st.1)
        }
    }
}

/// Cells added to a styled line one by one.
pub open spec fn styled_fold(cells: Seq<Cell>, depth: ColorDepth) -> LineState
    decreases cells.len(),
{
    if cells.len() == 0 { (Seq::empty(), plain_style()) } else { styled_step(styled_fold(cells.drop_last(), depth), cells.last(), depth) }
}

/// The plain text of cells: each non-continuation cell's text.
pub open spec fn plain_fold(cells: Seq<Cell>) -> Seq<char>
    decreases cells.len(),
{
    if cells.len() == 0 {
        Seq::empty()
    } else if cells.last().is_continuation {
        plain_fold(cells.drop_last())
    } else {
        plain_fold(cells.drop_last()) + cell_text(cells.last())
    }
}

/// The text line of a row: up to its last inked cell; on a terminal with
/// SGR styling (colors quantized for `depth`) and a final reset when a style
/// is left active, otherwise plain text without any escape.
pub open spec fn row_line(row: Seq<Cell>, tty: bool, depth: ColorDepth) -> Seq<char> {
    let cells = row.take(line_end(row, tty));
    if tty {
        let st = styled_fold(cells, depth);
        st.0 + (if st.1 != plain_style() { sgr_reset() } else { Seq::empty() })
    } else {
        plain_fold(cells)
    }
}

proof fn lemma_line_end_bounds(row: Seq<Cell>, tty: bool)
    ensures
        0 <= line_end(row, tty) <= row.len(),
    decreases row.len(),
{
    if row.len() > 0 {
        lemma_line_end_bounds(row.drop_last(), tty);
    }
}

fn push_reset(out: &mut String)
    ensures
        final(out)@ == old(out)@ + sgr_reset(),
{
    push_char(out, '\x1b');
    push_char(out, '[');
    push_char(out, '0');
    push_char(out, 'm');
    proof {
        assert(final(out)@ =~= old(out)@ + sgr_reset());
    }
}

/// The text line of one row.
fn row_line_exec(row: &Vec<Cell>, is_tty: bool, depth: ColorDepth) -> (line: String)
    requires
        row@.len() <= 65535,
    ensures
        line@ == row_line(row@, is_tty, depth),
{
    let mut end: usize = row.len();
    proof {
        assert(row@.take(end as int) =~= row@);
    }
    let mut found = false;
    while end > 0 && !found
        invariant
            end <= row@.len(),
            line_end(row@, is_tty) == line_end(row@.take(end as int), is_tty),
            found ==> end > 0 && line_ink(row@[end - 1], is_tty),
        decreases 2 * end + (if found { 0int } else { 1int }),
    {
        let c = &row[end - 1];
        let g = crate::text::chars_of(c.glyph.grapheme.as_str());
        let visible = g.len() > 0 && !(g.len() == 1 && g[0] == ' ');
        let ink = visible || (is_tty && !c.style.is_default());
        proof {
            assert(row@.take(end as int).drop_last() =~= row@.take(end as int - 1));
            assert(row@.take(end as int).last() == row@[end - 1]);
            if g@.len() == 1 && g@[0] == ' ' {
                assert(g@ =~= seq![' ']);
            }
            assert(ink == line_ink(row@[end - 1], is_tty));
        }
        if ink {
            found = true;
        } else {
            end = end - 1;
        }
    }
    proof {
        if end == 0 {
            assert(row@.take(0) =~= Seq::<Cell>::empty());
        } else {
            assert(row@.take(end as int).last() == row@[end - 1]);
        }
        assert(line_end(row@, is_tty) == end);
    }
    let mut line = String::new();
    let mut cur = Style::new();
    let mut x: usize = 0;
    while x < end
        invariant
            end <= row@.len(),
            line_end(row@, is_tty) == end,
            x <= end,
            is_tty ==> (line@, cur) == styled_fold(row@.take(x as int), depth),
            !is_tty ==> line@ == plain_fold(row@.take(x as int)),
        decreases end - x,
    {
        let cell = &row[x];
        proof {
            assert(row@.take(x as int + 1).drop_last() =~= row@.take(x as int));
            assert(row@.take(x as int + 1).last() == row@[x as int]);
        }
        if !cell.is_continuation {
            if is_tty {
                let st = quantize_style(cell.style, depth);
                if st != cur {
                    if !cur.is_default() {
                        push_reset(&mut line);
                    }
                    if !st.is_default() {
                        st.write_sgr(&mut line);
                    }
                    cur = st;
                }
            }
            if cell.glyph.is_empty() {
                push_char(&mut line, ' ');
                proof {
                    assert(cell_text(*cell) =~= seq![' ']);
                }
            } else {
                line.append(cell.glyph.grapheme.as_str());
            }
        }
        x = x + 1;
    }
    proof {
        assert(row@.take(end as int) == row@.take(line_end(row@, is_tty)));
    }
    if is_tty && !cur.is_default() {
        push_reset(&mut line);
    }
    line
}

/// The text lines of a painted surface, one per row: on a terminal styled
/// with SGR sequences (colors quantized for `depth`), otherwise plain text
/// without escapes; each line stops after its last inked cell.
pub fn surface_lines(surface: &Surface, is_tty: bool, depth: ColorDepth) -> (lines: Vec<String>)
    requires
        surface.wf(),
    ensures
        lines@.len() == surface.height,
        forall|y: int| 0 <= y < surface.height ==> #[trigger] lines@[y]@ == row_line(row_of(*surface, y), is_tty, depth),
{
    let mut lines: Vec<String> = Vec::new();
    let mut y: u16 = 0;
    while y < surface.height
        invariant
            surface.wf(),
            y <= surface.height,
            lines@.len() == y,
            forall|k: int| 0 <= k < y ==> #[trigger] lines@[k]@ == row_line(row_of(*surface, k), is_tty, depth),
        decreases surface.height - y,
    {
        let row = row_cells(surface, y);
        let line = row_line_exec(&row, is_tty, depth);
        lines.push(line);
        y = y + 1;
    }
    lines
}


/// The height of a frame: the whole terminal in fullscreen mode; inline,
/// the content's height kept between one row and all rows but the last.
pub open spec fn frame_height_of(mode: RenderMode, term_rows: u16, content_height: u16) -> u16 {
    let max_inline: u16 = if term_rows >= 2 { (term_rows - 1) as u16 } else { 1 };
    match mode {
        RenderMode::Fullscreen => term_rows,
        RenderMode::Inline => if content_height < 1 { 1 } else if content_height > max_inline { max_inline } else { content_height },
    }
}

/// The cursor placement after a frame: at the requested cell, shown; or,
/// inline without a request, parked at column 0 of the region's last row,
/// hidden. Returns the compiler, the bytes, and the cursor then recorded
/// (`None`: unchanged).
pub open spec fn cursor_tail(c: AnsiCompiler, mode: RenderMode, h: u16, cursor: Option<(u16, u16)>,
    show: Option<Seq<u8>>, hide: Option<Seq<u8>>) -> (AnsiCompiler, Seq<u8>, Option<(u16, u16)>) {
    match cursor {
        Some((cx, cy)) => {
            let m = moved(c, cx, cy);
            (m.0, m.1 + (match show { Some(b) => b, None => Seq::empty() }), Some((cx, cy)))
        },
        None => match mode {
            RenderMode::Fullscreen => (c, match hide { Some(b) => b, None => Seq::empty() }, None),
            RenderMode::Inline => {
                let bottom: u16 = if h >= 1 { (h - 1) as u16 } else { 0 };
                let m = moved(c, 0, bottom);
                (m.0, m.1 + (match hide { Some(b) => b, None => Seq::empty() }), Some((0, bottom)))
            },
        },
    }
}

/// The bytes that set up the live region before an inline frame is
/// compiled: a fresh region (after a reset, `CR CSI J` first on a re-anchor)
/// is allocated row by row and rewound to its top; an existing one is
/// rewound from the cursor's row, and grown at the bottom when the frame is
/// taller.
pub open spec fn inline_prologue(r: Renderer, h: u16, full: bool, reanchor: bool) -> Seq<u8> {
    if full {
        (if reanchor { seq![13u8, 0x1bu8, 0x5bu8, 0x4au8] } else { Seq::empty() })
            + (if h > 1 { crlf_times((h - 1) as int) + csi((h - 1) as nat, 0x41u8) + seq![13u8] } else { seq![13u8] })
    } else {
        up_home(r.last_cursor_y)
            + (if h > r.live_region_height && r.live_region_height > 0 {
                (if r.live_region_height > 1 { csi((r.live_region_height - 1) as nat, 0x42u8) } else { Seq::empty() })
                    + crlf_times((h - r.live_region_height) as int) + csi((h - 1) as nat, 0x41u8) + seq![13u8]
            } else {
                Seq::empty()
            })
    }
}

impl Renderer {
    /// Whether a frame must be emitted: the diff is not empty, the region is
    /// new, or the cursor's requested visibility or place changed.
    pub fn frame_needed(&self, diff: &SurfaceDiff, cursor: Option<(u16, u16)>) -> (b: bool)
        ensures
            b == (diff.patches@.len() > 0 || diff.rows_to_clear > 0 || self.previous_surface is None
                || self.last_cursor_visible != Some(cursor is Some) || self.last_cursor_desired != cursor),
    {
        let visible_changed = match self.last_cursor_visible {
            Some(v) => v != cursor.is_some(),
            None => true,
        };
        let desired_changed = match (self.last_cursor_desired, cursor) {
            (Some((a, b)), Some((c, d))) => a != c || b != d,
            (None, None) => false,
            _ => true,
        };
        !diff.is_empty() || self.previous_surface.is_none() || visible_changed || desired_changed
    }

    /// The height of the next frame.
    pub fn frame_height(&self, term_rows: u16, content_height: u16) -> (h: u16)
        ensures
            h == frame_height_of(self.mode, term_rows, content_height),
    {
        let max_inline: u16 = if term_rows >= 2 { term_rows - 1 } else { 1 };
        match self.mode {
            RenderMode::Fullscreen => term_rows,
            RenderMode::Inline => if content_height < 1 {
                1
            } else if content_height > max_inline {
                max_inline
            } else {
                content_height
            },
        }
    }

    /// The bytes of one frame of height `h` drawing `diff`, as written
    /// inside the terminal transaction: fullscreen frames home the cursor
    /// and compile; inline frames set up the live region, compile, and
    /// place the cursor. `show` and `hide` are the cursor-visibility commands
    /// the session hands out, if any. The compiler's cursor and style, the
    /// recorded cursor and (inline) the region's height follow the frame.
    pub fn frame_bytes(&mut self, diff: &SurfaceDiff, h: u16, reanchor: bool, cursor: Option<(u16, u16)>,
        show: Option<&[u8]>, hide: Option<&[u8]>) -> (out: Vec<u8>)
        requires
            diff.next_height + diff.rows_to_clear <= u16::MAX,
        ensures
            ({
                let r0 = *old(self);
                let full = r0.previous_surface is None;
                let start = AnsiCompiler { cursor_x: 0, cursor_y: 0, ..r0.compiler };
                let pre = match r0.mode {
                    RenderMode::Fullscreen => seq![0x1bu8, 0x5bu8, 0x48u8],
                    RenderMode::Inline => inline_prologue(r0, h, full, reanchor),
                };
                let c = compiled(start, *diff);
                let t = cursor_tail(c.0, r0.mode, h, cursor,
                    match show { Some(b) => Some(b@), None => None }, match hide { Some(b) => Some(b@), None => None });
                &&& out@ == pre + c.1 + t.1
                &&& final(self).compiler == t.0
                &&& (final(self).last_cursor_x, final(self).last_cursor_y) == match t.2 {
                        Some(p) => p,
                        None => if r0.mode == RenderMode::Inline && full { (0u16, 0u16) } else { (r0.last_cursor_x, r0.last_cursor_y) },
                    }
                &&& final(self).live_region_height == (if r0.mode == RenderMode::Inline { h } else { r0.live_region_height })
                &&& final(self).mode == r0.mode
                &&& final(self).previous_surface == r0.previous_surface
                &&& final(self).anchor == r0.anchor
                &&& final(self).last_cursor_visible == r0.last_cursor_visible
                &&& final(self).last_cursor_desired == r0.last_cursor_desired
                &&& final(self).same_counters(&r0)
            }),
    {
        let ghost r0 = *self;
        let full = self.previous_surface.is_none();
        let mut out: Vec<u8> = Vec::new();
        match self.mode {
            RenderMode::Fullscreen => {
                out.push(0x1b);
                out.push(0x5b);
                out.push(0x48);
            },
            RenderMode::Inline => {
                self.push_inline_prologue(&mut out, h, full, reanchor);
            },
        }
        self.compiler.reset_cursor(0, 0);
        let ghost pre = out@;
        let bytes = self.compiler.compile(diff);
        crate::text::push_bytes(&mut out, bytes.as_slice());
        let ghost mid = out@;
        self.push_cursor_tail(&mut out, h, cursor, show, hide);
        match self.mode {
            RenderMode::Inline => {
                self.live_region_height = h;
            },
            RenderMode::Fullscreen => {},
        }
        out
    }

    /// Places the cursor after a frame's body (see `cursor_tail`).
    fn push_cursor_tail(&mut self, out: &mut Vec<u8>, h: u16, cursor: Option<(u16, u16)>, show: Option<&[u8]>, hide: Option<&[u8]>)
        ensures
            ({
                let t = cursor_tail(old(self).compiler, old(self).mode, h, cursor,
                    match show { Some(b) => Some(b@), None => None }, match hide { Some(b) => Some(b@), None => None });
                &&& final(out)@ == old(out)@ + t.1
                &&& final(self).compiler == t.0
                &&& (final(self).last_cursor_x, final(self).last_cursor_y) == match t.2 {
                        Some(p) => p,
                        None => (old(self).last_cursor_x, old(self).last_cursor_y),
                    }
            }),
            final(self).mode == old(self).mode,
            final(self).previous_surface == old(self).previous_surface,
            final(self).live_region_height == old(self).live_region_height,
            final(self).anchor == old(self).anchor,
            final(self).last_cursor_visible == old(self).last_cursor_visible,
            final(self).last_cursor_desired == old(self).last_cursor_desired,
            final(self).same_counters(old(self)),
    {
        match cursor {
            Some((cx, cy)) => {
                self.compiler.move_to(cx, cy, out);
                self.last_cursor_x = cx;
                self.last_cursor_y = cy;
                match show {
                    Some(b) => crate::text::push_bytes(out, b),
                    None => {},
                }
            },
            None => {
                match self.mode {
                    RenderMode::Fullscreen => {},
                    RenderMode::Inline => {
                        let bottom = if h >= 1 { h - 1 } else { 0 };
                        self.compiler.move_to(0, bottom, out);
                        self.last_cursor_x = 0;
                        self.last_cursor_y = bottom;
                    },
                }
                match hide {
                    Some(b) => crate::text::push_bytes(out, b),
                    None => {},
                }
            },
        }
        proof {
            let t = cursor_tail(old(self).compiler, old(self).mode, h, cursor,
                match show { Some(b) => Some(b@), None => None }, match hide { Some(b) => Some(b@), None => None });
            assert(final(out)@ =~= old(out)@ + t.1);
        }
    }

    /// Writes the live-region setup of an inline frame.
    #[verifier::spinoff_prover]
    #[verifier::rlimit(40)]
    fn push_inline_prologue(&mut self, out: &mut Vec<u8>, h: u16, full: bool, reanchor: bool)
        ensures
            final(out)@ == old(out)@ + inline_prologue(*old(self), h, full, reanchor),
            full ==> final(self).last_cursor_x == 0 && final(self).last_cursor_y == 0,
            !full ==> final(self).last_cursor_x == old(self).last_cursor_x && final(self).last_cursor_y == old(self).last_cursor_y,
            final(self).compiler.current_style == old(self).compiler.current_style,
            final(self).compiler.sync_updates == old(self).compiler.sync_updates,
            final(self).mode == old(self).mode,
            final(self).previous_surface == old(self).previous_surface,
            final(self).live_region_height == old(self).live_region_height,
            final(self).anchor == old(self).anchor,
            final(self).last_cursor_visible == old(self).last_cursor_visible,
            final(self).last_cursor_desired == old(self).last_cursor_desired,
            final(self).same_counters(old(self)),
    {
        if full {
            if reanchor {
                out.push(13);
                out.push(0x1b);
                out.push(0x5b);
                out.push(0x4a);
            }
            if h > 1 {
                let ghost a = out@;
                let mut i: u16 = 0;
                while i < h - 1
                    invariant
                        h > 1,
                        i <= h - 1,
                        out@ == a + crlf_times(i as int),
                    decreases h - 1 - i,
                {
                    out.push(13);
                    out.push(10);
                    proof {
                        assert(out@ =~= a + crlf_times(i as int + 1));
                    }
                    i = i + 1;
                }
                push_csi_bytes(out, (h - 1) as u32, 0x41);
                out.push(13);
            } else {
                out.push(13);
            }
            self.last_cursor_y = 0;
            self.last_cursor_x = 0;
        } else {
            push_up_home(out, self.last_cursor_y);
            let live = self.live_region_height;
            if h > live && live > 0 {
                if live > 1 {
                    push_csi_bytes(out, (live - 1) as u32, 0x42);
                }
                let ghost a = out@;
                let extra = h - live;
                let mut i: u16 = 0;
                while i < extra
                    invariant
                        i <= extra,
                        out@ == a + crlf_times(i as int),
                    decreases extra - i,
                {
                    out.push(13);
                    out.push(10);
                    proof {
                        assert(out@ =~= a + crlf_times(i as int + 1));
                    }
                    i = i + 1;
                }
                push_csi_bytes(out, (h - 1) as u32, 0x41);
                out.push(13);
            }
        }
        proof {
            assert(final(out)@ =~= old(out)@ + inline_prologue(*old(self), h, full, reanchor));
        }
    }

    /// The byte counters and insertion bookkeeping.
    pub open spec fn same_counters(&self, other: &Renderer) -> bool {
        &&& self.total_frame_bytes == other.total_frame_bytes
        &&& self.total_commit_bytes == other.total_commit_bytes
        &&& self.total_insertion_bytes == other.total_insertion_bytes
        &&& self.total_control_bytes == other.total_control_bytes
        &&& self.anchor_resyncs == other.anchor_resyncs
        &&& self.history_insertions == other.history_insertions
        &&& self.fast_insertions == other.fast_insertions
        &&& self.fallback_insertions == other.fallback_insertions
        &&& self.last_insert_strategy == other.last_insert_strategy
        &&& self.last_terminal_size == other.last_terminal_size
    }

    /// Books a frame that was written: `next` becomes the previous surface,
    /// the cursor request and its visibility are remembered, the anchor is
    /// stable at this geometry and region height, and `bytes` count as frame
    /// bytes.
    pub fn record_frame(&mut self, next: Surface, cursor: Option<(u16, u16)>, cols: u16, rows: u16, h: u16, bytes: usize)
        requires
            old(self).total_frame_bytes + bytes <= u64::MAX,
        ensures
            final(self).previous_surface == Some(next),
            final(self).last_cursor_visible == Some(cursor is Some),
            final(self).last_cursor_desired == cursor,
            final(self).anchor == (AnchorState::Stable { cols, rows, live_height: h }),
            final(self).total_frame_bytes == old(self).total_frame_bytes + bytes,
            final(self).live_region_height == old(self).live_region_height,
            final(self).compiler == old(self).compiler,
    {
        self.previous_surface = Some(next);
        self.last_cursor_visible = Some(cursor.is_some());
        self.last_cursor_desired = cursor;
        self.anchor = AnchorState::Stable { cols, rows, live_height: h };
        self.total_frame_bytes = self.total_frame_bytes + bytes as u64;
    }
}


impl Renderer {
    /// Mirrors the renderer's operation counters into frame statistics:
    /// resyncs, insertions (fast and repainted), and the bytes of
    /// insertions, commits and control sequences.
    pub fn mirror_counters(&self, stats: &mut crate::scheduler::RenderStats)
        ensures
            *final(stats) == (crate::scheduler::RenderStats {
                anchor_resyncs: self.anchor_resyncs,
                history_insertions: self.history_insertions,
                fast_insertions: self.fast_insertions,
                insertion_repaints: self.fallback_insertions,
                insertion_bytes: self.total_insertion_bytes,
                commit_bytes: self.total_commit_bytes,
                control_bytes: self.total_control_bytes,
                ..*old(stats)
            }),
    {
        stats.anchor_resyncs = self.anchor_resyncs;
        stats.history_insertions = self.history_insertions;
        stats.fast_insertions = self.fast_insertions;
        stats.insertion_repaints = self.fallback_insertions;
        stats.insertion_bytes = self.total_insertion_bytes;
        stats.commit_bytes = self.total_commit_bytes;
        stats.control_bytes = self.total_control_bytes;
    }
}


impl Renderer {
    /// The bytes of the always-correct insertion of `lines` above the live
    /// region: erase from the region's top down, write the lines, then
    /// repaint the previous frame from scratch and restore the cursor (shown
    /// where it was when it was visible, else hidden at the region's last
    /// row). The previous frame is kept, so the next diff is empty.
    #[verifier::rlimit(40)]
    pub fn fallback_insert_bytes(&mut self, lines: &[&str], show: Option<&[u8]>, hide: Option<&[u8]>) -> (out: Vec<u8>)
        requires
            old(self).previous_surface matches Some(p) ==> p.wf(),
        ensures
            ({
                let r0 = *old(self);
                let head = (if r0.live_region_height > 0 { up_home(r0.last_cursor_y) + seq![0x1bu8, 0x5bu8, 0x4au8] } else { Seq::empty() })
                    + lines_crlf(texts(lines@));
                match r0.previous_surface {
                    None => out@ == head && final(self).compiler == r0.compiler,
                    Some(prev) => exists|d: SurfaceDiff| {
                        &&& #[trigger] d.patches_view() == patches_upto(None, prev, prev.height as int)
                        &&& d.next_height == prev.height && d.rows_to_clear == 0
                        &&& ({
                            let c = compiled(AnsiCompiler { cursor_x: 0, cursor_y: 0, ..r0.compiler }, d);
                            let t = if r0.last_cursor_visible == Some(true) {
                                let m = moved(c.0, r0.last_cursor_x, r0.last_cursor_y);
                                (m.0, m.1 + (match show { Some(b) => b@, None => Seq::empty() }))
                            } else {
                                let bottom: u16 = if prev.height >= 1 { (prev.height - 1) as u16 } else { 0 };
                                let m = moved(c.0, 0, bottom);
                                (m.0, m.1 + (match hide { Some(b) => b@, None => Seq::empty() }))
                            };
                            &&& out@ == head + c.1 + t.1
                            &&& final(self).compiler == t.0
                        })
                    },
                }
            }),
            final(self).previous_surface == old(self).previous_surface,
            final(self).live_region_height == old(self).live_region_height,
            final(self).last_cursor_x == old(self).last_cursor_x,
            final(self).last_cursor_y == old(self).last_cursor_y,
            final(self).anchor == old(self).anchor,
            final(self).same_counters(old(self)),
    {
        let mut out: Vec<u8> = Vec::new();
        if self.live_region_height > 0 {
            push_up_home(&mut out, self.last_cursor_y);
            out.push(0x1b);
            out.push(0x5b);
            out.push(0x4a);
        }
        push_lines_crlf(&mut out, lines);
        let ghost head = out@;
        proof {
            assert(head =~= (if old(self).live_region_height > 0 { up_home(old(self).last_cursor_y) + seq![0x1bu8, 0x5bu8, 0x4au8] } else { Seq::empty() })
                + lines_crlf(texts(lines@)));
        }
        match &self.previous_surface {
            Some(prev) => {
                let diff = compute_diff(None, prev);
                self.compiler.reset_cursor(0, 0);
                let bytes = self.compiler.compile(&diff);
                crate::text::push_bytes(&mut out, bytes.as_slice());
                if self.last_cursor_visible == Some(true) {
                    let (x, y) = (self.last_cursor_x, self.last_cursor_y);
                    self.compiler.move_to(x, y, &mut out);
                    match show {
                        Some(b) => crate::text::push_bytes(&mut out, b),
                        None => {},
                    }
                } else {
                    let bottom = if prev.height >= 1 { prev.height - 1 } else { 0 };
                    self.compiler.move_to(0, bottom, &mut out);
                    match hide {
                        Some(b) => crate::text::push_bytes(&mut out, b),
                        None => {},
                    }
                }
                proof {
                    assert(diff.patches_view() == patches_upto(None, *prev, prev.height as int));
                }
            },
            None => {},
        }
        out
    }
}

} // verus!
