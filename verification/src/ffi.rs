//! The plain-data side of the C interface: status codes, color and style
//! descriptors validated on entry, and the statistics snapshot.
use crate::cell::{Color, Style, TextAlign};
use crate::text::{decimal, push_char, push_decimal};
use crate::node::WrapMode;
use crate::renderer::RenderMode;
use crate::scheduler::RenderStats;
use vstd::prelude::*;

verus! {

/// Version of the C structure layouts.
pub const GIBSON_ABI_VERSION: u32 = 1;

/// Size in bytes of the C statistics structure: two `u32` and fourteen `u64`
/// fields, without padding.
pub const GIBSON_STATS_SIZE: u32 = 120;

pub const GIBSON_MODE_INLINE: i32 = 0;
pub const GIBSON_MODE_FULLSCREEN: i32 = 1;

pub const GIBSON_WRAP_NONE: i32 = 0;
pub const GIBSON_WRAP_CHAR: i32 = 1;
pub const GIBSON_WRAP_WORD: i32 = 2;

pub const GIBSON_ALIGN_LEFT: i32 = 0;
pub const GIBSON_ALIGN_CENTER: i32 = 1;
pub const GIBSON_ALIGN_RIGHT: i32 = 2;

pub const GIBSON_COLOR_RESET: i32 = 0;
pub const GIBSON_COLOR_BLACK: i32 = 1;
pub const GIBSON_COLOR_RED: i32 = 2;
pub const GIBSON_COLOR_GREEN: i32 = 3;
pub const GIBSON_COLOR_YELLOW: i32 = 4;
pub const GIBSON_COLOR_BLUE: i32 = 5;
pub const GIBSON_COLOR_MAGENTA: i32 = 6;
pub const GIBSON_COLOR_CYAN: i32 = 7;
pub const GIBSON_COLOR_WHITE: i32 = 8;
pub const GIBSON_COLOR_BRIGHT_BLACK: i32 = 9;
pub const GIBSON_COLOR_BRIGHT_RED: i32 = 10;
pub const GIBSON_COLOR_BRIGHT_GREEN: i32 = 11;
pub const GIBSON_COLOR_BRIGHT_YELLOW: i32 = 12;
pub const GIBSON_COLOR_BRIGHT_BLUE: i32 = 13;
pub const GIBSON_COLOR_BRIGHT_MAGENTA: i32 = 14;
pub const GIBSON_COLOR_BRIGHT_CYAN: i32 = 15;
pub const GIBSON_COLOR_BRIGHT_WHITE: i32 = 16;
pub const GIBSON_COLOR_ANSI256: i32 = 17;
pub const GIBSON_COLOR_RGB: i32 = 18;

/// Result status of a C entry point.
#[derive(Debug, Clone, Copy, PartialEq, Eq, Structural)]
pub enum GibsonStatus {
    Success,
    ErrInvalidParam,
    ErrIo,
    ErrPanic,
    ErrNotInitialized,
}

impl GibsonStatus {
    /// The C value of the status: 0 for success, negative for errors.
    pub fn code(self) -> (c: i32)
        ensures
            c == match self {
                GibsonStatus::Success => 0int,
                GibsonStatus::ErrInvalidParam => -1,
                GibsonStatus::ErrIo => -2,
                GibsonStatus::ErrPanic => -3,
                GibsonStatus::ErrNotInitialized => -4,
            },
    {
        match self {
            GibsonStatus::Success => 0,
            GibsonStatus::ErrInvalidParam => -1,
            GibsonStatus::ErrIo => -2,
            GibsonStatus::ErrPanic => -3,
            GibsonStatus::ErrNotInitialized => -4,
        }
    }
}

/// A color descriptor from C; `color_type` is one of the `GIBSON_COLOR_*`
/// values, `r` doubles as the 256-color index.
#[derive(Debug, Clone, Copy, PartialEq, Eq, Structural)]
pub struct GibsonColor {
    pub color_type: i32,
    pub r: u8,
    pub g: u8,
    pub b: u8,
    pub _pad: u8,
}

impl Default for GibsonColor {
    fn default() -> (c: Self)
        ensures
            c == (GibsonColor { color_type: GIBSON_COLOR_RESET, r: 0, g: 0, b: 0, _pad: 0 }),
    {
        GibsonColor { color_type: GIBSON_COLOR_RESET, r: 0, g: 0, b: 0, _pad: 0 }
    }
}

/// The color a descriptor stands for: `None` for reset (the terminal's own
/// color), a named, 256-color or RGB color otherwise; `Err` for a type
/// outside `0..=18`.
pub open spec fn ffi_color(c: GibsonColor) -> Option<Option<Color>> {
    let t = c.color_type;
    if t == 0 { Some(None) }
    else if t == 1 { Some(Some(Color::Black)) }
    else if t == 2 { Some(Some(Color::Red)) }
    else if t == 3 { Some(Some(Color::Green)) }
    else if t == 4 { Some(Some(Color::Yellow)) }
    else if t == 5 { Some(Some(Color::Blue)) }
    else if t == 6 { Some(Some(Color::Magenta)) }
    else if t == 7 { Some(Some(Color::Cyan)) }
    else if t == 8 { Some(Some(Color::White)) }
    else if t == 9 { Some(Some(Color::BrightBlack)) }
    else if t == 10 { Some(Some(Color::BrightRed)) }
    else if t == 11 { Some(Some(Color::BrightGreen)) }
    else if t == 12 { Some(Some(Color::BrightYellow)) }
    else if t == 13 { Some(Some(Color::BrightBlue)) }
    else if t == 14 { Some(Some(Color::BrightMagenta)) }
    else if t == 15 { Some(Some(Color::BrightCyan)) }
    else if t == 16 { Some(Some(Color::BrightWhite)) }
    else if t == 17 { Some(Some(Color::Ansi256(c.r))) }
    else if t == 18 { Some(Some(Color::Rgb(c.r, c.g, c.b))) }
    else { None }
}

/// Validates a color from C: `Err(ErrInvalidParam)` exactly for an unknown
/// color type (the C layer then records `invalid_color_message` as the
/// last error).
pub fn color_from_ffi(c: &GibsonColor) -> (r: Result<Option<Color>, GibsonStatus>)
    ensures
        match ffi_color(*c) {
            Some(v) => r == Ok::<Option<Color>, GibsonStatus>(v),
            None => r == Err::<Option<Color>, GibsonStatus>(GibsonStatus::ErrInvalidParam),
        },
{
    let t = c.color_type;
    if t == GIBSON_COLOR_RESET { Ok(None) }
    else if t == GIBSON_COLOR_BLACK { Ok(Some(Color::Black)) }
    else if t == GIBSON_COLOR_RED { Ok(Some(Color::Red)) }
    else if t == GIBSON_COLOR_GREEN { Ok(Some(Color::Green)) }
    else if t == GIBSON_COLOR_YELLOW { Ok(Some(Color::Yellow)) }
    else if t == GIBSON_COLOR_BLUE { Ok(Some(Color::Blue)) }
    else if t == GIBSON_COLOR_MAGENTA { Ok(Some(Color::Magenta)) }
    else if t == GIBSON_COLOR_CYAN { Ok(Some(Color::Cyan)) }
    else if t == GIBSON_COLOR_WHITE { Ok(Some(Color::White)) }
    else if t == GIBSON_COLOR_BRIGHT_BLACK { Ok(Some(Color::BrightBlack)) }
    else if t == GIBSON_COLOR_BRIGHT_RED { Ok(Some(Color::BrightRed)) }
    else if t == GIBSON_COLOR_BRIGHT_GREEN { Ok(Some(Color::BrightGreen)) }
    else if t == GIBSON_COLOR_BRIGHT_YELLOW { Ok(Some(Color::BrightYellow)) }
    else if t == GIBSON_COLOR_BRIGHT_BLUE { Ok(Some(Color::BrightBlue)) }
    else if t == GIBSON_COLOR_BRIGHT_MAGENTA { Ok(Some(Color::BrightMagenta)) }
    else if t == GIBSON_COLOR_BRIGHT_CYAN { Ok(Some(Color::BrightCyan)) }
    else if t == GIBSON_COLOR_BRIGHT_WHITE { Ok(Some(Color::BrightWhite)) }
    else if t == GIBSON_COLOR_ANSI256 { Ok(Some(Color::Ansi256(c.r))) }
    else if t == GIBSON_COLOR_RGB { Ok(Some(Color::Rgb(c.r, c.g, c.b))) }
    else { Err(GibsonStatus::ErrInvalidParam) }
}

/// An integer in decimal, with a leading `-` when negative.
pub open spec fn signed_decimal(n: int) -> Seq<char> {
    if n < 0 { seq!['-'] + decimal((-n) as nat) } else { decimal(n as nat) }
}

/// The last-error message recorded for a color descriptor whose type is
/// unknown: `Invalid color type: N`.
pub fn invalid_color_message(color_type: i32) -> (m: String)
    ensures
        m@ == "Invalid color type: "@ + signed_decimal(color_type as int),
{
    let mut m = String::new();
    m.append("Invalid color type: ");
    let ghost head = m@;
    if color_type < 0 {
        push_char(&mut m, '-');
        let mag: u64 = (0 - (color_type as i64)) as u64;
        push_decimal(&mut m, mag);
    } else {
        push_decimal(&mut m, color_type as u64);
    }
    proof {
        assert(m@ =~= head + signed_decimal(color_type as int));
    }
    m
}

/// A style descriptor from C; attribute bytes are true when non-zero.
#[derive(Debug, Clone, Copy, PartialEq, Eq)]
pub struct GibsonStyle {
    pub fg: GibsonColor,
    pub bg: GibsonColor,
    pub bold: u8,
    pub dim: u8,
    pub italic: u8,
    pub underline: u8,
    pub reverse: u8,
    pub _reserved: [u8; 3],
}

/// Validates a style from C: `Err(ErrInvalidParam)` exactly when one of its
/// colors is invalid.
pub fn style_from_ffi(s: &GibsonStyle) -> (r: Result<Style, GibsonStatus>)
    ensures
        match (ffi_color(s.fg), ffi_color(s.bg)) {
            (Some(fg), Some(bg)) => r == Ok::<Style, GibsonStatus>(Style {
                fg,
                bg,
                bold: s.bold != 0,
                dim: s.dim != 0,
                italic: s.italic != 0,
                underline: s.underline != 0,
                reverse: s.reverse != 0,
            }),
            _ => r == Err::<Style, GibsonStatus>(GibsonStatus::ErrInvalidParam),
        },
{
    let fg = match color_from_ffi(&s.fg) {
        Ok(c) => c,
        Err(e) => return Err(e),
    };
    let bg = match color_from_ffi(&s.bg) {
        Ok(c) => c,
        Err(e) => return Err(e),
    };
    Ok(Style {
        fg,
        bg,
        bold: s.bold != 0,
        dim: s.dim != 0,
        italic: s.italic != 0,
        underline: s.underline != 0,
        reverse: s.reverse != 0,
    })
}

/// A versioned statistics snapshot for C callers.
#[derive(Debug, Clone, Copy, PartialEq, Eq, Structural)]
pub struct GibsonStats {
    pub struct_size: u32,
    pub abi_version: u32,
    pub frames: u64,
    pub skipped_frames: u64,
    pub dirty_cells: u64,
    pub total_cells: u64,
    pub frame_bytes: u64,
    pub full_repaints: u64,
    pub last_render_duration_micros: u64,
    pub history_insertions: u64,
    pub insertion_repaints: u64,
    pub fast_insertions: u64,
    pub insertion_bytes: u64,
    pub anchor_resyncs: u64,
    pub commit_bytes: u64,
    pub control_bytes: u64,
}

impl GibsonStats {
    /// The snapshot of `s`: every counter copied, stamped with the structure
    /// size and ABI version.
    pub fn from_render_stats(s: &RenderStats) -> (g: Self)
        ensures
            g == (GibsonStats {
                struct_size: GIBSON_STATS_SIZE,
                abi_version: GIBSON_ABI_VERSION,
                frames: s.frames,
                skipped_frames: s.skipped_frames,
                dirty_cells: s.dirty_cells,
                total_cells: s.total_cells,
                frame_bytes: s.frame_bytes,
                full_repaints: s.full_repaints,
                last_render_duration_micros: s.last_render_duration_micros,
                history_insertions: s.history_insertions,
                insertion_repaints: s.insertion_repaints,
                fast_insertions: s.fast_insertions,
                insertion_bytes: s.insertion_bytes,
                anchor_resyncs: s.anchor_resyncs,
                commit_bytes: s.commit_bytes,
                control_bytes: s.control_bytes,
            }),
    {
        GibsonStats {
            struct_size: GIBSON_STATS_SIZE,
            abi_version: GIBSON_ABI_VERSION,
            frames: s.frames,
            skipped_frames: s.skipped_frames,
            dirty_cells: s.dirty_cells,
            total_cells: s.total_cells,
            frame_bytes: s.frame_bytes,
            full_repaints: s.full_repaints,
            last_render_duration_micros: s.last_render_duration_micros,
            history_insertions: s.history_insertions,
            insertion_repaints: s.insertion_repaints,
            fast_insertions: s.fast_insertions,
            insertion_bytes: s.insertion_bytes,
            anchor_resyncs: s.anchor_resyncs,
            commit_bytes: s.commit_bytes,
            control_bytes: s.control_bytes,
        }
    }
}


/// Validates a render mode from C: `Err(ErrInvalidParam)` for anything but
/// inline (0) and fullscreen (1).
pub fn validate_mode(mode: i32) -> (r: Result<RenderMode, GibsonStatus>)
    ensures
        r == (if mode == 0 {
            Ok::<RenderMode, GibsonStatus>(RenderMode::Inline)
        } else if mode == 1 {
            Ok(RenderMode::Fullscreen)
        } else {
            Err(GibsonStatus::ErrInvalidParam)
        }),
{
    if mode == GIBSON_MODE_INLINE {
        Ok(RenderMode::Inline)
    } else if mode == GIBSON_MODE_FULLSCREEN {
        Ok(RenderMode::Fullscreen)
    } else {
        Err(GibsonStatus::ErrInvalidParam)
    }
}

/// Validates a wrap mode from C: none (0), by character (1) or by word (2).
pub fn validate_wrap(w: i32) -> (r: Result<WrapMode, GibsonStatus>)
    ensures
        r == (if w == 0 {
            Ok::<WrapMode, GibsonStatus>(WrapMode::NoWrap)
        } else if w == 1 {
            Ok(WrapMode::CharWrap)
        } else if w == 2 {
            Ok(WrapMode::WordWrap)
        } else {
            Err(GibsonStatus::ErrInvalidParam)
        }),
{
    if w == GIBSON_WRAP_NONE {
        Ok(WrapMode::NoWrap)
    } else if w == GIBSON_WRAP_CHAR {
        Ok(WrapMode::CharWrap)
    } else if w == GIBSON_WRAP_WORD {
        Ok(WrapMode::WordWrap)
    } else {
        Err(GibsonStatus::ErrInvalidParam)
    }
}

/// Validates a text alignment from C: left (0), center (1) or right (2).
pub fn validate_align(a: i32) -> (r: Result<TextAlign, GibsonStatus>)
    ensures
        r == (if a == 0 {
            Ok::<TextAlign, GibsonStatus>(TextAlign::Left)
        } else if a == 1 {
            Ok(TextAlign::Center)
        } else if a == 2 {
            Ok(TextAlign::Right)
        } else {
            Err(GibsonStatus::ErrInvalidParam)
        }),
{
    if a == GIBSON_ALIGN_LEFT {
        Ok(TextAlign::Left)
    } else if a == GIBSON_ALIGN_CENTER {
        Ok(TextAlign::Center)
    } else if a == GIBSON_ALIGN_RIGHT {
        Ok(TextAlign::Right)
    } else {
        Err(GibsonStatus::ErrInvalidParam)
    }
}

} // verus!
