//! Colors, styles, themes, glyphs and the logical terminal cell.
use crate::text::{
    chars_of, append_joined, decimal, display_width_of, join_semicolon, push_char, push_decimal, str_width,
};
use vstd::prelude::*;

verus! {

/// Terminal color representations.
#[derive(Debug, Clone, Copy, PartialEq, Eq, Structural, Hash, Default)]
pub enum Color {
    #[default]
    Reset,
    Black,
    Red,
    Green,
    Yellow,
    Blue,
    Magenta,
    Cyan,
    White,
    BrightBlack,
    BrightRed,
    BrightGreen,
    BrightYellow,
    BrightBlue,
    BrightMagenta,
    BrightCyan,
    BrightWhite,
    Ansi256(u8),
    Rgb(u8, u8, u8),
}

/// The 16 base colors in palette order (index 0 = black, 15 = bright white).
pub open spec fn base16_color(i: int) -> Color {
    if i == 0 { Color::Black }
    else if i == 1 { Color::Red }
    else if i == 2 { Color::Green }
    else if i == 3 { Color::Yellow }
    else if i == 4 { Color::Blue }
    else if i == 5 { Color::Magenta }
    else if i == 6 { Color::Cyan }
    else if i == 7 { Color::White }
    else if i == 8 { Color::BrightBlack }
    else if i == 9 { Color::BrightRed }
    else if i == 10 { Color::BrightGreen }
    else if i == 11 { Color::BrightYellow }
    else if i == 12 { Color::BrightBlue }
    else if i == 13 { Color::BrightMagenta }
    else if i == 14 { Color::BrightCyan }
    else { Color::BrightWhite }
}

/// The xterm-like RGB value of the 16 base colors, by palette index.
pub open spec fn base16_rgb(i: int) -> (u8, u8, u8) {
    if i == 0 { (0, 0, 0) }
    else if i == 1 { (205, 49, 49) }
    else if i == 2 { (13, 188, 121) }
    else if i == 3 { (229, 229, 16) }
    else if i == 4 { (36, 114, 200) }
    else if i == 5 { (188, 63, 188) }
    else if i == 6 { (17, 168, 205) }
    else if i == 7 { (229, 229, 229) }
    else if i == 8 { (102, 102, 102) }
    else if i == 9 { (241, 76, 76) }
    else if i == 10 { (35, 209, 139) }
    else if i == 11 { (245, 245, 67) }
    else if i == 12 { (59, 142, 234) }
    else if i == 13 { (214, 112, 214) }
    else if i == 14 { (41, 184, 219) }
    else { (255, 255, 255) }
}

/// Channel level of the 6x6x6 xterm color cube for a coordinate `v` in `0..6`.
pub open spec fn cube_level(v: int) -> int {
    if v == 0 { 0 } else { 55 + 40 * v }
}

/// The RGB triple the xterm 256-color palette assigns to index `n`: the base
/// colors, then the 6x6x6 cube, then a 24-step gray ramp.
pub open spec fn xterm_rgb_of(n: u8) -> (u8, u8, u8) {
    if n < 16 {
        base16_rgb(n as int)
    } else if n < 232 {
        let k = n - 16;
        (cube_level(k / 36) as u8, cube_level((k % 36) / 6) as u8, cube_level(k % 6) as u8)
    } else {
        let v = 8 + 10 * (n - 232);
        (v as u8, v as u8, v as u8)
    }
}

/// Palette index of a base color, if it is one of the 16 base colors.
pub open spec fn base16_index(c: Color) -> Option<int> {
    match c {
        Color::Black => Some(0),
        Color::Red => Some(1),
        Color::Green => Some(2),
        Color::Yellow => Some(3),
        Color::Blue => Some(4),
        Color::Magenta => Some(5),
        Color::Cyan => Some(6),
        Color::White => Some(7),
        Color::BrightBlack => Some(8),
        Color::BrightRed => Some(9),
        Color::BrightGreen => Some(10),
        Color::BrightYellow => Some(11),
        Color::BrightBlue => Some(12),
        Color::BrightMagenta => Some(13),
        Color::BrightCyan => Some(14),
        Color::BrightWhite => Some(15),
        _ => None,
    }
}

/// Approximate RGB of a color; `Reset` is approximated as `(204, 204, 204)`.
pub open spec fn color_rgb(c: Color) -> (u8, u8, u8) {
    match c {
        Color::Reset => (204, 204, 204),
        Color::Ansi256(n) => xterm_rgb_of(n),
        Color::Rgb(r, g, b) => (r, g, b),
        _ => base16_rgb(base16_index(c).unwrap()),
    }
}

/// RGB of a base color by palette index.
fn base16_rgb_exec(i: u8) -> (rgb: (u8, u8, u8))
    requires
        i < 16,
    ensures
        rgb == base16_rgb(i as int),
{
    match i {
        0 => (0, 0, 0),
        1 => (205, 49, 49),
        2 => (13, 188, 121),
        3 => (229, 229, 16),
        4 => (36, 114, 200),
        5 => (188, 63, 188),
        6 => (17, 168, 205),
        7 => (229, 229, 229),
        8 => (102, 102, 102),
        9 => (241, 76, 76),
        10 => (35, 209, 139),
        11 => (245, 245, 67),
        12 => (59, 142, 234),
        13 => (214, 112, 214),
        14 => (41, 184, 219),
        _ => (255, 255, 255),
    }
}

/// Maps an xterm-256 index to an approximate RGB triple.
pub fn xterm_rgb(n: u8) -> (rgb: (u8, u8, u8))
    ensures
        rgb == xterm_rgb_of(n),
{
    if n < 16 {
        base16_rgb_exec(n)
    } else if n < 232 {
        let k: u8 = n - 16;
        let r: u8 = k / 36;
        let g: u8 = (k % 36) / 6;
        let b: u8 = k % 6;
        let r2: u8 = if r == 0 { 0 } else { 55 + 40 * r };
        let g2: u8 = if g == 0 { 0 } else { 55 + 40 * g };
        let b2: u8 = if b == 0 { 0 } else { 55 + 40 * b };
        (r2, g2, b2)
    } else {
        let v: u8 = 8 + 10 * (n - 232);
        (v, v, v)
    }
}

impl Color {
    pub fn rgb(r: u8, g: u8, b: u8) -> (c: Self)
        ensures
            c == Color::Rgb(r, g, b),
    {
        Color::Rgb(r, g, b)
    }

    pub fn ansi(n: u8) -> (c: Self)
        ensures
            c == Color::Ansi256(n),
    {
        Color::Ansi256(n)
    }

    /// Approximate RGB triple for this color. 16-color and 256-color values are
    /// mapped onto the xterm palette; `Reset` is approximated as `(204, 204, 204)`.
    pub fn to_rgb(self) -> (rgb: (u8, u8, u8))
        ensures
            rgb == color_rgb(self),
    {
        match self {
            Color::Reset => (204, 204, 204),
            Color::Black => (0, 0, 0),
            Color::Red => (205, 49, 49),
            Color::Green => (13, 188, 121),
            Color::Yellow => (229, 229, 16),
            Color::Blue => (36, 114, 200),
            Color::Magenta => (188, 63, 188),
            Color::Cyan => (17, 168, 205),
            Color::White => (229, 229, 229),
            Color::BrightBlack => (102, 102, 102),
            Color::BrightRed => (241, 76, 76),
            Color::BrightGreen => (35, 209, 139),
            Color::BrightYellow => (245, 245, 67),
            Color::BrightBlue => (59, 142, 234),
            Color::BrightMagenta => (214, 112, 214),
            Color::BrightCyan => (41, 184, 219),
            Color::BrightWhite => (255, 255, 255),
            Color::Ansi256(n) => xterm_rgb(n),
            Color::Rgb(r, g, b) => (r, g, b),
        }
    }

    /// RGB triple, or `None` for `Reset` ("terminal default"), which has no
    /// defined numeric value.
    pub fn resolve_rgb(self) -> (rgb: Option<(u8, u8, u8)>)
        ensures
            rgb == (if self == Color::Reset { None } else { Some(color_rgb(self)) }),
    {
        if self == Color::Reset {
            None
        } else {
            Some(self.to_rgb())
        }
    }
}


/// Text styling attributes.
#[derive(Debug, Clone, Copy, PartialEq, Eq, Structural, Hash, Default)]
pub struct Style {
    pub fg: Option<Color>,
    pub bg: Option<Color>,
    pub bold: bool,
    pub dim: bool,
    pub italic: bool,
    pub underline: bool,
    pub reverse: bool,
}

/// The style with no colors and no attributes.
pub open spec fn plain_style() -> Style {
    Style { fg: None, bg: None, bold: false, dim: false, italic: false, underline: false, reverse: false }
}

/// Explicit colors of the overlay win; boolean attributes are OR-ed.
pub open spec fn overlay_style(base: Style, over: Style) -> Style {
    Style {
        fg: if over.fg is Some { over.fg } else { base.fg },
        bg: if over.bg is Some { over.bg } else { base.bg },
        bold: base.bold || over.bold,
        dim: base.dim || over.dim,
        italic: base.italic || over.italic,
        underline: base.underline || over.underline,
        reverse: base.reverse || over.reverse,
    }
}

/// SGR number of a named color: `30..=37`/`90..=97` (foreground) or
/// `40..=47`/`100..=107` (background); `39`/`49` for `Reset`.
pub open spec fn named_color_code(c: Color, is_fg: bool) -> nat
    recommends
        !(c is Ansi256) && !(c is Rgb),
{
    let base: nat = match c {
        Color::Reset => 39,
        _ => {
            let i = base16_index(c).unwrap();
            if i < 8 { (30 + i) as nat } else { (90 + (i - 8)) as nat }
        },
    };
    if is_fg { base } else { base + 10 }
}

/// The SGR parameter string selecting `c` as foreground (`is_fg`) or background.
pub open spec fn color_code(c: Color, is_fg: bool) -> Seq<char> {
    let lead: Seq<char> = if is_fg { seq!['3', '8', ';'] } else { seq!['4', '8', ';'] };
    match c {
        Color::Ansi256(n) => lead + seq!['5', ';'] + decimal(n as nat),
        Color::Rgb(r, g, b) => lead + seq!['2', ';'] + decimal(r as nat) + seq![';'] + decimal(g as nat) + seq![';'] + decimal(b as nat),
        _ => decimal(named_color_code(c, is_fg)),
    }
}

/// `[code]` when `flag` holds, else nothing.
pub open spec fn code_if(flag: bool, code: Seq<char>) -> Seq<Seq<char>> {
    if flag { seq![code] } else { Seq::empty() }
}

/// The SGR parameters of a style: attributes in the order bold, dim, italic,
/// underline, reverse, then the foreground and the background color.
pub open spec fn sgr_codes(s: Style) -> Seq<Seq<char>> {
    code_if(s.bold, seq!['1']) + code_if(s.dim, seq!['2']) + code_if(s.italic, seq!['3'])
        + code_if(s.underline, seq!['4']) + code_if(s.reverse, seq!['7'])
        + (match s.fg { Some(c) => seq![color_code(c, true)], None => Seq::empty() })
        + (match s.bg { Some(c) => seq![color_code(c, false)], None => Seq::empty() })
}

/// `ESC [ 0 m`, the SGR reset.
pub open spec fn sgr_reset() -> Seq<char> {
    seq!['\x1b', '[', '0', 'm']
}

/// The complete SGR sequence of a style: the reset for the default style,
/// otherwise `ESC [` + parameters joined by `;` + `m`.
pub open spec fn sgr_of(s: Style) -> Seq<char> {
    if s == plain_style() {
        sgr_reset()
    } else {
        seq!['\x1b', '['] + join_semicolon(sgr_codes(s)) + seq!['m']
    }
}

/// Builds the SGR parameter string for `c` as foreground or background.
pub fn color_code_string(c: Color, is_fg: bool) -> (out: String)
    ensures
        out@ == color_code(c, is_fg),
{
    let mut out = String::new();
    match c {
        Color::Ansi256(n) => {
            push_char(&mut out, if is_fg { '3' } else { '4' });
            push_char(&mut out, '8');
            push_char(&mut out, ';');
            push_char(&mut out, '5');
            push_char(&mut out, ';');
            push_decimal(&mut out, n as u64);
        },
        Color::Rgb(r, g, b) => {
            push_char(&mut out, if is_fg { '3' } else { '4' });
            push_char(&mut out, '8');
            push_char(&mut out, ';');
            push_char(&mut out, '2');
            push_char(&mut out, ';');
            push_decimal(&mut out, r as u64);
            push_char(&mut out, ';');
            push_decimal(&mut out, g as u64);
            push_char(&mut out, ';');
            push_decimal(&mut out, b as u64);
        },
        _ => {
            let base: u64 = match c {
                Color::Reset => 39,
                Color::Black => 30,
                Color::Red => 31,
                Color::Green => 32,
                Color::Yellow => 33,
                Color::Blue => 34,
                Color::Magenta => 35,
                Color::Cyan => 36,
                Color::White => 37,
                Color::BrightBlack => 90,
                Color::BrightRed => 91,
                Color::BrightGreen => 92,
                Color::BrightYellow => 93,
                Color::BrightBlue => 94,
                Color::BrightMagenta => 95,
                Color::BrightCyan => 96,
                _ => 97,
            };
            let code: u64 = if is_fg { base } else { base + 10 };
            push_decimal(&mut out, code);
        },
    }
    proof {
        let lead: Seq<char> = if is_fg { seq!['3', '8', ';'] } else { seq!['4', '8', ';'] };
        match c {
            Color::Ansi256(n) => {
                assert(out@ =~= lead + seq!['5', ';'] + decimal(n as nat));
            },
            Color::Rgb(r, g, b) => {
                assert(out@ =~= lead + seq!['2', ';'] + decimal(r as nat) + seq![';'] + decimal(g as nat) + seq![';'] + decimal(b as nat));
            },
            _ => {
                assert(out@ =~= decimal(named_color_code(c, is_fg)));
            },
        }
    }
    out
}

/// Appends the string of `code` to `codes` when `flag` holds.
pub(crate) fn push_code_if(codes: &mut Vec<String>, flag: bool, code: char)
    ensures
        final(codes)@.map_values(|x: String| x@) == old(codes)@.map_values(|x: String| x@) + code_if(flag, seq![code]),
{
    if flag {
        let mut s = String::new();
        push_char(&mut s, code);
        codes.push(s);
        proof {
            assert(final(codes)@.map_values(|x: String| x@) =~= old(codes)@.map_values(|x: String| x@) + code_if(flag, seq![code]));
        }
    } else {
        proof {
            assert(final(codes)@.map_values(|x: String| x@) =~= old(codes)@.map_values(|x: String| x@) + code_if(flag, seq![code]));
        }
    }
}

impl Style {
    pub fn new() -> (s: Self)
        ensures
            s == plain_style(),
    {
        Style { fg: None, bg: None, bold: false, dim: false, italic: false, underline: false, reverse: false }
    }

    pub fn fg(self, color: Color) -> (s: Self)
        ensures
            s == (Style { fg: Some(color), ..self }),
    {
        Style { fg: Some(color), ..self }
    }

    pub fn bg(self, color: Color) -> (s: Self)
        ensures
            s == (Style { bg: Some(color), ..self }),
    {
        Style { bg: Some(color), ..self }
    }

    pub fn bold(self) -> (s: Self)
        ensures
            s == (Style { bold: true, ..self }),
    {
        Style { bold: true, ..self }
    }

    pub fn dim(self) -> (s: Self)
        ensures
            s == (Style { dim: true, ..self }),
    {
        Style { dim: true, ..self }
    }

    pub fn italic(self) -> (s: Self)
        ensures
            s == (Style { italic: true, ..self }),
    {
        Style { italic: true, ..self }
    }

    pub fn underline(self) -> (s: Self)
        ensures
            s == (Style { underline: true, ..self }),
    {
        Style { underline: true, ..self }
    }

    pub fn reverse(self) -> (s: Self)
        ensures
            s == (Style { reverse: true, ..self }),
    {
        Style { reverse: true, ..self }
    }

    /// True when no color and no attribute is set.
    pub fn is_default(&self) -> (b: bool)
        ensures
            b == (*self == plain_style()),
    {
        self.fg.is_none() && self.bg.is_none() && !self.bold && !self.dim && !self.italic
            && !self.underline && !self.reverse
    }

    /// Combines a style-only overlay on top of this base style: explicit
    /// `fg`/`bg` in the overlay win; boolean attributes are OR-ed.
    pub fn overlay(self, over: Style) -> (s: Style)
        ensures
            s == overlay_style(self, over),
    {
        Style {
            fg: if over.fg.is_some() { over.fg } else { self.fg },
            bg: if over.bg.is_some() { over.bg } else { self.bg },
            bold: self.bold || over.bold,
            dim: self.dim || over.dim,
            italic: self.italic || over.italic,
            underline: self.underline || over.underline,
            reverse: self.reverse || over.reverse,
        }
    }

    /// The SGR parameters of this style, in emission order.
    pub fn sgr_code_list(&self) -> (codes: Vec<String>)
        ensures
            codes@.map_values(|x: String| x@) == sgr_codes(*self),
    {
        let mut codes: Vec<String> = Vec::new();
        push_code_if(&mut codes, self.bold, '1');
        push_code_if(&mut codes, self.dim, '2');
        push_code_if(&mut codes, self.italic, '3');
        push_code_if(&mut codes, self.underline, '4');
        push_code_if(&mut codes, self.reverse, '7');
        let ghost before_colors = codes@.map_values(|x: String| x@);
        if let Some(c) = self.fg {
            codes.push(color_code_string(c, true));
        }
        let ghost after_fg = codes@.map_values(|x: String| x@);
        proof {
            assert(after_fg =~= before_colors + (match self.fg { Some(c) => seq![color_code(c, true)], None => Seq::<Seq<char>>::empty() }));
        }
        if let Some(c) = self.bg {
            codes.push(color_code_string(c, false));
        }
        proof {
            assert(codes@.map_values(|x: String| x@) =~= after_fg + (match self.bg { Some(c) => seq![color_code(c, false)], None => Seq::<Seq<char>>::empty() }));
            assert(codes@.map_values(|x: String| x@) =~= sgr_codes(*self));
        }
        codes
    }

    /// The SGR escape sequence selecting this style.
    pub fn to_sgr(&self) -> (s: String)
        ensures
            s@ == sgr_of(*self),
    {
        let mut s = String::new();
        self.write_sgr(&mut s);
        proof {
            assert(s@ =~= sgr_of(*self));
        }
        s
    }

    /// Appends the SGR escape sequence selecting this style to `out`.
    pub fn write_sgr(&self, out: &mut String)
        ensures
            final(out)@ == old(out)@ + sgr_of(*self),
    {
        if self.is_default() {
            push_char(out, '\x1b');
            push_char(out, '[');
            push_char(out, '0');
            push_char(out, 'm');
            proof {
                assert(final(out)@ =~= old(out)@ + sgr_of(*self));
            }
            return;
        }
        let codes = self.sgr_code_list();
        push_char(out, '\x1b');
        push_char(out, '[');
        append_joined(out, &codes);
        push_char(out, 'm');
        proof {
            assert(final(out)@ =~= old(out)@ + sgr_of(*self));
        }
    }
}


/// Design tokens defining a visual palette. The default theme keeps the
/// terminal's own background (`Color::Reset`).
#[derive(Debug, Clone, Copy, PartialEq, Eq, Structural)]
pub struct Theme {
    pub text: Color,
    pub text_muted: Color,
    pub accent: Color,
    pub success: Color,
    pub warning: Color,
    pub error: Color,
    pub border: Color,
    pub rail: Color,
    pub code: Color,
    pub bg: Color,
}

impl Default for Theme {
    fn default() -> (t: Self)
        ensures
            t == (Theme {
                text: Color::Reset,
                text_muted: Color::BrightBlack,
                accent: Color::BrightCyan,
                success: Color::BrightGreen,
                warning: Color::BrightYellow,
                error: Color::BrightRed,
                border: Color::BrightBlack,
                rail: Color::BrightCyan,
                code: Color::BrightYellow,
                bg: Color::Reset,
            }),
    {
        Theme {
            text: Color::Reset,
            text_muted: Color::BrightBlack,
            accent: Color::BrightCyan,
            success: Color::BrightGreen,
            warning: Color::BrightYellow,
            error: Color::BrightRed,
            border: Color::BrightBlack,
            rail: Color::BrightCyan,
            code: Color::BrightYellow,
            bg: Color::Reset,
        }
    }
}

/// Complete semantic style roles resolved from a [`Theme`].
#[derive(Debug, Clone, Copy, PartialEq, Eq, Structural)]
pub struct ThemeStyles {
    pub text: Style,
    pub muted: Style,
    pub faint: Style,
    pub accent: Style,
    pub success: Style,
    pub warning: Style,
    pub error: Style,
    pub border: Style,
    pub rail: Style,
    pub code: Style,
    pub link: Style,
    pub selection: Style,
}

/// A role's foreground: `Reset` ("inherit the terminal default") sets no
/// foreground at all.
pub open spec fn role_fg(c: Color) -> Style {
    if c == Color::Reset { plain_style() } else { Style { fg: Some(c), ..plain_style() } }
}

/// The semantic styles of a theme.
pub open spec fn theme_styles(t: Theme) -> ThemeStyles {
    ThemeStyles {
        text: role_fg(t.text),
        muted: Style { dim: true, ..plain_style() },
        faint: Style { dim: true, ..plain_style() },
        accent: Style { bold: true, ..role_fg(t.accent) },
        success: role_fg(t.success),
        warning: role_fg(t.warning),
        error: role_fg(t.error),
        border: role_fg(t.border),
        rail: role_fg(t.rail),
        code: role_fg(t.code),
        link: Style { underline: true, ..role_fg(t.accent) },
        selection: Style { reverse: true, ..plain_style() },
    }
}

fn role_fg_exec(c: Color) -> (s: Style)
    ensures
        s == role_fg(c),
{
    if c == Color::Reset {
        Style::new()
    } else {
        Style::new().fg(c)
    }
}

impl Theme {
    pub fn dark() -> (t: Self)
        ensures
            t == (Theme {
                text: Color::White,
                text_muted: Color::BrightBlack,
                accent: Color::BrightCyan,
                success: Color::BrightGreen,
                warning: Color::BrightYellow,
                error: Color::BrightRed,
                border: Color::BrightBlack,
                rail: Color::BrightCyan,
                code: Color::BrightYellow,
                bg: Color::Reset,
            }),
    {
        Theme {
            text: Color::White,
            text_muted: Color::BrightBlack,
            accent: Color::BrightCyan,
            success: Color::BrightGreen,
            warning: Color::BrightYellow,
            error: Color::BrightRed,
            border: Color::BrightBlack,
            rail: Color::BrightCyan,
            code: Color::BrightYellow,
            bg: Color::Reset,
        }
    }

    pub fn light() -> (t: Self)
        ensures
            t == (Theme {
                text: Color::Black,
                text_muted: Color::BrightBlack,
                accent: Color::Blue,
                success: Color::Green,
                warning: Color::Yellow,
                error: Color::Red,
                border: Color::BrightBlack,
                rail: Color::Blue,
                code: Color::Magenta,
                bg: Color::Reset,
            }),
    {
        Theme {
            text: Color::Black,
            text_muted: Color::BrightBlack,
            accent: Color::Blue,
            success: Color::Green,
            warning: Color::Yellow,
            error: Color::Red,
            border: Color::BrightBlack,
            rail: Color::Blue,
            code: Color::Magenta,
            bg: Color::Reset,
        }
    }

    /// A theme that emits no color attributes at all.
    pub fn no_color() -> (t: Self)
        ensures
            t == (Theme {
                text: Color::Reset,
                text_muted: Color::Reset,
                accent: Color::Reset,
                success: Color::Reset,
                warning: Color::Reset,
                error: Color::Reset,
                border: Color::Reset,
                rail: Color::Reset,
                code: Color::Reset,
                bg: Color::Reset,
            }),
    {
        Theme {
            text: Color::Reset,
            text_muted: Color::Reset,
            accent: Color::Reset,
            success: Color::Reset,
            warning: Color::Reset,
            error: Color::Reset,
            border: Color::Reset,
            rail: Color::Reset,
            code: Color::Reset,
            bg: Color::Reset,
        }
    }

    /// Resolves the palette into complete semantic styles.
    pub fn styles(&self) -> (st: ThemeStyles)
        ensures
            st == theme_styles(*self),
    {
        ThemeStyles {
            text: role_fg_exec(self.text),
            muted: Style::new().dim(),
            faint: Style::new().dim(),
            accent: role_fg_exec(self.accent).bold(),
            success: role_fg_exec(self.success),
            warning: role_fg_exec(self.warning),
            error: role_fg_exec(self.error),
            border: role_fg_exec(self.border),
            rail: role_fg_exec(self.rail),
            code: role_fg_exec(self.code),
            link: role_fg_exec(self.accent).underline(),
            selection: Style::new().reverse(),
        }
    }
}

/// A contiguous slice of text sharing a single style.
#[derive(Debug, Clone, PartialEq, Eq)]
pub struct Span {
    pub text: String,
    pub style: Style,
}

impl Span {
    pub fn raw(text: &str) -> (sp: Self)
        ensures
            sp.text@ == text@,
            sp.style == plain_style(),
    {
        Span { text: text.to_string(), style: Style::new() }
    }

    pub fn styled(text: &str, style: Style) -> (sp: Self)
        ensures
            sp.text@ == text@,
            sp.style == style,
    {
        Span { text: text.to_string(), style }
    }

    /// Display width of the span's text in terminal columns.
    pub fn display_width(&self) -> (w: usize)
        ensures
            w == display_width_of(self.text@),
    {
        str_width(self.text.as_str())
    }
}

/// Text alignment within a container.
#[derive(Debug, Clone, Copy, PartialEq, Eq, Structural, Default)]
pub enum TextAlign {
    #[default]
    Left,
    Center,
    Right,
}

/// A single line composed of styled spans.
#[derive(Debug, Clone, PartialEq, Eq, Default)]
pub struct Line {
    pub spans: Vec<Span>,
    pub align: TextAlign,
}

/// The text of the spans, concatenated.
pub open spec fn spans_text(spans: Seq<Span>) -> Seq<char>
    decreases spans.len(),
{
    if spans.len() == 0 {
        Seq::empty()
    } else {
        spans_text(spans.drop_last()) + spans.last().text@
    }
}

/// Sum of the display widths of the spans.
pub open spec fn spans_width(spans: Seq<Span>) -> nat
    decreases spans.len(),
{
    if spans.len() == 0 {
        0
    } else {
        spans_width(spans.drop_last()) + display_width_of(spans.last().text@)
    }
}

/// ANSI rendering of a prefix of spans: the emitted text and the style that
/// is active afterwards. A style change first resets an active non-default
/// style, then emits the new style's SGR unless it is the default.
pub open spec fn ansi_prefix(spans: Seq<Span>) -> (Seq<char>, Style)
    decreases spans.len(),
{
    if spans.len() == 0 {
        (Seq::empty(), plain_style())
    } else {
        let (o, active) = ansi_prefix(spans.drop_last());
        let sp = spans.last();
        let o2 = if sp.style != active {
            (if active != plain_style() { o + sgr_reset() } else { o })
                + (if sp.style != plain_style() { sgr_of(sp.style) } else { Seq::empty() })
        } else {
            o
        };
        (o2 + sp.text@, sp.style)
    }
}

/// The ANSI rendering of a line: spans with style transitions, closed by a
/// reset when a non-default style is still active.
pub open spec fn line_ansi(spans: Seq<Span>) -> Seq<char> {
    let (o, active) = ansi_prefix(spans);
    if active != plain_style() { o + sgr_reset() } else { o }
}

impl Line {
    pub fn new() -> (l: Self)
        ensures
            l.spans@.len() == 0,
            l.align == TextAlign::Left,
    {
        Line { spans: Vec::new(), align: TextAlign::Left }
    }

    pub fn raw(text: &str) -> (l: Self)
        ensures
            l.spans@.len() == 1,
            l.spans@[0].text@ == text@,
            l.spans@[0].style == plain_style(),
            l.align == TextAlign::Left,
    {
        let mut spans = Vec::new();
        spans.push(Span::raw(text));
        Line { spans, align: TextAlign::Left }
    }

    pub fn styled(text: &str, style: Style) -> (l: Self)
        ensures
            l.spans@.len() == 1,
            l.spans@[0].text@ == text@,
            l.spans@[0].style == style,
            l.align == TextAlign::Left,
    {
        let mut spans = Vec::new();
        spans.push(Span::styled(text, style));
        Line { spans, align: TextAlign::Left }
    }

    pub fn from_spans(spans: Vec<Span>) -> (l: Self)
        ensures
            l.spans@ == spans@,
            l.align == TextAlign::Left,
    {
        Line { spans, align: TextAlign::Left }
    }

    pub fn align(self, align: TextAlign) -> (l: Self)
        ensures
            l.spans@ == self.spans@,
            l.align == align,
    {
        Line { spans: self.spans, align }
    }

    pub fn push(&mut self, span: Span)
        ensures
            final(self).spans@ == old(self).spans@.push(span),
            final(self).align == old(self).align,
    {
        self.spans.push(span);
    }

    pub fn span(self, span: Span) -> (l: Self)
        ensures
            l.spans@ == self.spans@.push(span),
            l.align == self.align,
    {
        let mut l = self;
        l.spans.push(span);
        l
    }

    /// Sum of the display widths of the spans.
    pub fn display_width(&self) -> (w: usize)
        requires
            spans_width(self.spans@) <= usize::MAX,
        ensures
            w == spans_width(self.spans@),
    {
        let mut w: usize = 0;
        let mut i: usize = 0;
        while i < self.spans.len()
            invariant
                i <= self.spans@.len(),
                w == spans_width(self.spans@.take(i as int)),
                spans_width(self.spans@) <= usize::MAX,
            decreases self.spans@.len() - i,
        {
            proof {
                assert(self.spans@.take(i as int + 1).drop_last() =~= self.spans@.take(i as int));
                lemma_spans_width_prefix(self.spans@, i as int + 1);
            }
            w = w + self.spans[i].display_width();
            i = i + 1;
        }
        proof {
            assert(self.spans@.take(i as int) =~= self.spans@);
        }
        w
    }

    /// Plain text of the line, with no escape codes.
    pub fn plain_text(&self) -> (s: String)
        ensures
            s@ == spans_text(self.spans@),
    {
        let mut s = String::new();
        let mut i: usize = 0;
        while i < self.spans.len()
            invariant
                i <= self.spans@.len(),
                s@ == spans_text(self.spans@.take(i as int)),
            decreases self.spans@.len() - i,
        {
            proof {
                assert(self.spans@.take(i as int + 1).drop_last() =~= self.spans@.take(i as int));
            }
            s.append(self.spans[i].text.as_str());
            i = i + 1;
        }
        proof {
            assert(self.spans@.take(i as int) =~= self.spans@);
        }
        s
    }

    /// Formats the line with ANSI escape sequences for TTY display.
    pub fn to_ansi(&self) -> (s: String)
        ensures
            s@ == line_ansi(self.spans@),
    {
        let mut out = String::new();
        let mut active = Style::new();
        let mut i: usize = 0;
        while i < self.spans.len()
            invariant
                i <= self.spans@.len(),
                (out@, active) == ansi_prefix(self.spans@.take(i as int)),
            decreases self.spans@.len() - i,
        {
            proof {
                assert(self.spans@.take(i as int + 1).drop_last() =~= self.spans@.take(i as int));
            }
            let st = self.spans[i].style;
            if st != active {
                if !active.is_default() {
                    push_char(&mut out, '\x1b');
                    push_char(&mut out, '[');
                    push_char(&mut out, '0');
                    push_char(&mut out, 'm');
                }
                if !st.is_default() {
                    st.write_sgr(&mut out);
                }
                active = st;
            }
            out.append(self.spans[i].text.as_str());
            i = i + 1;
            proof {
                assert(out@ =~= ansi_prefix(self.spans@.take(i as int)).0);
            }
        }
        proof {
            assert(self.spans@.take(i as int) =~= self.spans@);
        }
        if !active.is_default() {
            push_char(&mut out, '\x1b');
            push_char(&mut out, '[');
            push_char(&mut out, '0');
            push_char(&mut out, 'm');
        }
        proof {
            assert(out@ =~= line_ansi(self.spans@));
        }
        out
    }
}

proof fn lemma_spans_width_prefix(spans: Seq<Span>, k: int)
    requires
        0 <= k <= spans.len(),
    ensures
        spans_width(spans.take(k)) <= spans_width(spans),
    decreases spans.len() - k,
{
    if k < spans.len() {
        lemma_spans_width_prefix(spans, k + 1);
        assert(spans.take(k + 1).drop_last() =~= spans.take(k));
    } else {
        assert(spans.take(k) =~= spans);
    }
}


/// Splits text at every `'\n'`; the result always holds at least one line.
pub open spec fn split_lines(s: Seq<char>) -> Seq<Seq<char>>
    decreases s.len(),
{
    if s.len() == 0 {
        seq![Seq::empty()]
    } else {
        let prev = split_lines(s.drop_last());
        if s.last() == '\n' {
            prev.push(Seq::empty())
        } else {
            prev.update(prev.len() - 1, prev.last().push(s.last()))
        }
    }
}

proof fn lemma_split_lines_nonempty(s: Seq<char>)
    ensures
        split_lines(s).len() >= 1,
    decreases s.len(),
{
    if s.len() > 0 {
        lemma_split_lines_nonempty(s.drop_last());
    }
}

/// Strings joined with `'\n'` in between.
pub open spec fn join_newline(parts: Seq<Seq<char>>) -> Seq<char>
    decreases parts.len(),
{
    if parts.len() == 0 {
        Seq::empty()
    } else if parts.len() == 1 {
        parts[0]
    } else {
        join_newline(parts.drop_last()).push('\n') + parts.last()
    }
}

/// Splits `text` at `'\n'` into owned lines.
pub(crate) fn split_at_newlines(text: &str) -> (parts: Vec<String>)
    ensures
        parts@.map_values(|x: String| x@) == split_lines(text@),
{
    let chars = chars_of(text);
    let mut parts: Vec<String> = Vec::new();
    let mut cur = String::new();
    let mut i: usize = 0;
    while i < chars.len()
        invariant
            i <= chars@.len(),
            chars@ == text@,
            parts@.map_values(|x: String| x@).push(cur@) == split_lines(chars@.take(i as int)),
        decreases chars@.len() - i,
    {
        let c = chars[i];
        proof {
            assert(chars@.take(i as int + 1).drop_last() =~= chars@.take(i as int));
            lemma_split_lines_nonempty(chars@.take(i as int));
        }
        if c == '\n' {
            let done = cur;
            parts.push(done);
            cur = String::new();
        } else {
            push_char(&mut cur, c);
        }
        i = i + 1;
        proof {
            assert(parts@.map_values(|x: String| x@).push(cur@) =~= split_lines(chars@.take(i as int)));
        }
    }
    proof {
        assert(chars@.take(i as int) =~= text@);
    }
    parts.push(cur);
    proof {
        assert(parts@.map_values(|x: String| x@) =~= split_lines(text@));
    }
    parts
}

/// A structured multi-line block of styled text.
#[derive(Debug, Clone, PartialEq, Eq, Default)]
pub struct RichText {
    pub lines: Vec<Line>,
}

impl RichText {
    pub fn new() -> (r: Self)
        ensures
            r.lines@.len() == 0,
    {
        RichText { lines: Vec::new() }
    }

    /// One unstyled line per `'\n'`-separated piece of `text`.
    pub fn raw(text: &str) -> (r: Self)
        ensures
            r.lines@.len() == split_lines(text@).len(),
            forall|i: int| 0 <= i < r.lines@.len() ==> {
                &&& (#[trigger] r.lines@[i]).spans@.len() == 1
                &&& r.lines@[i].spans@[0].text@ == split_lines(text@)[i]
                &&& r.lines@[i].spans@[0].style == plain_style()
                &&& r.lines@[i].align == TextAlign::Left
            },
    {
        RichText::styled(text, Style::new())
    }

    /// One line styled with `style` per `'\n'`-separated piece of `text`.
    pub fn styled(text: &str, style: Style) -> (r: Self)
        ensures
            r.lines@.len() == split_lines(text@).len(),
            forall|i: int| 0 <= i < r.lines@.len() ==> {
                &&& (#[trigger] r.lines@[i]).spans@.len() == 1
                &&& r.lines@[i].spans@[0].text@ == split_lines(text@)[i]
                &&& r.lines@[i].spans@[0].style == style
                &&& r.lines@[i].align == TextAlign::Left
            },
    {
        let parts = split_at_newlines(text);
        let ghost pv = parts@.map_values(|x: String| x@);
        let mut lines: Vec<Line> = Vec::new();
        let mut i: usize = 0;
        while i < parts.len()
            invariant
                i <= parts@.len(),
                pv == parts@.map_values(|x: String| x@),
                pv == split_lines(text@),
                lines@.len() == i,
                forall|j: int| 0 <= j < i ==> {
                    &&& (#[trigger] lines@[j]).spans@.len() == 1
                    &&& lines@[j].spans@[0].text@ == pv[j]
                    &&& lines@[j].spans@[0].style == style
                    &&& lines@[j].align == TextAlign::Left
                },
            decreases parts@.len() - i,
        {
            lines.push(Line::styled(parts[i].as_str(), style));
            i = i + 1;
        }
        RichText { lines }
    }

    pub fn from_lines(lines: Vec<Line>) -> (r: Self)
        ensures
            r.lines@ == lines@,
    {
        RichText { lines }
    }

    pub fn push_line(&mut self, line: Line)
        ensures
            final(self).lines@ == old(self).lines@.push(line),
    {
        self.lines.push(line);
    }

    pub fn line(self, line: Line) -> (r: Self)
        ensures
            r.lines@ == self.lines@.push(line),
    {
        let mut r = self;
        r.lines.push(line);
        r
    }

    /// Plain text of all lines joined by `'\n'`, with no escape codes.
    pub fn plain_text(&self) -> (s: String)
        ensures
            s@ == join_newline(self.lines@.map_values(|l: Line| spans_text(l.spans@))),
    {
        let ghost views = self.lines@.map_values(|l: Line| spans_text(l.spans@));
        let mut s = String::new();
        let mut i: usize = 0;
        while i < self.lines.len()
            invariant
                i <= self.lines@.len(),
                views == self.lines@.map_values(|l: Line| spans_text(l.spans@)),
                s@ == join_newline(views.take(i as int)),
            decreases self.lines@.len() - i,
        {
            if i > 0 {
                push_char(&mut s, '\n');
            }
            let t = self.lines[i].plain_text();
            s.append(t.as_str());
            proof {
                assert(views.take(i as int + 1).drop_last() =~= views.take(i as int));
                if i == 0 {
                    assert(views.take(1) =~= seq![views[0]]);
                }
            }
            i = i + 1;
        }
        proof {
            assert(views.take(i as int) =~= views);
        }
        s
    }

    /// ANSI rendering of all lines joined by `'\n'`.
    pub fn to_ansi(&self) -> (s: String)
        ensures
            s@ == join_newline(self.lines@.map_values(|l: Line| line_ansi(l.spans@))),
    {
        let ghost views = self.lines@.map_values(|l: Line| line_ansi(l.spans@));
        let mut s = String::new();
        let mut i: usize = 0;
        while i < self.lines.len()
            invariant
                i <= self.lines@.len(),
                views == self.lines@.map_values(|l: Line| line_ansi(l.spans@)),
                s@ == join_newline(views.take(i as int)),
            decreases self.lines@.len() - i,
        {
            if i > 0 {
                push_char(&mut s, '\n');
            }
            let t = self.lines[i].to_ansi();
            s.append(t.as_str());
            proof {
                assert(views.take(i as int + 1).drop_last() =~= views.take(i as int));
                if i == 0 {
                    assert(views.take(1) =~= seq![views[0]]);
                }
            }
            i = i + 1;
        }
        proof {
            assert(views.take(i as int) =~= views);
        }
        s
    }
}

/// A single grapheme cluster and its measured cell width.
#[derive(Debug, Clone, PartialEq, Eq, Hash)]
pub struct Glyph {
    pub grapheme: String,
    pub display_width: u8,
}

/// Display width recorded for a glyph: the measured width, capped at 2.
pub open spec fn glyph_width(s: Seq<char>) -> u8 {
    if display_width_of(s) >= 2 { 2 } else { display_width_of(s) as u8 }
}

impl Glyph {
    /// A glyph for `s`, measuring its display width (capped at 2 columns).
    pub fn new(s: &str) -> (g: Self)
        ensures
            g.grapheme@ == s@,
            g.display_width == glyph_width(s@),
    {
        let w = str_width(s);
        let width: u8 = if w >= 2 { 2 } else { w as u8 };
        Glyph { grapheme: s.to_string(), display_width: width }
    }

    /// A single space, one column wide.
    pub fn space() -> (g: Self)
        ensures
            g.grapheme@ == seq![' '],
            g.display_width == 1,
    {
        let mut s = String::new();
        push_char(&mut s, ' ');
        Glyph { grapheme: s, display_width: 1 }
    }

    /// The empty glyph, zero columns wide.
    pub fn empty() -> (g: Self)
        ensures
            g.grapheme@.len() == 0,
            g.display_width == 0,
    {
        Glyph { grapheme: String::new(), display_width: 0 }
    }

    pub fn is_empty(&self) -> (b: bool)
        ensures
            b == (self.grapheme@.len() == 0),
    {
        self.grapheme.as_str().is_empty()
    }

    /// An exact copy of this glyph.
    pub fn duplicate(&self) -> (g: Self)
        ensures
            g == *self,
    {
        Glyph { grapheme: self.grapheme.clone(), display_width: self.display_width }
    }
}

impl Default for Glyph {
    fn default() -> (g: Self)
        ensures
            g.grapheme@ == seq![' '],
            g.display_width == 1,
    {
        Glyph::space()
    }
}

/// A logical terminal cell.
#[derive(Debug, Clone, PartialEq, Eq)]
pub struct Cell {
    pub glyph: Glyph,
    pub style: Style,
    /// True if this cell is the trailing continuation half of a wide glyph.
    pub is_continuation: bool,
    /// A transparent cell is not painted by the compositor.
    pub transparent: bool,
    /// A style-only cell contributes its style to the cell beneath it.
    pub style_only: bool,
}

/// A blank, opaque cell with `style`.
pub open spec fn is_space_cell(c: Cell, style: Style) -> bool {
    &&& c.glyph.grapheme@ == seq![' ']
    &&& c.glyph.display_width == 1
    &&& c.style == style
    &&& !c.is_continuation
    &&& !c.transparent
    &&& !c.style_only
}

impl Cell {
    pub fn new(glyph: Glyph, style: Style) -> (c: Self)
        ensures
            c.glyph == glyph,
            c.style == style,
            !c.is_continuation && !c.transparent && !c.style_only,
    {
        Cell { glyph, style, is_continuation: false, transparent: false, style_only: false }
    }

    pub fn space(style: Style) -> (c: Self)
        ensures
            is_space_cell(c, style),
    {
        Cell { glyph: Glyph::space(), style, is_continuation: false, transparent: false, style_only: false }
    }

    /// The trailing half of a wide glyph.
    pub fn continuation(style: Style) -> (c: Self)
        ensures
            c.glyph.grapheme@.len() == 0,
            c.glyph.display_width == 0,
            c.style == style,
            c.is_continuation && !c.transparent && !c.style_only,
    {
        Cell { glyph: Glyph::empty(), style, is_continuation: true, transparent: false, style_only: false }
    }

    /// A fully transparent cell: contributes nothing when composited.
    pub fn transparent() -> (c: Self)
        ensures
            c.glyph.grapheme@ == seq![' '],
            c.glyph.display_width == 1,
            c.style == plain_style(),
            !c.is_continuation && c.transparent && !c.style_only,
    {
        Cell { glyph: Glyph::space(), style: Style::new(), is_continuation: false, transparent: true, style_only: false }
    }

    /// A style-only cell: contributes `style` without replacing the glyph.
    pub fn style_overlay(style: Style) -> (c: Self)
        ensures
            c.glyph.grapheme@ == seq![' '],
            c.glyph.display_width == 1,
            c.style == style,
            !c.is_continuation && !c.transparent && c.style_only,
    {
        Cell { glyph: Glyph::space(), style, is_continuation: false, transparent: false, style_only: true }
    }

    /// Resets the cell to a blank, opaque, unstyled space.
    pub fn reset(&mut self)
        ensures
            is_space_cell(*final(self), plain_style()),
    {
        self.glyph = Glyph::space();
        self.style = Style::new();
        self.is_continuation = false;
        self.transparent = false;
        self.style_only = false;
    }

    /// An exact copy of this cell.
    pub fn duplicate(&self) -> (c: Self)
        ensures
            c == *self,
    {
        Cell {
            glyph: self.glyph.duplicate(),
            style: self.style,
            is_continuation: self.is_continuation,
            transparent: self.transparent,
            style_only: self.style_only,
        }
    }
}

impl Default for Cell {
    fn default() -> (c: Self)
        ensures
            is_space_cell(c, plain_style()),
    {
        Cell::space(Style::new())
    }
}


/// Laying the plain style over a style, or a style over the plain style,
/// gives that style.
pub proof fn law_overlay_plain_is_identity(s: Style)
    ensures
        overlay_style(s, plain_style()) == s,
        overlay_style(plain_style(), s) == s,
{
}

/// Overlaying is associative: stacking three styles gives the same result
/// however the stack is grouped.
pub proof fn law_overlay_is_associative(a: Style, b: Style, c: Style)
    ensures
        overlay_style(overlay_style(a, b), c) == overlay_style(a, overlay_style(b, c)),
{
}

} // verus!
