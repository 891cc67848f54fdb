//! Terminal capability model and the central color-quality ladder
//! `TrueColor -> Ansi256 -> Ansi16 -> Mono`.
use crate::cell::{base16_color, base16_index, base16_rgb, color_rgb, xterm_rgb, xterm_rgb_of, Color, Style};
use crate::text::chars_of;
use vstd::prelude::*;

verus! {

/// Tri-state capability value.
#[derive(Debug, Clone, Copy, PartialEq, Eq, Structural, Default)]
pub enum Capability {
    Supported,
    Unsupported,
    #[default]
    Unknown,
}

impl Capability {
    /// Only explicit support is trustworthy for safety-sensitive behavior.
    pub fn is_supported(self) -> (b: bool)
        ensures
            b == (self == Capability::Supported),
    {
        match self {
            Capability::Supported => true,
            _ => false,
        }
    }
}

/// Color output quality.
#[derive(Debug, Clone, Copy, PartialEq, Eq, Structural, Default)]
pub enum ColorDepth {
    /// Glyph intensity only; no color attributes are emitted.
    Mono,
    /// The base 16 ANSI colors.
    Ansi16,
    /// The xterm 256-color palette.
    Ansi256,
    /// 24-bit RGB.
    #[default]
    TrueColor,
}

/// Passive capability snapshot for a terminal.
#[derive(Debug, Clone, Copy, PartialEq, Eq, Structural)]
pub struct TerminalCapabilities {
    pub color_depth: ColorDepth,
    pub synchronized_updates: Capability,
    /// `CSI L` (insert lines), used by the live-region fast path.
    pub insert_line: Capability,
    pub osc8_hyperlinks: Capability,
    pub kitty_keyboard: Capability,
    pub kitty_graphics: Capability,
    pub sixel: Capability,
    pub iterm_images: Capability,
}

/// The capabilities of a terminal with the given color depth, sync-update and
/// insert-line support; every other capability is unknown.
pub open spec fn caps_with(depth: ColorDepth, sync: Capability, insert: Capability) -> TerminalCapabilities {
    TerminalCapabilities {
        color_depth: depth,
        synchronized_updates: sync,
        insert_line: insert,
        osc8_hyperlinks: Capability::Unknown,
        kitty_keyboard: Capability::Unknown,
        kitty_graphics: Capability::Unknown,
        sixel: Capability::Unknown,
        iterm_images: Capability::Unknown,
    }
}

impl Default for TerminalCapabilities {
    fn default() -> (c: Self)
        ensures
            c == caps_with(ColorDepth::TrueColor, Capability::Supported, Capability::Supported),
    {
        Self::truecolor()
    }
}

/// ASCII lower-casing of one character.
pub open spec fn ascii_lower(c: char) -> char {
    if 'A' <= c && c <= 'Z' { ((c as u32) + 32) as char } else { c }
}

/// Equality of two strings ignoring ASCII case.
pub open spec fn eq_ignore_ascii_case(a: Seq<char>, b: Seq<char>) -> bool {
    a.len() == b.len() && forall|i: int| 0 <= i < a.len() ==> ascii_lower(#[trigger] a[i]) == ascii_lower(b[i])
}

/// `needle` occurs in `hay` as a contiguous substring.
pub open spec fn contains_seq(hay: Seq<char>, needle: Seq<char>) -> bool {
    exists|i: int| 0 <= i && i + needle.len() <= hay.len() && #[trigger] hay.subrange(i, i + needle.len()) == needle
}

/// The value of an optional environment variable, empty when unset.
pub open spec fn env_or_empty(v: Option<Seq<char>>) -> Seq<char> {
    match v {
        Some(s) => s,
        None => Seq::empty(),
    }
}

/// Capability detection from the values of `NO_COLOR`, `TERM` and `COLORTERM`:
/// a non-empty `NO_COLOR`, `TERM=dumb` or an empty/unset `TERM` mean mono;
/// otherwise `COLORTERM` of `truecolor`/`24bit` (any ASCII case) means
/// truecolor, a `TERM` containing `256color` means 256 colors, and anything
/// else means the 16 base colors, with insert-line support.
pub open spec fn caps_from_env(no_color: Option<Seq<char>>, term: Option<Seq<char>>, colorterm: Option<Seq<char>>) -> TerminalCapabilities {
    let nc = match no_color { Some(v) => v.len() > 0, None => false };
    let t = env_or_empty(term);
    let ct = env_or_empty(colorterm);
    if nc || t == seq!['d', 'u', 'm', 'b'] || t.len() == 0 {
        caps_with(ColorDepth::Mono, Capability::Unsupported, Capability::Unknown)
    } else {
        let depth = if eq_ignore_ascii_case(ct, seq!['t', 'r', 'u', 'e', 'c', 'o', 'l', 'o', 'r'])
            || eq_ignore_ascii_case(ct, seq!['2', '4', 'b', 'i', 't']) {
            ColorDepth::TrueColor
        } else if contains_seq(t, seq!['2', '5', '6', 'c', 'o', 'l', 'o', 'r']) {
            ColorDepth::Ansi256
        } else {
            ColorDepth::Ansi16
        };
        caps_with(depth, Capability::Unknown, Capability::Supported)
    }
}

pub(crate) fn lower_exec(c: char) -> (l: char)
    ensures
        l == ascii_lower(c),
{
    if 'A' <= c && c <= 'Z' {
        let u: u32 = c as u32 + 32;
        let l: u8 = u as u8;
        l as char
    } else {
        c
    }
}

/// ASCII-case-insensitive comparison of `a` with `b`.
fn eq_ignore_case_exec(a: &Vec<char>, b: &Vec<char>) -> (r: bool)
    ensures
        r == eq_ignore_ascii_case(a@, b@),
{
    if a.len() != b.len() {
        return false;
    }
    let mut i: usize = 0;
    while i < a.len()
        invariant
            a@.len() == b@.len(),
            i <= a@.len(),
            forall|j: int| 0 <= j < i ==> ascii_lower(#[trigger] a@[j]) == ascii_lower(b@[j]),
        decreases a@.len() - i,
    {
        if lower_exec(a[i]) != lower_exec(b[i]) {
            return false;
        }
        i = i + 1;
    }
    true
}

/// Substring search.
fn contains_exec(hay: &Vec<char>, needle: &Vec<char>) -> (r: bool)
    ensures
        r == contains_seq(hay@, needle@),
{
    if needle.len() > hay.len() {
        proof {
            assert forall|i: int| 0 <= i && i + needle@.len() <= hay@.len() implies #[trigger] hay@.subrange(i, i + needle@.len()) != needle@ by {}
        }
        return false;
    }
    let last: usize = hay.len() - needle.len();
    let mut i: usize = 0;
    loop
        invariant
            needle@.len() <= hay@.len(),
            hay@.len() <= usize::MAX,
            last == hay@.len() - needle@.len(),
            i <= last,
            forall|k: int| 0 <= k < i ==> #[trigger] hay@.subrange(k, k + needle@.len()) != needle@,
        decreases last - i,
    {
        let mut j: usize = 0;
        let mut all = true;
        while j < needle.len()
            invariant
                i <= last,
                last == hay@.len() - needle@.len(),
                hay@.len() <= usize::MAX,
                j <= needle@.len(),
                all == (forall|m: int| 0 <= m < j ==> hay@[i + m] == #[trigger] needle@[m]),
            decreases needle@.len() - j,
        {
            if hay[i + j] != needle[j] {
                all = false;
            }
            j = j + 1;
        }
        if all {
            proof {
                assert(hay@.subrange(i as int, i + needle@.len()) =~= needle@);
            }
            return true;
        }
        proof {
            let m = choose|m: int| 0 <= m < needle@.len() && hay@[i + m] != needle@[m];
            assert(hay@.subrange(i as int, i + needle@.len())[m] != needle@[m]);
        }
        if i == last {
            return false;
        }
        i = i + 1;
    }
}

impl TerminalCapabilities {
    pub fn mono() -> (c: Self)
        ensures
            c == caps_with(ColorDepth::Mono, Capability::Unsupported, Capability::Unknown),
    {
        TerminalCapabilities {
            color_depth: ColorDepth::Mono,
            synchronized_updates: Capability::Unsupported,
            insert_line: Capability::Unknown,
            osc8_hyperlinks: Capability::Unknown,
            kitty_keyboard: Capability::Unknown,
            kitty_graphics: Capability::Unknown,
            sixel: Capability::Unknown,
            iterm_images: Capability::Unknown,
        }
    }

    pub fn ansi16() -> (c: Self)
        ensures
            c == caps_with(ColorDepth::Ansi16, Capability::Supported, Capability::Supported),
    {
        TerminalCapabilities { color_depth: ColorDepth::Ansi16, ..Self::truecolor() }
    }

    pub fn ansi256() -> (c: Self)
        ensures
            c == caps_with(ColorDepth::Ansi256, Capability::Supported, Capability::Supported),
    {
        TerminalCapabilities { color_depth: ColorDepth::Ansi256, ..Self::truecolor() }
    }

    pub fn truecolor() -> (c: Self)
        ensures
            c == caps_with(ColorDepth::TrueColor, Capability::Supported, Capability::Supported),
    {
        TerminalCapabilities {
            color_depth: ColorDepth::TrueColor,
            synchronized_updates: Capability::Supported,
            insert_line: Capability::Supported,
            osc8_hyperlinks: Capability::Unknown,
            kitty_keyboard: Capability::Unknown,
            kitty_graphics: Capability::Unknown,
            sixel: Capability::Unknown,
            iterm_images: Capability::Unknown,
        }
    }

    /// Detects capabilities from an injectable environment getter: `get` is
    /// asked for `NO_COLOR`, `TERM` and `COLORTERM`, and the answers decide as
    /// [`TerminalCapabilities::from_env_values`] does.
    pub fn from_env<F: Fn(&str) -> Option<String>>(get: F) -> (c: Self)
        requires
            forall|k: &str| call_requires(get, (k,)),
        ensures
            exists|a: Option<String>, b: Option<String>, d: Option<String>|
                call_ensures(get, ("NO_COLOR",), a) && call_ensures(get, ("TERM",), b)
                    && call_ensures(get, ("COLORTERM",), d) && c == caps_from_env(
                    match a { Some(v) => Some(v@), None => None },
                    match b { Some(v) => Some(v@), None => None },
                    match d { Some(v) => Some(v@), None => None },
                ),
    {
        let a = get("NO_COLOR");
        let b = get("TERM");
        let d = get("COLORTERM");
        let c = Self::from_env_values(
            match &a { Some(v) => Some(v.as_str()), None => None },
            match &b { Some(v) => Some(v.as_str()), None => None },
            match &d { Some(v) => Some(v.as_str()), None => None },
        );
        c
    }

    /// Capability detection from the values of `NO_COLOR`, `TERM` and `COLORTERM`.
    pub fn from_env_values(no_color: Option<&str>, term: Option<&str>, colorterm: Option<&str>) -> (c: Self)
        ensures
            c == caps_from_env(
                match no_color { Some(v) => Some(v@), None => None },
                match term { Some(v) => Some(v@), None => None },
                match colorterm { Some(v) => Some(v@), None => None },
            ),
    {
        let nc = match no_color {
            Some(v) => !v.is_empty(),
            None => false,
        };
        let t: Vec<char> = match term {
            Some(v) => chars_of(v),
            None => Vec::new(),
        };
        let ct: Vec<char> = match colorterm {
            Some(v) => chars_of(v),
            None => Vec::new(),
        };
        let dumb = chars_of("dumb");
        let truecolor = chars_of("truecolor");
        let bits24 = chars_of("24bit");
        let c256 = chars_of("256color");
        proof {
            reveal_strlit("dumb");
            reveal_strlit("truecolor");
            reveal_strlit("24bit");
            reveal_strlit("256color");
            assert(dumb@ =~= seq!['d', 'u', 'm', 'b']);
            assert(truecolor@ =~= seq!['t', 'r', 'u', 'e', 'c', 'o', 'l', 'o', 'r']);
            assert(bits24@ =~= seq!['2', '4', 'b', 'i', 't']);
            assert(c256@ =~= seq!['2', '5', '6', 'c', 'o', 'l', 'o', 'r']);
            assert(t@ == env_or_empty(match term { Some(v) => Some(v@), None => None }));
            assert(ct@ == env_or_empty(match colorterm { Some(v) => Some(v@), None => None }));
        }
        let is_dumb = t.len() == 4 && t[0] == 'd' && t[1] == 'u' && t[2] == 'm' && t[3] == 'b';
        proof {
            assert(is_dumb == (t@ == seq!['d', 'u', 'm', 'b'])) by {
                if t@.len() == 4 {
                    if t@ == seq!['d', 'u', 'm', 'b'] {
                        assert(t@[0] == 'd' && t@[1] == 'u' && t@[2] == 'm' && t@[3] == 'b');
                    } else if is_dumb {
                        assert(t@ =~= seq!['d', 'u', 'm', 'b']);
                    }
                }
            }
        }
        if nc || is_dumb || t.len() == 0 {
            return Self::mono();
        }
        let depth = if eq_ignore_case_exec(&ct, &truecolor) || eq_ignore_case_exec(&ct, &bits24) {
            ColorDepth::TrueColor
        } else if contains_exec(&t, &c256) {
            ColorDepth::Ansi256
        } else {
            ColorDepth::Ansi16
        };
        TerminalCapabilities {
            color_depth: depth,
            synchronized_updates: Capability::Unknown,
            insert_line: Capability::Supported,
            osc8_hyperlinks: Capability::Unknown,
            kitty_keyboard: Capability::Unknown,
            kitty_graphics: Capability::Unknown,
            sixel: Capability::Unknown,
            iterm_images: Capability::Unknown,
        }
    }
}


/// Squared Euclidean distance between two RGB triples.
pub open spec fn rgb_dist2(a: (u8, u8, u8), b: (u8, u8, u8)) -> int {
    (a.0 - b.0) * (a.0 - b.0) + (a.1 - b.1) * (a.1 - b.1) + (a.2 - b.2) * (a.2 - b.2)
}

fn dist2(a: (u8, u8, u8), b: (u8, u8, u8)) -> (d: u32)
    ensures
        d == rgb_dist2(a, b),
{
    let dr: i32 = a.0 as i32 - b.0 as i32;
    let dg: i32 = a.1 as i32 - b.1 as i32;
    let db: i32 = a.2 as i32 - b.2 as i32;
    assert(0 <= dr * dr <= 65025) by (nonlinear_arith) requires -255 <= dr <= 255;
    assert(0 <= dg * dg <= 65025) by (nonlinear_arith) requires -255 <= dg <= 255;
    assert(0 <= db * db <= 65025) by (nonlinear_arith) requires -255 <= db <= 255;
    (dr * dr + dg * dg + db * db) as u32
}

/// `i` is the first index in `lo..hi` whose palette color is nearest to `rgb`
/// (ties go to the lower index).
pub open spec fn is_first_nearest(rgb: (u8, u8, u8), i: int, lo: int, hi: int, pal: spec_fn(int) -> (u8, u8, u8)) -> bool {
    &&& lo <= i < hi
    &&& forall|j: int| lo <= j < hi ==> rgb_dist2(rgb, pal(i)) <= rgb_dist2(rgb, #[trigger] pal(j))
    &&& forall|j: int| lo <= j < i ==> rgb_dist2(rgb, pal(i)) < rgb_dist2(rgb, #[trigger] pal(j))
}

/// The palette of the 16 base colors, as a spec function of the index.
pub open spec fn base16_palette() -> spec_fn(int) -> (u8, u8, u8) {
    |i: int| base16_rgb(i)
}

/// The xterm 256-color palette, as a spec function of the index.
pub open spec fn xterm_palette() -> spec_fn(int) -> (u8, u8, u8) {
    |i: int| xterm_rgb_of(i as u8)
}

fn base16_rgb_at(i: u8) -> (rgb: (u8, u8, u8))
    requires
        i < 16,
    ensures
        rgb == base16_rgb(i as int),
{
    xterm_rgb(i)
}

/// Index of the base color nearest to `rgb`.
fn nearest16(rgb: (u8, u8, u8)) -> (best: u8)
    ensures
        is_first_nearest(rgb, best as int, 0, 16, base16_palette()),
{
    let mut best: u8 = 0;
    let mut best_d: u32 = dist2(rgb, base16_rgb_at(0));
    let mut i: u8 = 1;
    while i < 16
        invariant
            1 <= i <= 16,
            best < i,
            best_d == rgb_dist2(rgb, base16_rgb(best as int)),
            forall|j: int| 0 <= j < i ==> best_d <= rgb_dist2(rgb, #[trigger] base16_palette()(j)),
            forall|j: int| 0 <= j < best ==> best_d < rgb_dist2(rgb, #[trigger] base16_palette()(j)),
        decreases 16 - i,
    {
        let d = dist2(rgb, base16_rgb_at(i));
        if d < best_d {
            best_d = d;
            best = i;
        }
        i = i + 1;
    }
    best
}

/// Index of the xterm 256-color entry nearest to `rgb`, among the cube and
/// the gray ramp (`16..=255`).
fn nearest256(rgb: (u8, u8, u8)) -> (best: u8)
    ensures
        is_first_nearest(rgb, best as int, 16, 256, xterm_palette()),
{
    let mut best: u8 = 16;
    let mut best_d: u32 = dist2(rgb, xterm_rgb(16));
    let mut i: u16 = 17;
    while i < 256
        invariant
            17 <= i <= 256,
            16 <= best < i,
            best_d == rgb_dist2(rgb, xterm_rgb_of(best)),
            forall|j: int| 16 <= j < i ==> best_d <= rgb_dist2(rgb, #[trigger] xterm_palette()(j)),
            forall|j: int| 16 <= j < best ==> best_d < rgb_dist2(rgb, #[trigger] xterm_palette()(j)),
        decreases 256 - i,
    {
        let d = dist2(rgb, xterm_rgb(i as u8));
        if d < best_d {
            best_d = d;
            best = i as u8;
        }
        i = i + 1;
    }
    best
}

/// True for the 16 base ANSI colors.
pub open spec fn is_base16_color(c: Color) -> bool {
    base16_index(c) is Some
}

fn is_base16(c: Color) -> (b: bool)
    ensures
        b == is_base16_color(c),
{
    match c {
        Color::Reset | Color::Ansi256(_) | Color::Rgb(..) => false,
        _ => true,
    }
}

fn ansi16_from_index(i: u8) -> (c: Color)
    requires
        i < 16,
    ensures
        c == base16_color(i as int),
{
    match i {
        0 => Color::Black,
        1 => Color::Red,
        2 => Color::Green,
        3 => Color::Yellow,
        4 => Color::Blue,
        5 => Color::Magenta,
        6 => Color::Cyan,
        7 => Color::White,
        8 => Color::BrightBlack,
        9 => Color::BrightRed,
        10 => Color::BrightGreen,
        11 => Color::BrightYellow,
        12 => Color::BrightBlue,
        13 => Color::BrightMagenta,
        14 => Color::BrightCyan,
        _ => Color::BrightWhite,
    }
}

/// The wire color for `color` at `depth`; `None` means "emit no color
/// attribute". `Reset` always stays `Reset`; mono drops every other color;
/// truecolor keeps it; 256 colors keep base and palette colors and map RGB to
/// the nearest palette entry; 16 colors keep base colors and map the rest to
/// the nearest base color.
pub open spec fn quantized(color: Color, depth: ColorDepth, near256: int, near16: int) -> Option<Color> {
    if color == Color::Reset {
        Some(Color::Reset)
    } else {
        match depth {
            ColorDepth::Mono => None,
            ColorDepth::TrueColor => Some(color),
            ColorDepth::Ansi256 => if is_base16_color(color) || color is Ansi256 {
                Some(color)
            } else {
                Some(Color::Ansi256(near256 as u8))
            },
            ColorDepth::Ansi16 => if is_base16_color(color) {
                Some(color)
            } else {
                Some(base16_color(near16))
            },
        }
    }
}

/// Quantizes a color for the given depth. `None` means "emit no color attribute".
pub fn quantize_color(color: Color, depth: ColorDepth) -> (q: Option<Color>)
    ensures
        exists|n256: int, n16: int|
            is_first_nearest(color_rgb(color), n256, 16, 256, xterm_palette())
                && is_first_nearest(color_rgb(color), n16, 0, 16, base16_palette())
                && q == quantized(color, depth, n256, n16),
        q == quantized_color(color, depth),
{
    proof { lemma_nearest_exists(color_rgb(color)); }
    let ghost n256 = choose|n: int| is_first_nearest(color_rgb(color), n, 16, 256, xterm_palette());
    let ghost n16 = choose|n: int| is_first_nearest(color_rgb(color), n, 0, 16, base16_palette());
    let q = if color == Color::Reset {
        Some(Color::Reset)
    } else {
        match depth {
            ColorDepth::Mono => None,
            ColorDepth::TrueColor => Some(color),
            ColorDepth::Ansi256 => {
                if is_base16(color) {
                    Some(color)
                } else if let Color::Ansi256(_) = color {
                    Some(color)
                } else {
                    let n = nearest256(color.to_rgb());
                    proof { lemma_first_nearest_unique(color_rgb(color), n as int, n256, 16, 256, xterm_palette()); }
                    Some(Color::Ansi256(n))
                }
            },
            ColorDepth::Ansi16 => {
                if is_base16(color) {
                    Some(color)
                } else {
                    let n = nearest16(color.to_rgb());
                    proof { lemma_first_nearest_unique(color_rgb(color), n as int, n16, 0, 16, base16_palette()); }
                    Some(ansi16_from_index(n))
                }
            },
        }
    };
    assert(is_first_nearest(color_rgb(color), n256, 16, 256, xterm_palette())
        && is_first_nearest(color_rgb(color), n16, 0, 16, base16_palette())
        && q == quantized(color, depth, n256, n16));
    proof {
        lemma_quantize_color_is_quantized(color, depth, q);
    }
    q
}

/// The first nearest palette entry is unique.
pub proof fn lemma_first_nearest_unique(rgb: (u8, u8, u8), a: int, b: int, lo: int, hi: int, pal: spec_fn(int) -> (u8, u8, u8))
    requires
        is_first_nearest(rgb, a, lo, hi, pal),
        is_first_nearest(rgb, b, lo, hi, pal),
    ensures
        a == b,
{
    if a < b {
        assert(rgb_dist2(rgb, pal(b)) < rgb_dist2(rgb, pal(a)));
        assert(rgb_dist2(rgb, pal(a)) <= rgb_dist2(rgb, pal(b)));
    } else if b < a {
        assert(rgb_dist2(rgb, pal(a)) < rgb_dist2(rgb, pal(b)));
        assert(rgb_dist2(rgb, pal(b)) <= rgb_dist2(rgb, pal(a)));
    }
}

/// Every color has a first nearest entry in both palettes.
proof fn lemma_nearest_exists(rgb: (u8, u8, u8))
    ensures
        exists|n: int| is_first_nearest(rgb, n, 16, 256, xterm_palette()),
        exists|n: int| is_first_nearest(rgb, n, 0, 16, base16_palette()),
{
    let a = lemma_first_nearest_witness(rgb, 16, 256, xterm_palette());
    let b = lemma_first_nearest_witness(rgb, 0, 16, base16_palette());
}

/// A first nearest entry of a non-empty index range.
proof fn lemma_first_nearest_witness(rgb: (u8, u8, u8), lo: int, hi: int, pal: spec_fn(int) -> (u8, u8, u8)) -> (i: int)
    requires
        lo < hi,
    ensures
        is_first_nearest(rgb, i, lo, hi, pal),
    decreases hi - lo,
{
    if hi - lo == 1 {
        lo
    } else {
        let k = lemma_first_nearest_witness(rgb, lo, hi - 1, pal);
        if rgb_dist2(rgb, pal(hi - 1)) < rgb_dist2(rgb, pal(k)) {
            hi - 1
        } else {
            k
        }
    }
}

/// The first nearest entry of the 256-color cube and gray ramp to `c`.
pub open spec fn nearest256_of(c: Color) -> int {
    choose|n: int| is_first_nearest(color_rgb(c), n, 16, 256, xterm_palette())
}

/// The first nearest of the 16 base colors to `c`.
pub open spec fn nearest16_of(c: Color) -> int {
    choose|n: int| is_first_nearest(color_rgb(c), n, 0, 16, base16_palette())
}

/// The wire color of `c` at `depth`.
pub open spec fn quantized_color(c: Color, depth: ColorDepth) -> Option<Color> {
    quantized(c, depth, nearest256_of(c), nearest16_of(c))
}

/// A style with both colors quantized for `depth`; attributes are kept.
pub open spec fn quantized_style(s: Style, depth: ColorDepth) -> Style {
    Style {
        fg: match s.fg { Some(c) => quantized_color(c, depth), None => None },
        bg: match s.bg { Some(c) => quantized_color(c, depth), None => None },
        ..s
    }
}

/// What `quantize_color` returns is the quantized color.
proof fn lemma_quantize_color_is_quantized(c: Color, depth: ColorDepth, q: Option<Color>)
    requires
        exists|n256: int, n16: int|
            is_first_nearest(color_rgb(c), n256, 16, 256, xterm_palette())
                && is_first_nearest(color_rgb(c), n16, 0, 16, base16_palette())
                && q == quantized(c, depth, n256, n16),
    ensures
        q == quantized_color(c, depth),
{
    lemma_nearest_exists(color_rgb(c));
    let (n256, n16) = choose|n256: int, n16: int|
        is_first_nearest(color_rgb(c), n256, 16, 256, xterm_palette())
            && is_first_nearest(color_rgb(c), n16, 0, 16, base16_palette())
            && q == quantized(c, depth, n256, n16);
    lemma_first_nearest_unique(color_rgb(c), n256, nearest256_of(c), 16, 256, xterm_palette());
    lemma_first_nearest_unique(color_rgb(c), n16, nearest16_of(c), 0, 16, base16_palette());
}

/// Quantizes a whole style's colors for the given depth; attributes are kept.
pub fn quantize_style(style: Style, depth: ColorDepth) -> (q: Style)
    ensures
        q == quantized_style(style, depth),
{
    let fg = match style.fg {
        Some(c) => {
            let q = quantize_color(c, depth);
            proof {
                lemma_quantize_color_is_quantized(c, depth, q);
            }
            q
        },
        None => None,
    };
    let bg = match style.bg {
        Some(c) => {
            let q = quantize_color(c, depth);
            proof {
                lemma_quantize_color_is_quantized(c, depth, q);
            }
            q
        },
        None => None,
    };
    Style { fg, bg, ..style }
}


/// Whether a terminal at `depth` can show the color attribute `c`: no color
/// and the terminal's own color always; otherwise nothing at `Mono`, a base
/// color at `Ansi16`, anything but a 24-bit color at `Ansi256`, and any color
/// at `TrueColor`.
pub open spec fn fits_depth(c: Option<Color>, depth: ColorDepth) -> bool {
    match c {
        None => true,
        Some(col) => col == Color::Reset || match depth {
            ColorDepth::Mono => false,
            ColorDepth::Ansi16 => is_base16_color(col),
            ColorDepth::Ansi256 => !(col is Rgb),
            ColorDepth::TrueColor => true,
        },
    }
}

/// Quantizing a color gives a color the depth can show, and keeps a color
/// that it can already show.
proof fn lemma_quantized_color_fits(c: Color, depth: ColorDepth)
    ensures
        fits_depth(quantized_color(c, depth), depth),
        fits_depth(Some(c), depth) ==> quantized_color(c, depth) == Some(c),
        depth != ColorDepth::Mono ==> quantized_color(c, depth) is Some,
{
    lemma_nearest_exists(color_rgb(c));
    let n16 = nearest16_of(c);
    assert(0 <= n16 < 16);
    assert(is_base16_color(base16_color(n16)));
}

/// Quantizing a style quantizes each of its colors exactly as quantizing that
/// color alone does, and keeps its attributes. Both colors of the result can
/// be shown at the depth (at `Mono` every color but `Reset`, foreground or
/// background, is dropped), a color the depth can already show is kept, and
/// below `Mono` no color is lost.
pub proof fn law_quantized_style_fits_depth(s: Style, depth: ColorDepth)
    ensures
        ({
            let q = quantized_style(s, depth);
            &&& q.fg == match s.fg { Some(c) => quantized_color(c, depth), None => None }
            &&& q.bg == match s.bg { Some(c) => quantized_color(c, depth), None => None }
            &&& q.bold == s.bold && q.dim == s.dim && q.italic == s.italic && q.underline == s.underline && q.reverse == s.reverse
            &&& fits_depth(q.fg, depth) && fits_depth(q.bg, depth)
            &&& fits_depth(s.fg, depth) ==> q.fg == s.fg
            &&& fits_depth(s.bg, depth) ==> q.bg == s.bg
            &&& depth != ColorDepth::Mono ==> (q.fg is Some <==> s.fg is Some) && (q.bg is Some <==> s.bg is Some)
            &&& depth == ColorDepth::Mono ==> (q.fg is Some ==> q.fg == Some(Color::Reset)) && (q.bg is Some ==> q.bg == Some(Color::Reset))
        }),
{
    match s.fg {
        Some(c) => lemma_quantized_color_fits(c, depth),
        None => {},
    }
    match s.bg {
        Some(c) => lemma_quantized_color_fits(c, depth),
        None => {},
    }
}

/// A color the depth cannot show is replaced by the nearest color it can:
/// at `Ansi256` a 24-bit color becomes the first of the palette entries 16
/// to 255 nearest to it, and at `Ansi16` any color that is not a base color
/// becomes the first of the 16 base colors nearest to it (by squared RGB
/// distance).
pub proof fn law_quantized_color_is_nearest(c: Color)
    ensures
        c is Rgb ==> (quantized_color(c, ColorDepth::Ansi256) matches Some(q) && q is Ansi256 && 16 <= q->Ansi256_0
            && forall|j: int| 16 <= j < 256 ==>
                rgb_dist2(color_rgb(c), color_rgb(q)) <= rgb_dist2(color_rgb(c), #[trigger] xterm_rgb_of(j as u8))),
        c != Color::Reset && !is_base16_color(c) ==> (quantized_color(c, ColorDepth::Ansi16) matches Some(q) && is_base16_color(q)
            && forall|j: int| 0 <= j < 16 ==>
                rgb_dist2(color_rgb(c), color_rgb(q)) <= rgb_dist2(color_rgb(c), #[trigger] base16_rgb(j))),
{
    lemma_nearest_exists(color_rgb(c));
    let n256 = nearest256_of(c);
    let n16 = nearest16_of(c);
    assert forall|j: int| 16 <= j < 256 implies
        rgb_dist2(color_rgb(c), xterm_rgb_of(n256 as u8)) <= rgb_dist2(color_rgb(c), #[trigger] xterm_rgb_of(j as u8)) by {
        assert(xterm_palette()(j) == xterm_rgb_of(j as u8));
        assert(xterm_palette()(n256) == xterm_rgb_of(n256 as u8));
    }
    assert forall|j: int| 0 <= j < 16 implies
        rgb_dist2(color_rgb(c), base16_rgb(n16)) <= rgb_dist2(color_rgb(c), #[trigger] base16_rgb(j)) by {
        assert(base16_palette()(j) == base16_rgb(j));
        assert(base16_palette()(n16) == base16_rgb(n16));
    }
    if c is Rgb {
        assert(!is_base16_color(c));
    }
}

/// `Reset` (the terminal's own color) survives quantization at every depth.
pub proof fn law_reset_survives_quantization(depth: ColorDepth, n256: int, n16: int)
    ensures
        quantized(Color::Reset, depth, n256, n16) == Some(Color::Reset),
{
}

/// Quantizing is idempotent: a quantized color quantized again at the same
/// depth comes back unchanged, whatever palette entries are nearest to it.
pub proof fn law_quantize_is_idempotent(color: Color, depth: ColorDepth, n256: int, n16: int, m256: int, m16: int)
    requires
        0 <= n16 < 16,
        16 <= n256 < 256,
    ensures
        quantized(color, depth, n256, n16) matches Some(q) ==> quantized(q, depth, m256, m16) == Some(q),
{
    match quantized(color, depth, n256, n16) {
        Some(q) => {
            if color != Color::Reset {
                match depth {
                    ColorDepth::Ansi16 => {
                        if !is_base16_color(color) {
                            assert(is_base16_color(base16_color(n16)));
                        }
                    },
                    _ => {},
                }
            }
        },
        None => {},
    }
}

} // verus!
