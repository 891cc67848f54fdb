//! Sub-cell glyph realization: turning a logical 2x4 dot mask into one
//! terminal glyph through one of several glyph families (Braille, half
//! blocks, shade blocks, ASCII), the policy that picks a family, and the pass
//! that re-realizes a Braille surface in another family.
use crate::capability::{ascii_lower, lower_exec};
use crate::cell::{glyph_width, Glyph};
use crate::surface::Surface;
use crate::text::{char_from_u32, chars_of, push_char};
use vstd::prelude::*;

verus! {

/// A glyph family for realizing a 2x4 sub-cell dot mask, highest sub-cell
/// resolution first.
#[derive(Debug, Clone, Copy, PartialEq, Eq, Structural, Hash)]
#[non_exhaustive]
pub enum SubcellGlyphMode {
    /// Unicode Braille (`U+2800 + bits`): the full 2x4 resolution.
    Braille2x4,
    /// Upper/lower half blocks: two vertical samples per cell.
    HalfBlock1x2,
    /// Shade blocks by ink density (dot count).
    Block,
    /// A pure-ASCII density ramp, realizable with any font.
    Ascii,
}

/// The number of set bits of `m`.
pub open spec fn popcount(m: nat) -> nat
    decreases m,
{
    if m == 0 { 0 } else { (m % 2) + popcount(m / 2) }
}

proof fn lemma_popcount_le(m: nat)
    ensures
        popcount(m) <= m,
    decreases m,
{
    if m > 0 {
        lemma_popcount_le(m / 2);
    }
}

/// The ASCII ink ramp for `n` lit dots, `1 <= n <= 8`.
pub open spec fn ramp_code(n: nat) -> u32 {
    if n == 1 { 0x2E }            // '.'
    else if n == 2 { 0x3A }       // ':'
    else if n == 3 { 0x2D }       // '-'
    else if n == 4 { 0x3D }       // '='
    else if n == 5 { 0x2B }       // '+'
    else if n == 6 { 0x2A }       // '*'
    else if n == 7 { 0x23 }       // '#'
    else { 0x40 }                 // '@'
}

/// The code point that realizes `mask` in `mode`; `None` exactly for the
/// empty mask.
pub open spec fn subcell_code(mode: SubcellGlyphMode, mask: u8) -> Option<u32> {
    match mode {
        SubcellGlyphMode::Braille2x4 => if mask == 0 { None } else { Some((0x2800 + mask) as u32) },
        SubcellGlyphMode::HalfBlock1x2 => {
            let top = mask & 0x1Bu8 != 0;
            let bottom = mask & 0xE4u8 != 0;
            if top && bottom { Some(0x2588u32) }
            else if top { Some(0x2580u32) }
            else if bottom { Some(0x2584u32) }
            else { None }
        },
        SubcellGlyphMode::Block => {
            let n = popcount(mask as nat);
            if n == 0 { None }
            else if n <= 2 { Some(0x2591u32) }
            else if n <= 5 { Some(0x2592u32) }
            else if n <= 7 { Some(0x2593u32) }
            else { Some(0x2588u32) }
        },
        SubcellGlyphMode::Ascii => {
            let n = popcount(mask as nat);
            if n == 0 { None } else { Some(ramp_code(n)) }
        },
    }
}

/// The number of lit dots of a mask.
fn count_dots(mask: u8) -> (n: u32)
    ensures
        n == popcount(mask as nat),
{
    let mut m: u8 = mask;
    let mut n: u32 = 0;
    proof {
        lemma_popcount_le(mask as nat);
    }
    while m != 0
        invariant
            n + popcount(m as nat) == popcount(mask as nat),
            popcount(mask as nat) <= 255,
        decreases m,
    {
        proof {
            assert(popcount(m as nat) == (m as nat % 2) + popcount(m as nat / 2));
        }
        n = n + (m % 2) as u32;
        m = m / 2;
    }
    n
}

/// The name a mode is selected by.
pub open spec fn mode_name(mode: SubcellGlyphMode) -> Seq<char> {
    match mode {
        SubcellGlyphMode::Braille2x4 => "braille"@,
        SubcellGlyphMode::HalfBlock1x2 => "halfblock"@,
        SubcellGlyphMode::Block => "block"@,
        SubcellGlyphMode::Ascii => "ascii"@,
    }
}

impl SubcellGlyphMode {
    /// Realizes a 2x4 dot `mask` as one glyph in this mode. `None` exactly
    /// when the mask is empty, in every mode, so a lit sample is never dropped.
    /// The mask layout is that of the Braille canvas: left column `0x01`,
    /// `0x02`, `0x04`, `0x40` top to bottom; right column `0x08`, `0x10`,
    /// `0x20`, `0x80`.
    pub fn subcell_glyph(self, mask: u8) -> (r: Option<char>)
        ensures
            r is None <==> subcell_code(self, mask) is None,
            r matches Some(c) ==> subcell_code(self, mask) == Some(c as u32),
            r is None <==> mask == 0,
    {
        let r = match self {
            SubcellGlyphMode::Braille2x4 => {
                if mask == 0 {
                    None
                } else {
                    char_from_u32(0x2800 + mask as u32)
                }
            },
            SubcellGlyphMode::HalfBlock1x2 => {
                let top = mask & 0x1B != 0;
                let bottom = mask & 0xE4 != 0;
                if top && bottom {
                    Some('\u{2588}')
                } else if top {
                    Some('\u{2580}')
                } else if bottom {
                    Some('\u{2584}')
                } else {
                    None
                }
            },
            SubcellGlyphMode::Block => {
                let n = count_dots(mask);
                if n == 0 {
                    None
                } else if n <= 2 {
                    Some('\u{2591}')
                } else if n <= 5 {
                    Some('\u{2592}')
                } else if n <= 7 {
                    Some('\u{2593}')
                } else {
                    Some('\u{2588}')
                }
            },
            SubcellGlyphMode::Ascii => {
                let n = count_dots(mask);
                if n == 0 {
                    None
                } else if n == 1 {
                    Some('.')
                } else if n == 2 {
                    Some(':')
                } else if n == 3 {
                    Some('-')
                } else if n == 4 {
                    Some('=')
                } else if n == 5 {
                    Some('+')
                } else if n == 6 {
                    Some('*')
                } else if n == 7 {
                    Some('#')
                } else {
                    Some('@')
                }
            },
        };
        proof {
            lemma_mask_empty(self, mask);
        }
        r
    }

    /// The name that selects this mode.
    pub fn as_str(self) -> (s: &'static str)
        ensures
            s@ == mode_name(self),
    {
        match self {
            SubcellGlyphMode::Braille2x4 => "braille",
            SubcellGlyphMode::HalfBlock1x2 => "halfblock",
            SubcellGlyphMode::Block => "block",
            SubcellGlyphMode::Ascii => "ascii",
        }
    }
}

/// A mask realizes as nothing exactly when it is empty.
proof fn lemma_mask_empty(mode: SubcellGlyphMode, mask: u8)
    ensures
        subcell_code(mode, mask) is None <==> mask == 0,
{
    assert(popcount(0) == 0);
    if mask != 0 {
        assert(popcount(mask as nat) > 0) by {
            assert(popcount(mask as nat) == (mask as nat % 2) + popcount(mask as nat / 2));
            if mask as nat % 2 == 0 {
                assert(mask as nat / 2 > 0);
                lemma_popcount_pos((mask as nat / 2) as nat);
            }
        }
        assert((mask & 0x1Bu8 != 0) || (mask & 0xE4u8 != 0)) by (bit_vector)
            requires mask != 0u8;
    }
    assert(0u8 & 0x1Bu8 == 0 && 0u8 & 0xE4u8 == 0) by (bit_vector);
}

proof fn lemma_popcount_pos(m: nat)
    requires
        m > 0,
    ensures
        popcount(m) > 0,
    decreases m,
{
    if m % 2 == 0 {
        lemma_popcount_pos(m / 2);
    }
}


/// A glyph-realization preference: a fixed mode or the `Auto` policy.
#[derive(Debug, Clone, Copy, PartialEq, Eq, Structural, Hash)]
pub enum GlyphChoice {
    /// Resolve from the environment (`TERM`) by a conservative policy.
    Auto,
    /// Use exactly this mode.
    Fixed(SubcellGlyphMode),
}

/// Unicode `White_Space`, the whitespace that string trimming removes.
pub open spec fn is_white_space(c: char) -> bool {
    let u = c as u32;
    (0x9 <= u <= 0xD) || u == 0x20 || u == 0x85 || u == 0xA0 || u == 0x1680 || (0x2000 <= u <= 0x200A)
        || u == 0x2028 || u == 0x2029 || u == 0x202F || u == 0x205F || u == 0x3000
}

/// `s` without its leading whitespace.
pub open spec fn trim_front(s: Seq<char>) -> Seq<char>
    decreases s.len(),
{
    if s.len() > 0 && is_white_space(s[0]) { trim_front(s.drop_first()) } else { s }
}

/// `s` without its trailing whitespace.
pub open spec fn trim_back(s: Seq<char>) -> Seq<char>
    decreases s.len(),
{
    if s.len() > 0 && is_white_space(s.last()) { trim_back(s.drop_last()) } else { s }
}

/// `s` without leading and trailing whitespace, ASCII letters lowered.
pub open spec fn normalized(s: Seq<char>) -> Seq<char> {
    trim_back(trim_front(s)).map_values(|c: char| ascii_lower(c))
}

/// The choice a normalized name selects, with its aliases.
pub open spec fn choice_named(n: Seq<char>) -> Option<GlyphChoice> {
    if n == "auto"@ {
        Some(GlyphChoice::Auto)
    } else if n == "braille"@ || n == "braille2x4"@ {
        Some(GlyphChoice::Fixed(SubcellGlyphMode::Braille2x4))
    } else if n == "halfblock"@ || n == "half-block"@ || n == "half"@ {
        Some(GlyphChoice::Fixed(SubcellGlyphMode::HalfBlock1x2))
    } else if n == "block"@ || n == "blocks"@ || n == "shade"@ {
        Some(GlyphChoice::Fixed(SubcellGlyphMode::Block))
    } else if n == "ascii"@ || n == "text"@ {
        Some(GlyphChoice::Fixed(SubcellGlyphMode::Ascii))
    } else {
        None
    }
}

/// The `Auto` policy: half blocks on the Linux kernel console (`TERM=linux`),
/// whose fonts realize Braille unreliably; Braille everywhere else.
pub open spec fn auto_mode_of(term: Option<Seq<char>>) -> SubcellGlyphMode {
    if term == Some("linux"@) { SubcellGlyphMode::HalfBlock1x2 } else { SubcellGlyphMode::Braille2x4 }
}

/// The view of an optional owned string.
pub open spec fn opt_view(o: Option<String>) -> Option<Seq<char>> {
    match o {
        Some(v) => Some(v@),
        None => None,
    }
}

fn white_space(c: char) -> (b: bool)
    ensures
        b == is_white_space(c),
{
    let u = c as u32;
    (0x9 <= u && u <= 0xD) || u == 0x20 || u == 0x85 || u == 0xA0 || u == 0x1680 || (0x2000 <= u && u <= 0x200A)
        || u == 0x2028 || u == 0x2029 || u == 0x202F || u == 0x205F || u == 0x3000
}

/// The characters of `s`, trimmed and ASCII-lowered.
fn normalize_chars(s: &str) -> (v: Vec<char>)
    ensures
        v@ == normalized(s@),
{
    let c = chars_of(s);
    let n = c.len();
    let mut i: usize = 0;
    proof {
        assert(c@.subrange(0, n as int) =~= c@);
    }
    while i < n && white_space(c[i])
        invariant
            n == c@.len(),
            i <= n,
            trim_front(c@) == trim_front(c@.subrange(i as int, n as int)),
        decreases n - i,
    {
        proof {
            assert(c@.subrange(i as int, n as int).drop_first() =~= c@.subrange(i as int + 1, n as int));
        }
        i = i + 1;
    }
    let ghost u = c@.subrange(i as int, n as int);
    proof {
        assert(trim_front(c@) == u);
    }
    let mut j: usize = n;
    while j > i && white_space(c[j - 1])
        invariant
            n == c@.len(),
            i <= j <= n,
            u == c@.subrange(i as int, n as int),
            trim_back(u) == trim_back(c@.subrange(i as int, j as int)),
        decreases j - i,
    {
        proof {
            assert(c@.subrange(i as int, j as int).drop_last() =~= c@.subrange(i as int, j as int - 1));
        }
        j = j - 1;
    }
    let mut v: Vec<char> = Vec::new();
    let mut k: usize = i;
    while k < j
        invariant
            n == c@.len(),
            i <= k <= j <= n,
            v@ == c@.subrange(i as int, k as int).map_values(|ch: char| ascii_lower(ch)),
        decreases j - k,
    {
        v.push(lower_exec(c[k]));
        proof {
            assert(c@.subrange(i as int, k as int + 1) =~= c@.subrange(i as int, k as int).push(c@[k as int]));
            assert(v@ =~= c@.subrange(i as int, k as int + 1).map_values(|ch: char| ascii_lower(ch)));
        }
        k = k + 1;
    }
    proof {
        assert(trim_back(c@.subrange(i as int, j as int)) == c@.subrange(i as int, j as int));
    }
    v
}

/// Whether `v` holds exactly the characters of `lit`.
fn chars_eq(v: &Vec<char>, lit: &str) -> (b: bool)
    ensures
        b == (v@ == lit@),
{
    let w = chars_of(lit);
    if v.len() != w.len() {
        return false;
    }
    let mut i: usize = 0;
    while i < v.len()
        invariant
            v@.len() == w@.len(),
            w@ == lit@,
            i <= v@.len(),
            forall|j: int| 0 <= j < i ==> v@[j] == w@[j],
        decreases v@.len() - i,
    {
        if v[i] != w[i] {
            return false;
        }
        i = i + 1;
    }
    proof {
        assert(v@ =~= w@);
    }
    true
}

/// The `Auto` policy on the value of `TERM`.
fn auto_mode(term: Option<&str>) -> (m: SubcellGlyphMode)
    ensures
        m == auto_mode_of(match term { Some(t) => Some(t@), None => None }),
{
    match term {
        Some(t) => {
            let v = chars_of(t);
            if chars_eq(&v, "linux") {
                SubcellGlyphMode::HalfBlock1x2
            } else {
                SubcellGlyphMode::Braille2x4
            }
        },
        None => SubcellGlyphMode::Braille2x4,
    }
}

impl GlyphChoice {
    /// Parses `auto|braille|halfblock|block|ascii`, ignoring surrounding
    /// whitespace and ASCII case, with a few aliases; `None` for anything else.
    pub fn parse(s: &str) -> (r: Option<GlyphChoice>)
        ensures
            r == choice_named(normalized(s@)),
    {
        let n = normalize_chars(s);
        if chars_eq(&n, "auto") {
            Some(GlyphChoice::Auto)
        } else if chars_eq(&n, "braille") || chars_eq(&n, "braille2x4") {
            Some(GlyphChoice::Fixed(SubcellGlyphMode::Braille2x4))
        } else if chars_eq(&n, "halfblock") || chars_eq(&n, "half-block") || chars_eq(&n, "half") {
            Some(GlyphChoice::Fixed(SubcellGlyphMode::HalfBlock1x2))
        } else if chars_eq(&n, "block") || chars_eq(&n, "blocks") || chars_eq(&n, "shade") {
            Some(GlyphChoice::Fixed(SubcellGlyphMode::Block))
        } else if chars_eq(&n, "ascii") || chars_eq(&n, "text") {
            Some(GlyphChoice::Fixed(SubcellGlyphMode::Ascii))
        } else {
            None
        }
    }

    /// Resolves to a concrete mode; for `Auto`, `get_env` is asked for `TERM`.
    pub fn resolve<F: Fn(&str) -> Option<String>>(self, get_env: F) -> (m: SubcellGlyphMode)
        requires
            forall|k: &str| call_requires(get_env, (k,)),
        ensures
            self matches GlyphChoice::Fixed(f) ==> m == f,
            self is Auto ==> exists|t: Option<String>| call_ensures(get_env, ("TERM",), t) && m == auto_mode_of(opt_view(t)),
    {
        match self {
            GlyphChoice::Fixed(m) => m,
            GlyphChoice::Auto => {
                let t = get_env("TERM");
                let m = auto_mode(match &t { Some(v) => Some(v.as_str()), None => None });
                proof {
                    assert(m == auto_mode_of(opt_view(t)));
                }
                m
            },
        }
    }
}

/// The preference from the `--glyphs=` value and the value of
/// `LIBGIBSON_GLYPHS`: the command line wins over the environment, which wins
/// over `Auto`; an unrecognized explicit value is an error naming where it
/// came from.
pub open spec fn chosen(cli: Option<Seq<char>>, glyphs: Option<Seq<char>>) -> Result<GlyphChoice, Seq<char>> {
    match cli {
        Some(v) => match choice_named(normalized(v)) {
            Some(c) => Ok(c),
            None => Err("unknown --glyphs value: "@ + v),
        },
        None => match glyphs {
            Some(v) => match choice_named(normalized(v)) {
                Some(c) => Ok(c),
                None => Err("unknown LIBGIBSON_GLYPHS value: "@ + v),
            },
            None => Ok(GlyphChoice::Auto),
        },
    }
}

/// The outcome of glyph-mode detection from the `--glyphs=` value and the
/// values of `LIBGIBSON_GLYPHS` and `TERM`.
pub open spec fn detected_mode(cli: Option<Seq<char>>, glyphs: Option<Seq<char>>, term: Option<Seq<char>>) -> Result<SubcellGlyphMode, Seq<char>> {
    match chosen(cli, glyphs) {
        Ok(GlyphChoice::Fixed(m)) => Ok(m),
        Ok(GlyphChoice::Auto) => Ok(auto_mode_of(term)),
        Err(e) => Err(e),
    }
}

/// The view of a detection result.
pub open spec fn result_view(r: Result<SubcellGlyphMode, String>) -> Result<SubcellGlyphMode, Seq<char>> {
    match r {
        Ok(m) => Ok(m),
        Err(e) => Err(e@),
    }
}

/// The explicit choice, or the error for an unrecognized value.
fn explicit_choice(v: &str, prefix: &str) -> (r: Result<GlyphChoice, String>)
    ensures
        match choice_named(normalized(v@)) {
            Some(c) => r == Ok::<GlyphChoice, String>(c),
            None => r matches Err(e) && e@ == prefix@ + v@,
        },
{
    match GlyphChoice::parse(v) {
        Some(c) => Ok(c),
        None => {
            let mut msg = String::new();
            msg.append(prefix);
            msg.append(v);
            Err(msg)
        },
    }
}

/// Resolves the sub-cell glyph mode with precedence `cli` (the `--glyphs=`
/// value) over `LIBGIBSON_GLYPHS` over `Auto` (`TERM`), reading the
/// environment through `get_env`; an unrecognized explicit value is an error.
pub fn detect_glyph_mode<F: Fn(&str) -> Option<String>>(cli: Option<&str>, get_env: F) -> (r: Result<SubcellGlyphMode, String>)
    requires
        forall|k: &str| call_requires(get_env, (k,)),
    ensures
        exists|g: Option<String>, t: Option<String>| {
            &&& (cli is None ==> call_ensures(get_env, ("LIBGIBSON_GLYPHS",), g))
            &&& (chosen(match cli { Some(v) => Some(v@), None => None }, opt_view(g)) == Ok::<GlyphChoice, Seq<char>>(GlyphChoice::Auto)
                    ==> call_ensures(get_env, ("TERM",), t))
            &&& result_view(r) == detected_mode(match cli { Some(v) => Some(v@), None => None }, opt_view(g), opt_view(t))
        },
{
    let ghost cv = match cli { Some(v) => Some(v@), None => None };
    let mut g: Option<String> = None;
    let choice = match cli {
        Some(v) => explicit_choice(v, "unknown --glyphs value: "),
        None => {
            g = get_env("LIBGIBSON_GLYPHS");
            match &g {
                Some(v) => explicit_choice(v.as_str(), "unknown LIBGIBSON_GLYPHS value: "),
                None => Ok(GlyphChoice::Auto),
            }
        },
    };
    match choice {
        Ok(GlyphChoice::Fixed(m)) => {
            proof {
                assert(result_view(Ok(m)) == detected_mode(cv, opt_view(g), None));
            }
            Ok(m)
        },
        Ok(GlyphChoice::Auto) => {
            let t = get_env("TERM");
            let m = auto_mode(match &t { Some(v) => Some(v.as_str()), None => None });
            proof {
                assert(result_view(Ok(m)) == detected_mode(cv, opt_view(g), opt_view(t)));
            }
            Ok(m)
        },
        Err(e) => {
            proof {
                assert(result_view(Err(e)) == detected_mode(cv, opt_view(g), None));
            }
            Err(e)
        },
    }
}


/// The dot mask of a grapheme that is exactly one Braille code point
/// (`U+2800..=U+28FF`).
pub open spec fn braille_mask(g: Seq<char>) -> Option<u8> {
    if g.len() == 1 && 0x2800 <= (g[0] as u32) <= 0x28FF {
        Some(((g[0] as u32) - 0x2800) as u8)
    } else {
        None
    }
}

/// The mask carried by a single-character Braille grapheme.
fn braille_bits(g: &str) -> (r: Option<u8>)
    ensures
        r == braille_mask(g@),
{
    let v = chars_of(g);
    if v.len() != 1 {
        return None;
    }
    let u = v[0] as u32;
    if 0x2800 <= u && u <= 0x28FF {
        Some((u - 0x2800) as u8)
    } else {
        None
    }
}

/// Cell `c` is `d` re-realized in `mode`: an opaque, non-continuation
/// Braille cell gets the mode's glyph for its mask (a blank space for the
/// empty mask); every other cell, and every style, is kept.
pub open spec fn transcoded(c: crate::cell::Cell, d: crate::cell::Cell, mode: SubcellGlyphMode) -> bool {
    if mode == SubcellGlyphMode::Braille2x4 || d.is_continuation || d.transparent || braille_mask(d.glyph.grapheme@) is None {
        c == d
    } else {
        &&& c.style == d.style
        &&& c.is_continuation == d.is_continuation
        &&& c.transparent == d.transparent
        &&& c.style_only == d.style_only
        &&& match subcell_code(mode, braille_mask(d.glyph.grapheme@).unwrap()) {
            Some(code) => c.glyph.grapheme@.len() == 1 && c.glyph.grapheme@[0] as u32 == code
                && c.glyph.display_width == glyph_width(c.glyph.grapheme@),
            None => c.glyph.grapheme@ == seq![' '] && c.glyph.display_width == 1,
        }
    }
}

/// Re-realizes every Braille cell of `surface` in `mode`, in place, without
/// touching other content or any style; `Braille2x4` changes nothing.
pub fn transcode_surface_glyphs(surface: &mut Surface, mode: SubcellGlyphMode)
    ensures
        final(surface).width == old(surface).width,
        final(surface).height == old(surface).height,
        final(surface).cells@.len() == old(surface).cells@.len(),
        forall|i: int| 0 <= i < final(surface).cells@.len() ==>
            transcoded(#[trigger] final(surface).cells@[i], old(surface).cells@[i], mode),
{
    if mode == SubcellGlyphMode::Braille2x4 {
        return;
    }
    let ghost s0 = *surface;
    let mut i: usize = 0;
    while i < surface.cells.len()
        invariant
            mode != SubcellGlyphMode::Braille2x4,
            surface.width == s0.width,
            surface.height == s0.height,
            surface.cells@.len() == s0.cells@.len(),
            s0 == *old(surface),
            i <= surface.cells@.len(),
            forall|j: int| 0 <= j < surface.cells@.len() ==> if j < i {
                transcoded(#[trigger] surface.cells@[j], s0.cells@[j], mode)
            } else {
                surface.cells@[j] == s0.cells@[j]
            },
        decreases surface.cells@.len() - i,
    {
        let c = &surface.cells[i];
        if !c.is_continuation && !c.transparent {
            match braille_bits(c.glyph.grapheme.as_str()) {
                Some(bits) => {
                    let glyph = match mode.subcell_glyph(bits) {
                        Some(ch) => {
                            let mut t = String::new();
                            push_char(&mut t, ch);
                            Glyph::new(t.as_str())
                        },
                        None => Glyph::space(),
                    };
                    let mut d = c.duplicate();
                    d.glyph = glyph;
                    surface.cells.set(i, d);
                },
                None => {},
            }
        }
        i = i + 1;
    }
}

/// Every mode's name parses back to that mode.
pub proof fn lemma_parse_round_trips(mode: SubcellGlyphMode)
    ensures
        choice_named(normalized(mode_name(mode))) == Some(GlyphChoice::Fixed(mode)),
{
    reveal_strlit("auto");
    reveal_strlit("braille");
    reveal_strlit("braille2x4");
    reveal_strlit("halfblock");
    reveal_strlit("half-block");
    reveal_strlit("half");
    reveal_strlit("block");
    reveal_strlit("blocks");
    reveal_strlit("shade");
    reveal_strlit("ascii");
    reveal_strlit("text");
    let n = mode_name(mode);
    assert(trim_front(n) == n);
    assert(trim_back(n) == n);
    assert(n.map_values(|c: char| ascii_lower(c)) =~= n);
    assert(normalized(n) == n);
    match mode {
        SubcellGlyphMode::Braille2x4 => {
            assert(n != "auto"@);
        },
        SubcellGlyphMode::HalfBlock1x2 => {
            assert(n != "auto"@);
            assert(n != "braille"@ && n != "braille2x4"@);
        },
        SubcellGlyphMode::Block => {
            assert(n != "auto"@);
            assert(n != "braille"@ && n != "braille2x4"@);
            assert(n != "halfblock"@ && n != "half-block"@ && n != "half"@);
        },
        SubcellGlyphMode::Ascii => {
            assert(n != "auto"@);
            assert(n != "braille"@ && n != "braille2x4"@);
            assert(n != "halfblock"@ && n != "half-block"@ && n != "half"@);
            assert(n != "block"@ && n != "blocks"@ && n != "shade"@);
        },
    }
}


/// A Braille glyph carries its mask losslessly: the one-character grapheme
/// `U+2800 + mask` reads back as `mask`.
pub proof fn law_braille_glyph_round_trips(mask: u8, c: char)
    requires
        c as u32 == 0x2800 + mask,
    ensures
        braille_mask(seq![c]) == Some(mask),
{
}

} // verus!
