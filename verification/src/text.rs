//! Text primitives shared by the whole engine: Unicode display width and
//! grapheme segmentation (from the unicode crates), character building, and
//! decimal rendering of numbers for escape sequences.
use unicode_segmentation::UnicodeSegmentation;
use unicode_width::UnicodeWidthStr;
use vstd::prelude::*;

verus! {

/// Display width, in terminal columns, that `unicode_width` assigns to a string.
pub uninterp spec fn display_width_of(s: Seq<char>) -> nat;

/// The extended grapheme clusters that `unicode_segmentation` finds in a string.
pub uninterp spec fn grapheme_split(s: Seq<char>) -> Seq<Seq<char>>;

/// Concatenation of a sequence of strings.
pub open spec fn concat_all(parts: Seq<Seq<char>>) -> Seq<char>
    decreases parts.len(),
{
    if parts.len() == 0 {
        Seq::empty()
    } else {
        concat_all(parts.drop_last()) + parts.last()
    }
}

/// `UnicodeWidthStr::width`: the displayed width of `s` in columns.
#[verifier::external_body]
pub fn str_width(s: &str) -> (w: usize)
    ensures
        w == display_width_of(s@),
{
    UnicodeWidthStr::width(s)
}

/// `UnicodeSegmentation::graphemes(s, true)`: the extended grapheme clusters of
/// `s`, each handed out as an owned string. The clusters are non-empty and, in
/// order, make up `s` exactly.
#[verifier::external_body]
pub fn graphemes(s: &str) -> (g: Vec<String>)
    ensures
        g@.map_values(|x: String| x@) == grapheme_split(s@),
        concat_all(g@.map_values(|x: String| x@)) == s@,
        forall|i: int| 0 <= i < g@.len() ==> #[trigger] g@[i]@.len() > 0,
{
    s.graphemes(true).map(String::from).collect()
}

/// `String::push`: appends one character.
#[verifier::external_body]
pub fn push_char(s: &mut String, c: char)
    ensures
        final(s)@ == old(s)@.push(c),
{
    s.push(c);
}


/// `char::from_u32`: the character with scalar value `u`, when `u` is a valid
/// Unicode scalar value (at most `0x10FFFF` and outside the surrogate range).
#[verifier::external_body]
pub fn char_from_u32(u: u32) -> (c: Option<char>)
    ensures
        c is Some <==> (u <= 0x10FFFF && !(0xD800 <= u <= 0xDFFF)),
        c matches Some(ch) ==> ch as u32 == u,
{
    char::from_u32(u)
}

/// The ASCII digit for `d < 10`.
pub open spec fn digit_char(d: nat) -> char {
    (d + 48) as char
}

/// Decimal rendering of a natural number, most significant digit first.
pub open spec fn decimal(n: nat) -> Seq<char>
    decreases n,
{
    if n < 10 {
        seq![digit_char(n)]
    } else {
        decimal(n / 10).push(digit_char(n % 10))
    }
}

/// Appends the decimal rendering of `n` to `out`.
pub fn push_decimal(out: &mut String, n: u64)
    ensures
        final(out)@ == old(out)@ + decimal(n as nat),
    decreases n,
{
    if n >= 10 {
        push_decimal(out, n / 10);
    }
    let d: u8 = (n % 10) as u8;
    push_char(out, (d + 48) as char);
    proof {
        assert(old(out)@ + decimal(n as nat) =~= old(out)@ + (if n >= 10 { decimal((n / 10) as nat) } else { Seq::empty() }).push(digit_char((n % 10) as nat)));
    }
}

/// Strings joined with `;` in between, as in an SGR parameter list.
pub open spec fn join_semicolon(parts: Seq<Seq<char>>) -> Seq<char>
    decreases parts.len(),
{
    if parts.len() == 0 {
        Seq::empty()
    } else if parts.len() == 1 {
        parts[0]
    } else {
        join_semicolon(parts.drop_last()).push(';') + parts.last()
    }
}

/// Appends the parts joined with `;` to `out`.
pub fn append_joined(out: &mut String, parts: &Vec<String>)
    ensures
        final(out)@ == old(out)@ + join_semicolon(parts@.map_values(|x: String| x@)),
{
    let ghost views = parts@.map_values(|x: String| x@);
    let mut i: usize = 0;
    while i < parts.len()
        invariant
            i <= parts.len(),
            views == parts@.map_values(|x: String| x@),
            out@ == old(out)@ + join_semicolon(views.take(i as int)),
        decreases parts.len() - i,
    {
        if i > 0 {
            push_char(out, ';');
        }
        out.append(parts[i].as_str());
        proof {
            assert(views.take(i as int + 1).drop_last() =~= views.take(i as int));
            assert(views.take(i as int + 1).last() == views[i as int]);
            if i == 0 {
                assert(views.take(1) =~= seq![views[0]]);
            }
        }
        i = i + 1;
    }
    proof {
        assert(views.take(parts.len() as int) =~= views);
    }
}


/// The characters of `s`, in order.
pub fn chars_of(s: &str) -> (v: Vec<char>)
    ensures
        v@ == s@,
{
    broadcast use vstd::string::group_string_axioms;
    let mut v: Vec<char> = Vec::new();
    for c in it: s.chars()
        invariant
            v@ == it.seq().take(it.index() as int),
            it.seq() == s@,
    {
        v.push(c);
    }
    v
}


/// ASCII text as bytes.
pub open spec fn ascii_bytes(s: Seq<char>) -> Seq<u8> {
    s.map_values(|c: char| c as u8)
}

/// Appends the ASCII decimal rendering of `n`.
pub fn push_decimal_bytes(out: &mut Vec<u8>, n: u64)
    ensures
        final(out)@ == old(out)@ + ascii_bytes(decimal(n as nat)),
    decreases n,
{
    if n >= 10 {
        push_decimal_bytes(out, n / 10);
    }
    let d: u8 = (n % 10) as u8;
    out.push(d + 48);
    proof {
        let dec = decimal(n as nat);
        if n >= 10 {
            assert(dec == decimal((n / 10) as nat).push(digit_char((n % 10) as nat)));
            assert(ascii_bytes(dec) =~= ascii_bytes(decimal((n / 10) as nat)).push((d + 48) as u8));
        } else {
            assert(ascii_bytes(dec) =~= seq![(d + 48) as u8]);
        }
    }
}

/// Appends the bytes of `s` (ASCII text, one byte per character).
pub fn push_ascii(out: &mut Vec<u8>, s: &str)
    ensures
        final(out)@ == old(out)@ + ascii_bytes(s@),
{
    let cs = chars_of(s);
    let mut i: usize = 0;
    while i < cs.len()
        invariant
            i <= cs@.len(),
            cs@ == s@,
            out@ == old(out)@ + ascii_bytes(cs@.take(i as int)),
        decreases cs@.len() - i,
    {
        out.push(cs[i] as u8);
        proof {
            assert(ascii_bytes(cs@.take(i as int + 1)) =~= ascii_bytes(cs@.take(i as int)).push(cs@[i as int] as u8));
        }
        i = i + 1;
    }
    proof {
        assert(cs@.take(cs@.len() as int) =~= cs@);
    }
}

/// Appends a byte string.
pub fn push_bytes(out: &mut Vec<u8>, b: &[u8])
    ensures
        final(out)@ == old(out)@ + b@,
{
    let mut i: usize = 0;
    while i < b.len()
        invariant
            i <= b@.len(),
            out@ == old(out)@ + b@.take(i as int),
        decreases b@.len() - i,
    {
        out.push(b[i]);
        proof {
            assert(b@.take(i as int + 1) =~= b@.take(i as int).push(b@[i as int]));
        }
        i = i + 1;
    }
    proof {
        assert(b@.take(b@.len() as int) =~= b@);
    }
}
}
