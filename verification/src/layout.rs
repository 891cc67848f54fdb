//! Width-aware text wrapping: hard line breaks always split; within a line,
//! `CharWrap` breaks between grapheme clusters and `WordWrap` between words
//! (breaking inside a word only when it is wider than a whole line).
use crate::cell::{split_at_newlines, split_lines, Line, RichText, Span, Style, TextAlign};
use crate::node::{NodeKind, WrapMode};
use crate::text::{concat_all, display_width_of, grapheme_split, graphemes, push_char, str_width};
use vstd::prelude::*;

verus! {

/// The progress of a wrap: the finished lines, the line being filled, and
/// its width in columns.
pub type WrapState = (Seq<Seq<char>>, Seq<char>, int);

/// The display width of a piece of text.
pub open spec fn width_of(s: Seq<char>) -> int {
    display_width_of(s) as int
}

/// `s` without its trailing spaces.
pub open spec fn trim_spaces(s: Seq<char>) -> Seq<char>
    decreases s.len(),
{
    if s.len() > 0 && s.last() == ' ' { trim_spaces(s.drop_last()) } else { s }
}

/// `s` split after every space: each piece but the last ends with a space.
pub open spec fn split_after_spaces(s: Seq<char>) -> Seq<Seq<char>>
    decreases s.len(),
{
    if s.len() == 0 {
        Seq::empty()
    } else {
        let prev = split_after_spaces(s.drop_last());
        if prev.len() == 0 || prev.last().last() == ' ' {
            prev.push(seq![s.last()])
        } else {
            prev.update(prev.len() - 1, prev.last().push(s.last()))
        }
    }
}

/// Adds a piece `w` columns wide to the line being filled, first finishing
/// that line (as it is) when the piece would overflow `max` and the line is
/// not empty.
pub open spec fn char_step(st: WrapState, piece: Seq<char>, max: int) -> WrapState {
    let w = width_of(piece);
    if st.2 + w > max && st.2 > 0 {
        (st.0.push(st.1), piece, w)
    } else {
        (st.0, st.1 + piece, st.2 + w)
    }
}

/// Grapheme clusters added one by one.
pub open spec fn char_fold(st: WrapState, gs: Seq<Seq<char>>, max: int) -> WrapState
    decreases gs.len(),
{
    if gs.len() == 0 { st } else { char_step(char_fold(st, gs.drop_last(), max), gs.last(), max) }
}

/// Adds a word: when it would overflow a non-empty line, that line is
/// finished without its trailing spaces; a word wider than `max` is then
/// broken between its grapheme clusters.
pub open spec fn word_step(st: WrapState, word: Seq<char>, max: int) -> WrapState {
    let ww = width_of(word);
    let s1: WrapState = if st.2 + ww > max && st.2 > 0 { (st.0.push(trim_spaces(st.1)), Seq::empty(), 0) } else { st };
    if ww > max { char_fold(s1, grapheme_split(word), max) } else { (s1.0, s1.1 + word, s1.2 + ww) }
}

/// Words added one by one.
pub open spec fn word_fold(st: WrapState, words: Seq<Seq<char>>, max: int) -> WrapState
    decreases words.len(),
{
    if words.len() == 0 { st } else { word_step(word_fold(st, words.drop_last(), max), words.last(), max) }
}

/// The lines after wrapping one more raw line onto `acc`.
pub open spec fn wrap_line(acc: Seq<Seq<char>>, raw: Seq<char>, wrap: WrapMode, max: int) -> Seq<Seq<char>> {
    if raw.len() == 0 {
        acc.push(Seq::empty())
    } else {
        match wrap {
            WrapMode::NoWrap => acc.push(raw),
            WrapMode::CharWrap => {
                let st = char_fold((acc, Seq::empty(), 0), grapheme_split(raw), max);
                if st.1.len() > 0 || st.0.len() == 0 { st.0.push(st.1) } else { st.0 }
            },
            WrapMode::WordWrap => {
                let st = word_fold((acc, Seq::empty(), 0), split_after_spaces(raw), max);
                if st.1.len() > 0 { st.0.push(trim_spaces(st.1)) } else { st.0 }
            },
        }
    }
}

/// Raw lines wrapped one after another.
pub open spec fn wrap_lines(raws: Seq<Seq<char>>, wrap: WrapMode, max: int) -> Seq<Seq<char>>
    decreases raws.len(),
{
    if raws.len() == 0 { Seq::empty() } else { wrap_line(wrap_lines(raws.drop_last(), wrap, max), raws.last(), wrap, max) }
}

/// The wrapped lines of `text`: never empty (an empty text is one empty line).
pub open spec fn wrapped(text: Seq<char>, wrap: WrapMode, max: int) -> Seq<Seq<char>> {
    if text.len() == 0 {
        seq![Seq::empty()]
    } else {
        let ls = wrap_lines(split_lines(text), wrap, max);
        if ls.len() == 0 { seq![Seq::empty()] } else { ls }
    }
}


/// The views of owned strings.
pub open spec fn views(v: Seq<String>) -> Seq<Seq<char>> {
    v.map_values(|x: String| x@)
}

/// `s` without its trailing spaces.
fn trim_trailing_spaces(s: &String) -> (t: String)
    ensures
        t@ == trim_spaces(s@),
{
    let cs = crate::text::chars_of(s.as_str());
    let mut end: usize = cs.len();
    proof {
        assert(cs@.take(end as int) =~= cs@);
    }
    while end > 0 && cs[end - 1] == ' '
        invariant
            end <= cs@.len(),
            cs@ == s@,
            trim_spaces(s@) == trim_spaces(cs@.take(end as int)),
        decreases end,
    {
        proof {
            assert(cs@.take(end as int).drop_last() =~= cs@.take(end as int - 1));
        }
        end = end - 1;
    }
    let mut t = String::new();
    let mut i: usize = 0;
    while i < end
        invariant
            i <= end <= cs@.len(),
            t@ == cs@.take(i as int),
        decreases end - i,
    {
        push_char(&mut t, cs[i]);
        proof {
            assert(cs@.take(i as int + 1) =~= cs@.take(i as int).push(cs@[i as int]));
        }
        i = i + 1;
    }
    proof {
        assert(trim_spaces(cs@.take(end as int)) == cs@.take(end as int));
    }
    t
}

/// `s` split after every space.
fn split_after_spaces_exec(s: &str) -> (parts: Vec<String>)
    ensures
        views(parts@) == split_after_spaces(s@),
{
    let cs = crate::text::chars_of(s);
    let mut parts: Vec<String> = Vec::new();
    let mut i: usize = 0;
    while i < cs.len()
        invariant
            i <= cs@.len(),
            cs@ == s@,
            views(parts@) == split_after_spaces(cs@.take(i as int)),
        decreases cs@.len() - i,
    {
        let c = cs[i];
        let ghost prev = views(parts@);
        proof {
            assert(cs@.take(i as int + 1).drop_last() =~= cs@.take(i as int));
            assert(cs@.take(i as int + 1).last() == c);
        }
        let n = parts.len();
        let fresh = if n == 0 {
            true
        } else {
            let last = crate::text::chars_of(parts[n - 1].as_str());
            proof {
                assert(last@ == prev[n - 1]);
            }
            if last.len() == 0 { false } else { last[last.len() - 1] == ' ' }
        };
        proof {
            if n > 0 {
                assert(prev.last() == prev[n - 1]);
            }
        }
        if fresh {
            let mut t = String::new();
            push_char(&mut t, c);
            parts.push(t);
            proof {
                assert(views(parts@) =~= prev.push(seq![c]));
            }
        } else {
            let mut t = parts[n - 1].clone();
            proof {
                assert(t@ == prev[n - 1]);
            }
            push_char(&mut t, c);
            parts.set(n - 1, t);
            proof {
                assert(views(parts@) =~= prev.update(n - 1, prev.last().push(c)));
            }
        }
        i = i + 1;
    }
    proof {
        assert(cs@.take(cs@.len() as int) =~= cs@);
    }
    parts
}

/// Adds the grapheme clusters `gs` to the wrap state.
fn char_fold_exec(lines: &mut Vec<String>, cur: &mut String, cw: &mut usize, gs: &Vec<String>, max: usize)
    ensures
        (views(final(lines)@), final(cur)@, *final(cw) as int)
            == char_fold((views(old(lines)@), old(cur)@, *old(cw) as int), views(gs@), max as int),
{
    let ghost st0: WrapState = (views(lines@), cur@, *cw as int);
    let mut i: usize = 0;
    while i < gs.len()
        invariant
            i <= gs@.len(),
            st0 == (views(old(lines)@), old(cur)@, *old(cw) as int),
            (views(lines@), cur@, *cw as int) == char_fold(st0, views(gs@).take(i as int), max as int),
        decreases gs@.len() - i,
    {
        let w = str_width(gs[i].as_str());
        let ghost before: WrapState = (views(lines@), cur@, *cw as int);
        proof {
            assert(views(gs@).take(i as int + 1).drop_last() =~= views(gs@).take(i as int));
            assert(views(gs@).take(i as int + 1).last() == gs@[i as int]@);
        }
        if *cw > 0 && (*cw > max || w > max - *cw) {
            let done = cur.clone();
            lines.push(done);
            *cur = gs[i].clone();
            *cw = w;
            proof {
                assert(views(lines@) =~= before.0.push(before.1));
            }
        } else {
            cur.append(gs[i].as_str());
            proof {
                assert(*cw as int + w as int <= max || *cw == 0);
            }
            *cw = *cw + w;
        }
        i = i + 1;
    }
    proof {
        assert(views(gs@).take(gs@.len() as int) =~= views(gs@));
    }
}


/// Adds `words` to the wrap state.
fn word_fold_exec(lines: &mut Vec<String>, cur: &mut String, cw: &mut usize, words: &Vec<String>, max: usize)
    ensures
        (views(final(lines)@), final(cur)@, *final(cw) as int)
            == word_fold((views(old(lines)@), old(cur)@, *old(cw) as int), views(words@), max as int),
{
    let ghost st0: WrapState = (views(lines@), cur@, *cw as int);
    let mut i: usize = 0;
    while i < words.len()
        invariant
            i <= words@.len(),
            st0 == (views(old(lines)@), old(cur)@, *old(cw) as int),
            (views(lines@), cur@, *cw as int) == word_fold(st0, views(words@).take(i as int), max as int),
        decreases words@.len() - i,
    {
        let word = &words[i];
        let ww = str_width(word.as_str());
        let ghost before: WrapState = (views(lines@), cur@, *cw as int);
        proof {
            assert(views(words@).take(i as int + 1).drop_last() =~= views(words@).take(i as int));
            assert(views(words@).take(i as int + 1).last() == word@);
        }
        if *cw > 0 && (*cw > max || ww > max - *cw) {
            let t = trim_trailing_spaces(cur);
            lines.push(t);
            *cur = String::new();
            *cw = 0;
            proof {
                assert(views(lines@) =~= before.0.push(trim_spaces(before.1)));
            }
        }
        let ghost s1: WrapState = (views(lines@), cur@, *cw as int);
        if ww > max {
            let gs = graphemes(word.as_str());
            char_fold_exec(lines, cur, cw, &gs, max);
        } else {
            cur.append(word.as_str());
            *cw = *cw + ww;
        }
        i = i + 1;
    }
    proof {
        assert(views(words@).take(words@.len() as int) =~= views(words@));
    }
}

/// Wraps `text` into lines for `max_width` columns: hard line breaks always
/// split; `NoWrap` keeps each line whole, `CharWrap` breaks between grapheme
/// clusters, `WordWrap` between words (trailing spaces of a broken line are
/// dropped, and a word wider than a line is broken between its clusters).
/// The result is never empty.
pub fn wrap_text(text: &str, wrap: WrapMode, max_width: u16) -> (lines: Vec<String>)
    ensures
        views(lines@) == wrapped(text@, wrap, max_width as int),
{
    if text.is_empty() {
        let mut v: Vec<String> = Vec::new();
        v.push(String::new());
        proof {
            assert(views(v@) =~= seq![Seq::<char>::empty()]);
        }
        return v;
    }
    let max: usize = max_width as usize;
    let raws = split_at_newlines(text);
    let ghost rv = views(raws@);
    let mut lines: Vec<String> = Vec::new();
    let mut k: usize = 0;
    while k < raws.len()
        invariant
            k <= raws@.len(),
            max == max_width as usize,
            rv == views(raws@),
            rv == split_lines(text@),
            views(lines@) == wrap_lines(rv.take(k as int), wrap, max as int),
        decreases raws@.len() - k,
    {
        let raw = &raws[k];
        let ghost acc = views(lines@);
        proof {
            assert(rv.take(k as int + 1).drop_last() =~= rv.take(k as int));
            assert(rv.take(k as int + 1).last() == raw@);
        }
        if raw.as_str().is_empty() {
            lines.push(String::new());
            proof {
                assert(views(lines@) =~= acc.push(Seq::<char>::empty()));
            }
        } else {
            match wrap {
                WrapMode::NoWrap => {
                    lines.push(raw.clone());
                    proof {
                        assert(views(lines@) =~= acc.push(raw@));
                    }
                },
                WrapMode::CharWrap => {
                    let mut cur = String::new();
                    let mut cw: usize = 0;
                    let gs = graphemes(raw.as_str());
                    char_fold_exec(&mut lines, &mut cur, &mut cw, &gs, max);
                    if !cur.as_str().is_empty() || lines.len() == 0 {
                        let ghost l0 = views(lines@);
                        lines.push(cur);
                        proof {
                            assert(views(lines@) =~= l0.push(cur@));
                        }
                    }
                },
                WrapMode::WordWrap => {
                    let mut cur = String::new();
                    let mut cw: usize = 0;
                    let words = split_after_spaces_exec(raw.as_str());
                    word_fold_exec(&mut lines, &mut cur, &mut cw, &words, max);
                    if !cur.as_str().is_empty() {
                        let t = trim_trailing_spaces(&cur);
                        let ghost l0 = views(lines@);
                        lines.push(t);
                        proof {
                            assert(views(lines@) =~= l0.push(t@));
                        }
                    }
                },
            }
        }
        k = k + 1;
    }
    proof {
        assert(rv.take(raws@.len() as int) =~= rv);
    }
    if lines.len() == 0 {
        lines.push(String::new());
        proof {
            assert(views(lines@) =~= seq![Seq::<char>::empty()]);
        }
    }
    lines
}


/// A span as its text and style.
pub type SpanView = (Seq<char>, Style);

/// A line as its spans and alignment.
pub type LineView = (Seq<SpanView>, TextAlign);

/// The progress of a rich wrap: the finished lines, the spans of the line
/// being filled, and its width in columns.
pub type RichState = (Seq<LineView>, Seq<SpanView>, int);

/// The views of spans.
pub open spec fn spans_view(sp: Seq<Span>) -> Seq<SpanView> {
    sp.map_values(|x: Span| (x.text@, x.style))
}

/// The view of a line.
pub open spec fn line_view(l: Line) -> LineView {
    (spans_view(l.spans@), l.align)
}

/// The views of lines.
pub open spec fn lines_view(ls: Seq<Line>) -> Seq<LineView> {
    ls.map_values(|l: Line| line_view(l))
}

/// Adds a piece in `style` as a span of its own, first finishing the line
/// being filled (aligned `a`) when the piece would overflow `max` and the
/// line is not empty.
pub open spec fn rich_char_step(st: RichState, piece: Seq<char>, style: Style, a: TextAlign, max: int) -> RichState {
    let w = width_of(piece);
    if st.2 + w > max && st.2 > 0 {
        (st.0.push((st.1, a)), seq![(piece, style)], w)
    } else {
        (st.0, st.1.push((piece, style)), st.2 + w)
    }
}

/// Grapheme clusters in `style` added one by one.
pub open spec fn rich_char_fold(st: RichState, gs: Seq<Seq<char>>, style: Style, a: TextAlign, max: int) -> RichState
    decreases gs.len(),
{
    if gs.len() == 0 { st } else { rich_char_step(rich_char_fold(st, gs.drop_last(), style, a, max), gs.last(), style, a, max) }
}

/// Adds a word in `style`: when it would overflow a non-empty line, that line
/// is finished; a lone space at the start of a line is dropped; a word wider
/// than `max` is broken between its grapheme clusters.
pub open spec fn rich_word_step(st: RichState, word: Seq<char>, style: Style, a: TextAlign, max: int) -> RichState {
    let ww = width_of(word);
    let s1: RichState = if st.2 + ww > max && st.2 > 0 { (st.0.push((st.1, a)), Seq::empty(), 0) } else { st };
    if word == seq![' '] && s1.2 == 0 {
        s1
    } else if ww > max {
        rich_char_fold(s1, grapheme_split(word), style, a, max)
    } else {
        (s1.0, s1.1.push((word, style)), s1.2 + ww)
    }
}

/// Words in `style` added one by one.
pub open spec fn rich_word_fold(st: RichState, words: Seq<Seq<char>>, style: Style, a: TextAlign, max: int) -> RichState
    decreases words.len(),
{
    if words.len() == 0 { st } else { rich_word_step(rich_word_fold(st, words.drop_last(), style, a, max), words.last(), style, a, max) }
}

/// The spans of a line added one by one, by grapheme (`CharWrap`) or by word.
pub open spec fn spans_fold(st: RichState, spans: Seq<SpanView>, by_word: bool, a: TextAlign, max: int) -> RichState
    decreases spans.len(),
{
    if spans.len() == 0 {
        st
    } else {
        let s0 = spans_fold(st, spans.drop_last(), by_word, a, max);
        let sp = spans.last();
        if by_word {
            rich_word_fold(s0, split_after_spaces(sp.0), sp.1, a, max)
        } else {
            rich_char_fold(s0, grapheme_split(sp.0), sp.1, a, max)
        }
    }
}

/// The lines after wrapping one more source line onto `acc`.
pub open spec fn rich_wrap_line(acc: Seq<LineView>, line: LineView, wrap: WrapMode, max: int) -> Seq<LineView> {
    let a = line.1;
    if line.0.len() == 0 {
        acc.push((Seq::empty(), a))
    } else {
        match wrap {
            WrapMode::NoWrap => acc.push(line),
            WrapMode::CharWrap => {
                let st = spans_fold((acc, Seq::empty(), 0), line.0, false, a, max);
                if st.1.len() > 0 || st.0.len() == 0 { st.0.push((st.1, a)) } else { st.0 }
            },
            WrapMode::WordWrap => {
                let st = spans_fold((acc, Seq::empty(), 0), line.0, true, a, max);
                if st.1.len() > 0 { st.0.push((st.1, a)) } else { st.0 }
            },
        }
    }
}

/// Source lines wrapped one after another.
pub open spec fn rich_wrap_lines(ls: Seq<LineView>, wrap: WrapMode, max: int) -> Seq<LineView>
    decreases ls.len(),
{
    if ls.len() == 0 { Seq::empty() } else { rich_wrap_line(rich_wrap_lines(ls.drop_last(), wrap, max), ls.last(), wrap, max) }
}

/// The wrapped lines of rich text: never empty (no line gives one empty,
/// left-aligned line).
pub open spec fn rich_wrapped(ls: Seq<LineView>, wrap: WrapMode, max: int) -> Seq<LineView> {
    let out = rich_wrap_lines(ls, wrap, max);
    if ls.len() == 0 || out.len() == 0 { seq![(Seq::empty(), TextAlign::Left)] } else { out }
}

/// An exact copy of a span.
fn copy_span(sp: &Span) -> (c: Span)
    ensures
        c.text@ == sp.text@,
        c.style == sp.style,
{
    Span { text: sp.text.clone(), style: sp.style }
}

/// An exact copy of a line.
fn copy_line(l: &Line) -> (c: Line)
    ensures
        line_view(c) == line_view(*l),
{
    let mut spans: Vec<Span> = Vec::new();
    let mut i: usize = 0;
    while i < l.spans.len()
        invariant
            i <= l.spans@.len(),
            spans_view(spans@) == spans_view(l.spans@).take(i as int),
        decreases l.spans@.len() - i,
    {
        let c = copy_span(&l.spans[i]);
        let ghost before = spans@;
        spans.push(c);
        proof {
            assert(spans@ == before.push(c));
            assert(spans_view(spans@) =~= spans_view(before).push((c.text@, c.style)));
            assert(spans_view(spans@) =~= spans_view(l.spans@).take(i as int + 1));
        }
        i = i + 1;
    }
    proof {
        assert(spans_view(l.spans@).take(l.spans@.len() as int) =~= spans_view(l.spans@));
    }
    Line { spans, align: l.align }
}

/// Adds grapheme clusters in `style` to the rich wrap state.
fn rich_char_fold_exec(lines: &mut Vec<Line>, cur: &mut Line, cw: &mut usize, gs: &Vec<String>, style: Style, max: usize)
    ensures
        final(cur).align == old(cur).align,
        (lines_view(final(lines)@), spans_view(final(cur).spans@), *final(cw) as int)
            == rich_char_fold((lines_view(old(lines)@), spans_view(old(cur).spans@), *old(cw) as int), views(gs@), style, old(cur).align, max as int),
{
    let ghost st0: RichState = (lines_view(lines@), spans_view(cur.spans@), *cw as int);
    let a = cur.align;
    let mut i: usize = 0;
    while i < gs.len()
        invariant
            i <= gs@.len(),
            a == old(cur).align,
            cur.align == a,
            st0 == (lines_view(old(lines)@), spans_view(old(cur).spans@), *old(cw) as int),
            (lines_view(lines@), spans_view(cur.spans@), *cw as int) == rich_char_fold(st0, views(gs@).take(i as int), style, a, max as int),
        decreases gs@.len() - i,
    {
        let g = &gs[i];
        let w = str_width(g.as_str());
        let ghost before: RichState = (lines_view(lines@), spans_view(cur.spans@), *cw as int);
        proof {
            assert(views(gs@).take(i as int + 1).drop_last() =~= views(gs@).take(i as int));
            assert(views(gs@).take(i as int + 1).last() == g@);
        }
        if *cw > 0 && (*cw > max || w > max - *cw) {
            let mut fresh = Line::new().align(a);
            fresh.push(Span::styled(g.as_str(), style));
            let done = copy_line(cur);
            *cur = fresh;
            lines.push(done);
            *cw = w;
            proof {
                assert(lines_view(lines@) =~= before.0.push((before.1, a)));
                assert(spans_view(cur.spans@) =~= seq![(g@, style)]);
            }
        } else {
            cur.push(Span::styled(g.as_str(), style));
            *cw = *cw + w;
            proof {
                assert(spans_view(cur.spans@) =~= before.1.push((g@, style)));
            }
        }
        i = i + 1;
    }
    proof {
        assert(views(gs@).take(gs@.len() as int) =~= views(gs@));
    }
}


/// Adds words in `style` to the rich wrap state.
fn rich_word_fold_exec(lines: &mut Vec<Line>, cur: &mut Line, cw: &mut usize, words: &Vec<String>, style: Style, max: usize)
    ensures
        final(cur).align == old(cur).align,
        (lines_view(final(lines)@), spans_view(final(cur).spans@), *final(cw) as int)
            == rich_word_fold((lines_view(old(lines)@), spans_view(old(cur).spans@), *old(cw) as int), views(words@), style, old(cur).align, max as int),
{
    let ghost st0: RichState = (lines_view(lines@), spans_view(cur.spans@), *cw as int);
    let a = cur.align;
    let mut i: usize = 0;
    while i < words.len()
        invariant
            i <= words@.len(),
            a == old(cur).align,
            cur.align == a,
            st0 == (lines_view(old(lines)@), spans_view(old(cur).spans@), *old(cw) as int),
            (lines_view(lines@), spans_view(cur.spans@), *cw as int) == rich_word_fold(st0, views(words@).take(i as int), style, a, max as int),
        decreases words@.len() - i,
    {
        let word = &words[i];
        let ww = str_width(word.as_str());
        let ghost before: RichState = (lines_view(lines@), spans_view(cur.spans@), *cw as int);
        proof {
            assert(views(words@).take(i as int + 1).drop_last() =~= views(words@).take(i as int));
            assert(views(words@).take(i as int + 1).last() == word@);
        }
        if *cw > 0 && (*cw > max || ww > max - *cw) {
            let done = copy_line(cur);
            *cur = Line::new().align(a);
            lines.push(done);
            *cw = 0;
            proof {
                assert(lines_view(lines@) =~= before.0.push((before.1, a)));
                assert(spans_view(cur.spans@) =~= Seq::<SpanView>::empty());
            }
        }
        let wc = crate::text::chars_of(word.as_str());
        let lone_space = wc.len() == 1 && wc[0] == ' ';
        proof {
            if wc@.len() == 1 && wc@[0] == ' ' {
                assert(word@ =~= seq![' ']);
            }
        }
        if lone_space && *cw == 0 {
        } else if ww > max {
            let gs = graphemes(word.as_str());
            rich_char_fold_exec(lines, cur, cw, &gs, style, max);
        } else {
            let ghost s1 = spans_view(cur.spans@);
            cur.push(Span::styled(word.as_str(), style));
            *cw = *cw + ww;
            proof {
                assert(spans_view(cur.spans@) =~= s1.push((word@, style)));
            }
        }
        i = i + 1;
    }
    proof {
        assert(views(words@).take(words@.len() as int) =~= views(words@));
    }
}

/// Wraps rich text into lines for `max_width` columns, keeping span styles
/// and each source line's alignment: `NoWrap` keeps lines whole, `CharWrap`
/// breaks between grapheme clusters (one span per cluster), `WordWrap`
/// between words (a lone space at the start of a line is dropped, and a word
/// wider than a line is broken between its clusters). The result is never
/// empty.
pub fn wrap_rich_text(rich: &RichText, wrap: WrapMode, max_width: u16) -> (out: Vec<Line>)
    ensures
        lines_view(out@) == rich_wrapped(lines_view(rich.lines@), wrap, max_width as int),
{
    let max: usize = max_width as usize;
    let ghost src = lines_view(rich.lines@);
    let mut result: Vec<Line> = Vec::new();
    let mut k: usize = 0;
    while k < rich.lines.len()
        invariant
            k <= rich.lines@.len(),
            max == max_width as usize,
            src == lines_view(rich.lines@),
            lines_view(result@) == rich_wrap_lines(src.take(k as int), wrap, max as int),
        decreases rich.lines@.len() - k,
    {
        let line = &rich.lines[k];
        let a = line.align;
        let ghost acc = lines_view(result@);
        proof {
            assert(src.take(k as int + 1).drop_last() =~= src.take(k as int));
            assert(src.take(k as int + 1).last() == line_view(*line));
        }
        if line.spans.len() == 0 {
            let fresh = Line::new().align(a);
            proof {
                assert(spans_view(fresh.spans@) =~= Seq::<SpanView>::empty());
            }
            result.push(fresh);
            proof {
                assert(lines_view(result@) =~= acc.push((Seq::<SpanView>::empty(), a)));
            }
        } else {
            match wrap {
                WrapMode::NoWrap => {
                    result.push(copy_line(line));
                    proof {
                        assert(lines_view(result@) =~= acc.push(line_view(*line)));
                    }
                },
                _ => {
                    let by_word = wrap == WrapMode::WordWrap;
                    let mut cur = Line::new().align(a);
                    let mut cw: usize = 0;
                    let ghost st0: RichState = (acc, Seq::<SpanView>::empty(), 0int);
                    let mut j: usize = 0;
                    while j < line.spans.len()
                        invariant
                            j <= line.spans@.len(),
                            cur.align == a,
                            a == line.align,
                            st0 == (acc, Seq::<SpanView>::empty(), 0int),
                            (lines_view(result@), spans_view(cur.spans@), cw as int)
                                == spans_fold(st0, spans_view(line.spans@).take(j as int), by_word, a, max as int),
                        decreases line.spans@.len() - j,
                    {
                        let sp = &line.spans[j];
                        proof {
                            assert(spans_view(line.spans@).take(j as int + 1).drop_last() =~= spans_view(line.spans@).take(j as int));
                            assert(spans_view(line.spans@).take(j as int + 1).last() == (sp.text@, sp.style));
                        }
                        if by_word {
                            let words = split_after_spaces_exec(sp.text.as_str());
                            rich_word_fold_exec(&mut result, &mut cur, &mut cw, &words, sp.style, max);
                        } else {
                            let gs = graphemes(sp.text.as_str());
                            rich_char_fold_exec(&mut result, &mut cur, &mut cw, &gs, sp.style, max);
                        }
                        j = j + 1;
                    }
                    proof {
                        assert(spans_view(line.spans@).take(line.spans@.len() as int) =~= spans_view(line.spans@));
                    }
                    let keep = if by_word { cur.spans.len() > 0 } else { cur.spans.len() > 0 || result.len() == 0 };
                    if keep {
                        let ghost l0 = lines_view(result@);
                        let ghost cv = spans_view(cur.spans@);
                        result.push(cur);
                        proof {
                            assert(lines_view(result@) =~= l0.push((cv, a)));
                        }
                    }
                },
            }
        }
        k = k + 1;
    }
    proof {
        assert(src.take(rich.lines@.len() as int) =~= src);
    }
    if result.len() == 0 {
        let fresh = Line::new();
        proof {
            assert(spans_view(fresh.spans@) =~= Seq::<SpanView>::empty());
        }
        result.push(fresh);
        proof {
            assert(lines_view(result@) =~= seq![(Seq::<SpanView>::empty(), TextAlign::Left)]);
        }
    }
    result
}


/// The wrapped text is never empty.
pub proof fn law_wrapped_is_never_empty(text: Seq<char>, wrap: WrapMode, max: int)
    ensures
        wrapped(text, wrap, max).len() >= 1,
{
}

proof fn lemma_concat_push(ls: Seq<Seq<char>>, x: Seq<char>)
    ensures
        concat_all(ls.push(x)) == concat_all(ls) + x,
{
    assert(ls.push(x).drop_last() =~= ls);
}

proof fn lemma_char_fold_keeps_text(st: WrapState, gs: Seq<Seq<char>>, max: int)
    ensures
        concat_all(char_fold(st, gs, max).0) + char_fold(st, gs, max).1 == concat_all(st.0) + st.1 + concat_all(gs),
    decreases gs.len(),
{
    if gs.len() == 0 {
        assert(concat_all(gs) =~= Seq::<char>::empty());
        assert(concat_all(st.0) + st.1 + Seq::<char>::empty() =~= concat_all(st.0) + st.1);
    } else {
        lemma_char_fold_keeps_text(st, gs.drop_last(), max);
        let s0 = char_fold(st, gs.drop_last(), max);
        let g = gs.last();
        lemma_concat_push(s0.0, s0.1);
        assert(concat_all(gs) == concat_all(gs.drop_last()) + g);
        if s0.2 + width_of(g) > max && s0.2 > 0 {
            assert(concat_all(s0.0.push(s0.1)) + g =~= concat_all(s0.0) + s0.1 + g);
        } else {
            assert(concat_all(s0.0) + (s0.1 + g) =~= concat_all(s0.0) + s0.1 + g);
        }
        assert(concat_all(st.0) + st.1 + concat_all(gs) =~= concat_all(st.0) + st.1 + concat_all(gs.drop_last()) + g);
    }
}

/// Breaking a line between grapheme clusters loses and adds nothing: the
/// wrapped lines, concatenated, are the line's clusters concatenated.
pub proof fn law_char_wrap_keeps_text(raw: Seq<char>, max: int)
    requires
        raw.len() > 0,
    ensures
        concat_all(wrap_line(Seq::empty(), raw, WrapMode::CharWrap, max)) == concat_all(grapheme_split(raw)),
{
    let st0: WrapState = (Seq::empty(), Seq::empty(), 0);
    lemma_char_fold_keeps_text(st0, grapheme_split(raw), max);
    let st = char_fold(st0, grapheme_split(raw), max);
    assert(concat_all(Seq::<Seq<char>>::empty()) =~= Seq::<char>::empty());
    assert(Seq::<char>::empty() + Seq::<char>::empty() + concat_all(grapheme_split(raw)) =~= concat_all(grapheme_split(raw)));
    if st.1.len() > 0 || st.0.len() == 0 {
        lemma_concat_push(st.0, st.1);
    } else {
        assert(concat_all(st.0) + st.1 =~= concat_all(st.0));
    }
}


/// The summed widths of pieces of text.
pub open spec fn pieces_width(ps: Seq<Seq<char>>) -> int
    decreases ps.len(),
{
    if ps.len() == 0 { 0 } else { pieces_width(ps.drop_last()) + width_of(ps.last()) }
}

proof fn lemma_pieces_width_nonneg(ps: Seq<Seq<char>>)
    ensures
        pieces_width(ps) >= 0,
    decreases ps.len(),
{
    if ps.len() > 0 {
        lemma_pieces_width_nonneg(ps.drop_last());
    }
}

/// Words that fit together on the line being filled stay on it, whatever
/// came before: adding them breaks no line, and the line grows by exactly
/// their text and their widths.
pub proof fn law_fitting_words_stay_together(st: WrapState, words: Seq<Seq<char>>, max: int)
    requires
        st.2 >= 0,
        st.2 + pieces_width(words) <= max,
    ensures
        word_fold(st, words, max) == (st.0, st.1 + concat_all(words), st.2 + pieces_width(words)),
    decreases words.len(),
{
    if words.len() == 0 {
        assert(st.1 + concat_all(words) =~= st.1);
    } else {
        lemma_pieces_width_nonneg(words.drop_last());
        law_fitting_words_stay_together(st, words.drop_last(), max);
        let w = words.last();
        assert(st.1 + concat_all(words.drop_last()) + w =~= st.1 + concat_all(words));
    }
}

/// Grapheme clusters that fit together on the line being filled stay on it:
/// adding them breaks no line.
pub proof fn law_fitting_clusters_stay_together(st: WrapState, gs: Seq<Seq<char>>, max: int)
    requires
        st.2 >= 0,
        st.2 + pieces_width(gs) <= max,
    ensures
        char_fold(st, gs, max) == (st.0, st.1 + concat_all(gs), st.2 + pieces_width(gs)),
    decreases gs.len(),
{
    if gs.len() == 0 {
        assert(st.1 + concat_all(gs) =~= st.1);
    } else {
        lemma_pieces_width_nonneg(gs.drop_last());
        law_fitting_clusters_stay_together(st, gs.drop_last(), max);
        let g = gs.last();
        assert(st.1 + concat_all(gs.drop_last()) + g =~= st.1 + concat_all(gs));
    }
}

/// Word wrapping breaks a line before a word (no wider than a line) exactly
/// when the line is not empty and the word would take it past `max`; a word
/// that fits is appended to the line.
pub proof fn law_word_wrap_breaks_only_on_overflow(st: WrapState, word: Seq<char>, max: int)
    requires
        width_of(word) <= max,
    ensures
        (word_step(st, word, max).0.len() > st.0.len()) == (st.2 > 0 && st.2 + width_of(word) > max),
        st.2 + width_of(word) <= max ==> word_step(st, word, max) == (st.0, st.1 + word, st.2 + width_of(word)),
        (st.2 > 0 && st.2 + width_of(word) > max) ==> word_step(st, word, max) == (st.0.push(trim_spaces(st.1)), word, width_of(word)),
{
    assert(Seq::<char>::empty() + word =~= word);
}

/// Trimming removes exactly the trailing spaces: what is left is a prefix
/// that does not end with a space, and everything removed is a space.
pub proof fn law_trim_removes_only_trailing_spaces(s: Seq<char>)
    ensures
        trim_spaces(s).len() <= s.len(),
        s.take(trim_spaces(s).len() as int) == trim_spaces(s),
        trim_spaces(s).len() == 0 || trim_spaces(s).last() != ' ',
        forall|i: int| trim_spaces(s).len() <= i < s.len() ==> s[i] == ' ',
    decreases s.len(),
{
    if s.len() > 0 && s.last() == ' ' {
        law_trim_removes_only_trailing_spaces(s.drop_last());
        let t = trim_spaces(s.drop_last());
        assert(s.take(t.len() as int) =~= s.drop_last().take(t.len() as int));
        assert forall|i: int| t.len() <= i < s.len() implies s[i] == ' ' by {
            if i < s.len() - 1 {
                assert(s[i] == s.drop_last()[i]);
            }
        }
    } else {
        assert(s.take(s.len() as int) =~= s);
    }
}

/// Character wrapping breaks a line before a cluster exactly when the line
/// is not empty and the cluster would take it past `max`; a cluster that
/// fits is appended to the line.
pub proof fn law_char_wrap_breaks_only_on_overflow(st: WrapState, g: Seq<char>, max: int)
    ensures
        (char_step(st, g, max).0.len() > st.0.len()) == (st.2 > 0 && st.2 + width_of(g) > max),
        st.2 > 0 && st.2 + width_of(g) > max ==> char_step(st, g, max) == (st.0.push(st.1), g, width_of(g)),
        !(st.2 > 0 && st.2 + width_of(g) > max) ==> char_step(st, g, max) == (st.0, st.1 + g, st.2 + width_of(g)),
{
}

/// Splitting after spaces loses and adds nothing.
proof fn lemma_split_after_spaces_concat(s: Seq<char>)
    ensures
        concat_all(split_after_spaces(s)) == s,
    decreases s.len(),
{
    if s.len() > 0 {
        lemma_split_after_spaces_concat(s.drop_last());
        let prev = split_after_spaces(s.drop_last());
        if prev.len() == 0 || prev.last().last() == ' ' {
            assert(prev.push(seq![s.last()]).drop_last() =~= prev);
            assert(s.drop_last() + seq![s.last()] =~= s);
        } else {
            let up = prev.update(prev.len() - 1, prev.last().push(s.last()));
            assert(up.drop_last() =~= prev.drop_last());
            assert(concat_all(prev) == concat_all(prev.drop_last()) + prev.last());
            assert(up.last() == prev.last().push(s.last()));
            assert(concat_all(up) == concat_all(up.drop_last()) + up.last());
            assert(concat_all(prev.drop_last()) + prev.last() == s.drop_last());
            assert(concat_all(prev.drop_last()) + prev.last().push(s.last()) =~= (concat_all(prev.drop_last()) + prev.last()).push(s.last()));
            assert(s.drop_last().push(s.last()) =~= s);
        }
    }
}

/// A text without line breaks is one raw line.
proof fn lemma_split_lines_single(s: Seq<char>)
    requires
        !s.contains('\n'),
    ensures
        split_lines(s) == seq![s],
    decreases s.len(),
{
    if s.len() > 0 {
        assert(!s.drop_last().contains('\n')) by {
            if s.drop_last().contains('\n') {
                let i = choose|i: int| 0 <= i < s.drop_last().len() && s.drop_last()[i] == '\n';
                assert(s[i] == '\n');
            }
        }
        lemma_split_lines_single(s.drop_last());
        assert(s.last() != '\n') by {
            assert(s[s.len() - 1] == s.last());
        }
        assert(s.drop_last().push(s.last()) =~= s);
        let prev = split_lines(s.drop_last());
        assert(prev.len() - 1 == 0 && prev.last() == s.drop_last());
        assert(prev.update(0, s.drop_last().push(s.last())) =~= seq![s]);
    } else {
        assert(s =~= Seq::<char>::empty());
    }
}

/// A line whose words fit in `max` columns together is never broken: word
/// wrapping gives it back as one line, without its trailing spaces.
pub proof fn law_fitting_line_is_kept_whole(raw: Seq<char>, max: int)
    requires
        raw.len() > 0,
        !raw.contains('\n'),
        pieces_width(split_after_spaces(raw)) <= max,
    ensures
        wrapped(raw, WrapMode::WordWrap, max) == seq![trim_spaces(raw)],
{
    lemma_split_lines_single(raw);
    lemma_split_after_spaces_concat(raw);
    let st0: WrapState = (Seq::empty(), Seq::empty(), 0);
    law_fitting_words_stay_together(st0, split_after_spaces(raw), max);
    assert(Seq::<char>::empty() + raw =~= raw);
    assert(seq![raw].drop_last() =~= Seq::<Seq<char>>::empty());
    assert(seq![raw].last() == raw);
    assert(wrap_lines(seq![raw].drop_last(), WrapMode::WordWrap, max) == Seq::<Seq<char>>::empty());
    assert(wrap_lines(seq![raw], WrapMode::WordWrap, max) == wrap_line(Seq::empty(), raw, WrapMode::WordWrap, max));
}

/// `n` as a `u32`, saturating at `u32::MAX`.
pub open spec fn clamp_u32(n: int) -> u32 {
    if n >= u32::MAX { u32::MAX } else if n <= 0 { 0 } else { n as u32 }
}

/// The width of the widest of `lines`.
pub open spec fn widest(lines: Seq<Seq<char>>) -> nat
    decreases lines.len(),
{
    if lines.len() == 0 {
        0
    } else {
        let w = display_width_of(lines.last());
        let rest = widest(lines.drop_last());
        if w > rest { w } else { rest }
    }
}

/// The summed width of the spans of a line.
pub open spec fn span_views_width(sp: Seq<SpanView>) -> nat
    decreases sp.len(),
{
    if sp.len() == 0 { 0 } else { span_views_width(sp.drop_last()) + display_width_of(sp.last().0) }
}

/// The width of the widest of the rich lines `ls`.
pub open spec fn widest_rich(ls: Seq<LineView>) -> nat
    decreases ls.len(),
{
    if ls.len() == 0 {
        0
    } else {
        let w = span_views_width(ls.last().0);
        let rest = widest_rich(ls.drop_last());
        if w > rest { w } else { rest }
    }
}

/// The columns that text is wrapped to while measuring: the available width,
/// at least one, or 1000 where no width is given.
pub open spec fn wrap_columns(available_width: Option<u16>) -> int {
    match available_width {
        Some(w) => if w >= 1 { w as int } else { 1 },
        None => 1000,
    }
}

/// The intrinsic content size (columns, rows) of a leaf of `kind` given the
/// width available to it, saturating at `u32::MAX`.
pub open spec fn leaf_content_size(kind: NodeKind, available_width: Option<u16>) -> (u32, u32) {
    match kind {
        NodeKind::Text { text, wrap, .. } => {
            let ls = wrapped(text@, wrap, wrap_columns(available_width));
            (clamp_u32(widest(ls) as int), clamp_u32(ls.len() as int))
        },
        NodeKind::RichText { text, wrap } => {
            let ls = rich_wrapped(lines_view(text.lines@), wrap, wrap_columns(available_width));
            (clamp_u32(widest_rich(ls) as int), clamp_u32(ls.len() as int))
        },
        NodeKind::Rule { title, .. } => (
            match title {
                Some(t) => clamp_u32(display_width_of(t@) as int + 6),
                None => 4u32,
            },
            1u32,
        ),
        NodeKind::Rail { .. } => (2u32, 1u32),
        NodeKind::Spinner { frames, frame_index, label, .. } => {
            let fw = if frames@.len() > 0 {
                display_width_of(frames@[(frame_index as int) % (frames@.len() as int)]@) as int
            } else {
                display_width_of(seq![' ']) as int
            };
            let total = match label {
                Some(l) => fw + 1 + display_width_of(l@) as int,
                None => fw,
            };
            (clamp_u32(total), 1u32)
        },
        NodeKind::TextInput { value, placeholder, .. } => {
            let vw = display_width_of(value@) as int;
            let pw: int = match placeholder {
                Some(p) => display_width_of(p@) as int,
                None => 0,
            };
            let content = (if vw > pw { vw } else { pw }) + 1;
            (clamp_u32(if content > 10 { content } else { 10 }), 1u32)
        },
        NodeKind::Border { .. } => (2u32, 2u32),
        NodeKind::Box { border, .. } => if border is Some { (2u32, 2u32) } else { (0u32, 0u32) },
        NodeKind::Stack => (0u32, 0u32),
        NodeKind::Dim => (0u32, 0u32),
        NodeKind::Viewport { .. } => (0u32, 0u32),
        NodeKind::Raster { surface } => (surface.width as u32, surface.height as u32),
    }
}

/// `n` as a `u32`, saturating.
fn clamp_to_u32(n: u64) -> (r: u32)
    ensures
        r == clamp_u32(n as int),
{
    if n >= 0xFFFF_FFFFu64 { 0xFFFF_FFFFu32 } else { n as u32 }
}

/// `a + b`, saturating at `u32::MAX` (given in `u64`).
fn add_clamped(a: u64, b: u64) -> (r: u64)
    requires
        a <= u32::MAX,
        b <= u32::MAX,
    ensures
        r == clamp_u32(a + b) as int,
{
    if a + b >= 0xFFFF_FFFFu64 { 0xFFFF_FFFFu64 } else { a + b }
}

/// The widest of the plain text lines, saturating at `u32::MAX`.
fn widest_line(lines: &Vec<String>) -> (w: u32)
    ensures
        w == clamp_u32(widest(views(lines@)) as int),
{
    let ghost vs = views(lines@);
    let mut best: u32 = 0;
    let mut i: usize = 0;
    while i < lines.len()
        invariant
            i <= lines@.len(),
            vs == views(lines@),
            best == clamp_u32(widest(vs.take(i as int)) as int),
        decreases lines@.len() - i,
    {
        let w = clamp_to_u32(str_width(lines[i].as_str()) as u64);
        proof {
            assert(vs.take(i + 1).drop_last() =~= vs.take(i as int));
            assert(vs.take(i + 1).last() == lines@[i as int]@);
        }
        if w > best {
            best = w;
        }
        i = i + 1;
    }
    proof {
        assert(vs.take(lines@.len() as int) =~= vs);
    }
    best
}

/// The summed width of a line's spans, saturating at `u32::MAX`.
fn line_width_clamped(line: &Line) -> (w: u64)
    ensures
        w == clamp_u32(span_views_width(spans_view(line.spans@)) as int) as int,
{
    let ghost sv = spans_view(line.spans@);
    let mut w: u64 = 0;
    let mut j: usize = 0;
    while j < line.spans.len()
        invariant
            j <= line.spans@.len(),
            sv == spans_view(line.spans@),
            w == clamp_u32(span_views_width(sv.take(j as int)) as int) as int,
        decreases line.spans@.len() - j,
    {
        let sw = clamp_to_u32(str_width(line.spans[j].text.as_str()) as u64);
        proof {
            assert(sv.take(j + 1).drop_last() =~= sv.take(j as int));
            assert(sv.take(j + 1).last().0 == line.spans@[j as int].text@);
        }
        w = add_clamped(w, sw as u64);
        j = j + 1;
    }
    proof {
        assert(sv.take(line.spans@.len() as int) =~= sv);
    }
    w
}

/// The widest of the rich lines, saturating at `u32::MAX`.
fn widest_rich_line(lines: &Vec<Line>) -> (w: u32)
    ensures
        w == clamp_u32(widest_rich(lines_view(lines@)) as int),
{
    let ghost lv = lines_view(lines@);
    let mut best: u32 = 0;
    let mut i: usize = 0;
    while i < lines.len()
        invariant
            i <= lines@.len(),
            lv == lines_view(lines@),
            best == clamp_u32(widest_rich(lv.take(i as int)) as int),
        decreases lines@.len() - i,
    {
        let w = clamp_to_u32(line_width_clamped(&lines[i]));
        proof {
            assert(lv.take(i + 1).drop_last() =~= lv.take(i as int));
            assert(lv.take(i + 1).last().0 == spans_view(lines@[i as int].spans@));
        }
        if w > best {
            best = w;
        }
        i = i + 1;
    }
    proof {
        assert(lv.take(lines@.len() as int) =~= lv);
    }
    best
}

/// Measures the intrinsic content size of a leaf: the columns and rows it
/// needs, given the width available to it (`None` when unbounded). Text is
/// measured as it wraps; the other kinds have fixed minimums or the size of
/// their content.
pub fn measure_leaf(kind: &NodeKind, available_width: Option<u16>) -> (size: (u32, u32))
    ensures
        size == leaf_content_size(*kind, available_width),
{
    let max_w: u16 = match available_width {
        Some(w) => if w >= 1 { w } else { 1 },
        None => 1000,
    };
    match kind {
        NodeKind::Text { text, wrap, .. } => {
            let lines = wrap_text(text.as_str(), *wrap, max_w);
            let w = widest_line(&lines);
            proof {
                assert(max_w as int == wrap_columns(available_width));
                assert(views(lines@).len() == lines@.len());
            }
            (w, clamp_to_u32(lines.len() as u64))
        },
        NodeKind::RichText { text, wrap } => {
            let lines = wrap_rich_text(text, *wrap, max_w);
            let w = widest_rich_line(&lines);
            proof {
                assert(max_w as int == wrap_columns(available_width));
                assert(lines_view(lines@).len() == lines@.len());
            }
            (w, clamp_to_u32(lines.len() as u64))
        },
        NodeKind::Rule { title, .. } => {
            let w = match title {
                Some(t) => clamp_to_u32(add_clamped(clamp_to_u32(str_width(t.as_str()) as u64) as u64, 6)),
                None => 4,
            };
            (w, 1)
        },
        NodeKind::Rail { .. } => (2, 1),
        NodeKind::Spinner { frames, frame_index, label, .. } => {
            let fw: usize = if frames.len() > 0 {
                str_width(frames[*frame_index % frames.len()].as_str())
            } else {
                proof {
                    reveal_strlit(" ");
                }
                let sw = str_width(" ");
                assert(" "@ =~= seq![' ']);
                sw
            };
            let fw32: u64 = clamp_to_u32(fw as u64) as u64;
            let total: u64 = match label {
                Some(l) => {
                    let lw: u64 = clamp_to_u32(str_width(l.as_str()) as u64) as u64;
                    add_clamped(add_clamped(fw32, 1), lw)
                },
                None => fw32,
            };
            (clamp_to_u32(total), 1)
        },
        NodeKind::TextInput { value, placeholder, .. } => {
            let vw: u64 = clamp_to_u32(str_width(value.as_str()) as u64) as u64;
            let pw: u64 = match placeholder {
                Some(p) => clamp_to_u32(str_width(p.as_str()) as u64) as u64,
                None => 0,
            };
            let content = add_clamped(if vw > pw { vw } else { pw }, 1);
            (clamp_to_u32(if content > 10 { content } else { 10 }), 1)
        },
        NodeKind::Border { .. } => (2, 2),
        NodeKind::Box { border, .. } => if border.is_some() { (2, 2) } else { (0, 0) },
        NodeKind::Stack => (0, 0),
        NodeKind::Dim => (0, 0),
        NodeKind::Viewport { .. } => (0, 0),
        NodeKind::Raster { surface } => (surface.width as u32, surface.height as u32),
    }
}

} // verus!
