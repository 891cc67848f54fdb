//! Keyboard and paste events, and a grapheme-aware single-line text input
//! buffer whose cursor counts extended grapheme clusters.
//!
//! Every edit re-derives the cursor from the segmentation of the resulting
//! text, because clusters can merge across an edit boundary (a combining
//! accent typed after `e` joins it); after every mutation the cursor is at
//! most the number of clusters.
use crate::text::{concat_all, display_width_of, grapheme_split, graphemes, push_char, str_width};
use vstd::prelude::*;

verus! {

/// Held modifier keys, as a set of bits.
#[derive(Debug, Clone, Copy, PartialEq, Eq, Structural, Default)]
pub struct KeyModifiers {
    pub bits: u8,
}

impl KeyModifiers {
    /// Shift held.
    pub fn shift() -> (m: Self)
        ensures
            m.bits == 0b0000_0001,
    {
        KeyModifiers { bits: 0b0000_0001 }
    }

    /// Control held.
    pub fn control() -> (m: Self)
        ensures
            m.bits == 0b0000_0010,
    {
        KeyModifiers { bits: 0b0000_0010 }
    }

    /// Alt held.
    pub fn alt() -> (m: Self)
        ensures
            m.bits == 0b0000_0100,
    {
        KeyModifiers { bits: 0b0000_0100 }
    }

    /// No modifier held.
    pub fn empty() -> (m: Self)
        ensures
            m.bits == 0,
    {
        KeyModifiers { bits: 0 }
    }

    /// The raw bits.
    pub fn bits(&self) -> (b: u8)
        ensures
            b == self.bits,
    {
        self.bits
    }

    /// Whether every modifier of `other` is held.
    pub fn contains(&self, other: KeyModifiers) -> (b: bool)
        ensures
            b == (self.bits & other.bits == other.bits),
    {
        self.bits & other.bits == other.bits
    }

    /// The modifiers of both.
    pub fn union(self, other: KeyModifiers) -> (m: Self)
        ensures
            m.bits == self.bits | other.bits,
    {
        KeyModifiers { bits: self.bits | other.bits }
    }
}

/// Logical key code.
#[derive(Debug, Clone, Copy, PartialEq, Eq, Structural)]
#[non_exhaustive]
pub enum KeyCode {
    Char(char),
    Enter,
    Left,
    Right,
    Up,
    Down,
    Home,
    End,
    PageUp,
    PageDown,
    Backspace,
    Delete,
    Esc,
    Tab,
    BackTab,
}

/// A structured keyboard event.
#[derive(Debug, Clone, Copy, PartialEq, Eq, Structural)]
pub struct KeyEvent {
    pub code: KeyCode,
    pub modifiers: KeyModifiers,
}

impl KeyEvent {
    pub fn new(code: KeyCode, modifiers: KeyModifiers) -> (e: Self)
        ensures
            e == (KeyEvent { code, modifiers }),
    {
        KeyEvent { code, modifiers }
    }

    /// A plain key press of `c`, no modifier held.
    pub fn char(c: char) -> (e: Self)
        ensures
            e.code == KeyCode::Char(c),
            e.modifiers.bits == 0,
    {
        KeyEvent { code: KeyCode::Char(c), modifiers: KeyModifiers::empty() }
    }
}

/// High-level input event.
#[derive(Debug, Clone, PartialEq, Eq)]
#[non_exhaustive]
pub enum Event {
    Key(KeyEvent),
    Paste(String),
    Resize(u16, u16),
    Tick,
}

/// A line break character.
pub open spec fn is_break(c: char) -> bool {
    c == '\r' || c == '\n'
}

/// `s` on one line: every line break (`\r\n`, `\r` or `\n`) becomes one
/// space; every other character is kept in order.
pub open spec fn flattened(s: Seq<char>) -> Seq<char>
    decreases s.len(),
{
    if s.len() == 0 {
        Seq::empty()
    } else if s.len() >= 2 && s[0] == '\r' && s[1] == '\n' {
        seq![' '] + flattened(s.skip(2))
    } else if is_break(s[0]) {
        seq![' '] + flattened(s.skip(1))
    } else {
        seq![s[0]] + flattened(s.skip(1))
    }
}

/// The number of grapheme clusters of `t`.
pub open spec fn cluster_count(t: Seq<char>) -> nat {
    grapheme_split(t).len()
}

/// The text of the first `k` clusters of `t`.
pub open spec fn head(t: Seq<char>, k: int) -> Seq<char> {
    concat_all(grapheme_split(t).take(k))
}

/// The text from cluster `k` of `t` on.
pub open spec fn tail(t: Seq<char>, k: int) -> Seq<char> {
    concat_all(grapheme_split(t).skip(k))
}

/// The columns a cluster takes in the editor: its display width, at least 1.
pub open spec fn cluster_columns(g: Seq<char>) -> nat {
    if display_width_of(g) >= 1 { display_width_of(g) } else { 1 }
}

/// The columns taken by the first `k` clusters of `gs`.
pub open spec fn columns_before(gs: Seq<Seq<char>>, k: int) -> nat
    decreases k,
{
    if k <= 0 || gs.len() == 0 {
        0
    } else if k > gs.len() {
        columns_before(gs, gs.len() as int)
    } else {
        columns_before(gs, k - 1) + cluster_columns(gs[k - 1])
    }
}

/// `n` capped at the number of clusters of `t`.
pub open spec fn clamp_count(n: int, t: Seq<char>) -> int {
    if n <= cluster_count(t) { n } else { cluster_count(t) as int }
}

/// `t` with `s` inserted after its first `k` clusters.
pub open spec fn inserted(t: Seq<char>, k: int, s: Seq<char>) -> Seq<char> {
    head(t, k) + s + tail(t, k)
}

/// The cursor after inserting `s` at cluster `k` of `t`: the clusters of
/// the text up to the end of the insertion, re-segmented.
pub open spec fn after_insert(t: Seq<char>, k: int, s: Seq<char>) -> int {
    clamp_count(cluster_count(head(t, k) + s) as int, inserted(t, k, s))
}

/// The text before cluster `k` of `t` without its last cluster, as that
/// text segments on its own.
pub open spec fn head_less_one(t: Seq<char>, k: int) -> Seq<char> {
    concat_all(grapheme_split(head(t, k)).drop_last())
}

/// `t` with the cluster before cluster `k` removed.
pub open spec fn backspaced(t: Seq<char>, k: int) -> Seq<char> {
    head_less_one(t, k) + tail(t, k)
}

/// The cursor after a backspace at cluster `k` of `t`.
pub open spec fn after_backspace(t: Seq<char>, k: int) -> int {
    clamp_count(cluster_count(head_less_one(t, k)) as int, backspaced(t, k))
}

/// `t` with the cluster at cluster `k` removed (the first cluster of the
/// rest, as the rest segments on its own).
pub open spec fn deleted(t: Seq<char>, k: int) -> Seq<char> {
    head(t, k) + concat_all(grapheme_split(tail(t, k)).skip(1))
}

/// The cursor after deleting at cluster `k` of `t`.
pub open spec fn after_delete(t: Seq<char>, k: int) -> int {
    clamp_count(cluster_count(head(t, k)) as int, deleted(t, k))
}

/// What a key press does to a buffer holding `t` with its cursor at `c`: the
/// new text, the new cursor, and whether the key was handled.
pub open spec fn key_outcome(t: Seq<char>, c: int, key: KeyEvent) -> (Seq<char>, int, bool) {
    let k = clamp_count(c, t);
    match key.code {
        KeyCode::Char(ch) => if key.modifiers.bits & 0b0000_0010u8 == 0b0000_0010u8 {
            if ch == 'a' {
                (t, 0, true)
            } else if ch == 'e' {
                (t, cluster_count(t) as int, true)
            } else if ch == 'u' {
                (tail(t, k), 0, true)
            } else if ch == 'k' {
                (head(t, k), clamp_count(k, head(t, k)), true)
            } else {
                (t, c, false)
            }
        } else {
            (inserted(t, k, seq![ch]), after_insert(t, k, seq![ch]), true)
        },
        KeyCode::Backspace => if k > 0 { (backspaced(t, k), after_backspace(t, k), true) } else { (t, k, false) },
        KeyCode::Delete => if k < cluster_count(t) { (deleted(t, k), after_delete(t, k), true) } else { (t, k, false) },
        KeyCode::Left => (t, if k > 0 { k - 1 } else { k }, k > 0),
        KeyCode::Right => (t, if k < cluster_count(t) { k + 1 } else { k }, k < cluster_count(t)),
        KeyCode::Home => (t, 0, true),
        KeyCode::End => (t, cluster_count(t) as int, true),
        _ => (t, c, false),
    }
}

/// What an event does to a buffer holding `t` with its cursor at `c`: keys
/// edit and move, a paste is flattened to one line and inserted, other events
/// are not handled.
pub open spec fn event_outcome(t: Seq<char>, c: int, ev: Event) -> (Seq<char>, int, bool) {
    match ev {
        Event::Key(key) => key_outcome(t, c, key),
        Event::Paste(p) => {
            let f = flattened(p@);
            if f.len() == 0 {
                (t, c, true)
            } else {
                (inserted(t, clamp_count(c, t), f), after_insert(t, clamp_count(c, t), f), true)
            }
        },
        _ => (t, c, false),
    }
}

/// Concatenation distributes over `+`.
proof fn lemma_concat_append(a: Seq<Seq<char>>, b: Seq<Seq<char>>)
    ensures
        concat_all(a + b) == concat_all(a) + concat_all(b),
    decreases b.len(),
{
    if b.len() == 0 {
        assert(a + b =~= a);
        assert(concat_all(b) =~= Seq::<char>::empty());
        assert(concat_all(a) + Seq::<char>::empty() =~= concat_all(a));
    } else {
        lemma_concat_append(a, b.drop_last());
        assert((a + b).drop_last() =~= a + b.drop_last());
        assert((a + b).last() == b.last());
        assert(concat_all(a) + concat_all(b.drop_last()) + b.last() =~= concat_all(a) + (concat_all(b.drop_last()) + b.last()));
    }
}

/// Non-empty parts concatenate to a non-empty text.
proof fn lemma_concat_nonempty(gs: Seq<Seq<char>>)
    requires
        gs.len() > 0,
        gs.last().len() > 0,
    ensures
        concat_all(gs).len() > 0,
{
}

/// Appends the clusters `gs[lo..hi]` to `out`.
fn append_clusters(out: &mut String, gs: &Vec<String>, lo: usize, hi: usize)
    requires
        lo <= hi <= gs@.len(),
    ensures
        final(out)@ == old(out)@ + concat_all(gs@.map_values(|x: String| x@).subrange(lo as int, hi as int)),
{
    let ghost vs = gs@.map_values(|x: String| x@);
    let mut i: usize = lo;
    while i < hi
        invariant
            lo <= i <= hi <= gs@.len(),
            vs == gs@.map_values(|x: String| x@),
            out@ == old(out)@ + concat_all(vs.subrange(lo as int, i as int)),
        decreases hi - i,
    {
        out.append(gs[i].as_str());
        proof {
            assert(vs.subrange(lo as int, i as int + 1).drop_last() =~= vs.subrange(lo as int, i as int));
            assert(vs[i as int] == gs@[i as int]@);
        }
        i = i + 1;
    }
}

/// Stateful grapheme-aware single-line text input buffer.
#[derive(Debug, Clone)]
pub struct TextInputState {
    pub text: String,
    /// Cursor position, in grapheme clusters from the start.
    pub cursor_grapheme: usize,
    /// First visible display column.
    pub scroll_offset: usize,
}

impl Default for TextInputState {
    fn default() -> (s: Self)
        ensures
            s.text@.len() == 0,
            s.cursor_grapheme == 0,
            s.scroll_offset == 0,
    {
        TextInputState { text: String::new(), cursor_grapheme: 0, scroll_offset: 0 }
    }
}

impl TextInputState {
    /// The cursor is at most the number of clusters of the text.
    pub open spec fn cursor_in_range(&self) -> bool {
        self.cursor_grapheme <= cluster_count(self.text@)
    }

    /// The cursor clamped to the number of clusters.
    pub open spec fn clamped_cursor(&self) -> int {
        if self.cursor_grapheme <= cluster_count(self.text@) {
            self.cursor_grapheme as int
        } else {
            cluster_count(self.text@) as int
        }
    }

    /// An empty buffer.
    pub fn new() -> (s: Self)
        ensures
            s.text@.len() == 0,
            s.cursor_grapheme == 0,
            s.scroll_offset == 0,
    {
        Self::default()
    }

    /// A buffer holding `text`, with the cursor at its end.
    pub fn with_text(text: &str) -> (s: Self)
        ensures
            s.text@ == text@,
            s.cursor_grapheme == cluster_count(text@),
            s.scroll_offset == 0,
            s.cursor_in_range(),
    {
        let gs = graphemes(text);
        TextInputState { text: text.to_string(), cursor_grapheme: gs.len(), scroll_offset: 0 }
    }

    /// The number of grapheme clusters of the text.
    pub fn grapheme_count(&self) -> (n: usize)
        ensures
            n == cluster_count(self.text@),
    {
        graphemes(self.text.as_str()).len()
    }

    /// Clamps the cursor into range.
    pub fn normalize(&mut self)
        ensures
            final(self).text@ == old(self).text@,
            final(self).cursor_grapheme == old(self).clamped_cursor(),
            final(self).scroll_offset == old(self).scroll_offset,
            final(self).cursor_in_range(),
    {
        let count = self.grapheme_count();
        if self.cursor_grapheme > count {
            self.cursor_grapheme = count;
        }
    }

    /// Normalizes a paste payload to a single line: every line break
    /// (`\r\n`, `\r` or `\n`) becomes one space.
    pub fn normalize_paste(s: &str) -> (out: String)
        ensures
            out@ == flattened(s@),
    {
        let cs = crate::text::chars_of(s);
        proof {
            assert(cs@.skip(0) =~= cs@);
        }
        let n = cs.len();
        let mut out = String::new();
        let mut i: usize = 0;
        while i < n
            invariant
                cs@ == s@,
                n == cs@.len(),
                i <= n,
                out@ + flattened(cs@.skip(i as int)) == flattened(s@),
            decreases n - i,
        {
            let c = cs[i];
            let ghost before = out@;
            proof {
                assert(cs@.skip(i as int)[0] == c);
            }
            if c == '\r' && i + 1 < n && cs[i + 1] == '\n' {
                push_char(&mut out, ' ');
                proof {
                    assert(cs@.skip(i as int)[1] == cs@[i + 1]);
                    assert(cs@.skip(i as int).skip(2) =~= cs@.skip(i as int + 2));
                    assert(before + flattened(cs@.skip(i as int)) =~= out@ + flattened(cs@.skip(i as int + 2)));
                }
                i = i + 2;
            } else {
                if c == '\r' || c == '\n' {
                    push_char(&mut out, ' ');
                } else {
                    push_char(&mut out, c);
                }
                proof {
                    assert(cs@.skip(i as int).skip(1) =~= cs@.skip(i as int + 1));
                    if i + 1 < n {
                        assert(cs@.skip(i as int)[1] == cs@[i + 1]);
                    }
                    assert(before + flattened(cs@.skip(i as int)) =~= out@ + flattened(cs@.skip(i as int + 1)));
                }
                i = i + 1;
            }
        }
        proof {
            assert(cs@.skip(n as int) =~= Seq::<char>::empty());
            assert(out@ + Seq::<char>::empty() =~= out@);
        }
        out
    }

    /// Inserts `s` at the cursor; the cursor lands after the inserted text, as
    /// the resulting text segments (clusters may merge across the insertion).
    pub fn insert_str(&mut self, s: &str)
        ensures
            s@.len() == 0 ==> final(self).text@ == old(self).text@ && final(self).cursor_grapheme == old(self).cursor_grapheme,
            s@.len() > 0 ==> final(self).text@ == inserted(old(self).text@, old(self).clamped_cursor(), s@)
                && final(self).cursor_grapheme == after_insert(old(self).text@, old(self).clamped_cursor(), s@),
            final(self).scroll_offset == old(self).scroll_offset,
            s@.len() > 0 ==> final(self).cursor_in_range(),
    {
        if s.is_empty() {
            return;
        }
        self.normalize();
        let k = self.cursor_grapheme;
        let gs = graphemes(self.text.as_str());
        let ghost vs = gs@.map_values(|x: String| x@);
        let mut pre = String::new();
        append_clusters(&mut pre, &gs, 0, k);
        pre.append(s);
        let cursor = graphemes(pre.as_str()).len();
        let mut text = pre.clone();
        append_clusters(&mut text, &gs, k, gs.len());
        proof {
            assert(vs.subrange(0, k as int) =~= vs.take(k as int));
            assert(vs.subrange(k as int, vs.len() as int) =~= vs.skip(k as int));
            assert(text@ =~= inserted(old(self).text@, k as int, s@));
        }
        self.text = text;
        self.cursor_grapheme = cursor;
        self.normalize();
    }

    /// Deletes the cluster before the cursor (Backspace); false at the start.
    pub fn backspace(&mut self) -> (r: bool)
        ensures
            r == (old(self).clamped_cursor() > 0),
            !r ==> final(self).text@ == old(self).text@ && final(self).cursor_grapheme == old(self).clamped_cursor(),
            r ==> final(self).text@ == backspaced(old(self).text@, old(self).clamped_cursor())
                && final(self).cursor_grapheme == after_backspace(old(self).text@, old(self).clamped_cursor()),
            final(self).scroll_offset == old(self).scroll_offset,
            final(self).cursor_in_range(),
    {
        self.normalize();
        if self.cursor_grapheme == 0 {
            return false;
        }
        let k = self.cursor_grapheme;
        let gs = graphemes(self.text.as_str());
        let ghost vs = gs@.map_values(|x: String| x@);
        let mut pre = String::new();
        append_clusters(&mut pre, &gs, 0, k);
        proof {
            assert(vs.subrange(0, k as int) =~= vs.take(k as int));
            assert(vs.take(k as int).last() == vs[k - 1]);
            assert(gs@[k - 1]@.len() > 0);
            lemma_concat_nonempty(vs.take(k as int));
        }
        let pgs = graphemes(pre.as_str());
        let n = pgs.len();
        if n == 0 {
            proof {
                assert(pgs@.map_values(|x: String| x@) =~= Seq::<Seq<char>>::empty());
            }
            return false;
        }
        let ghost pvs = pgs@.map_values(|x: String| x@);
        let mut kept = String::new();
        append_clusters(&mut kept, &pgs, 0, n - 1);
        let cursor = graphemes(kept.as_str()).len();
        let mut text = kept.clone();
        append_clusters(&mut text, &gs, k, gs.len());
        proof {
            assert(pvs.subrange(0, n - 1) =~= pvs.drop_last());
            assert(vs.subrange(k as int, vs.len() as int) =~= vs.skip(k as int));
            assert(text@ =~= backspaced(old(self).text@, k as int));
        }
        self.text = text;
        self.cursor_grapheme = cursor;
        self.normalize();
        true
    }

    /// Deletes the cluster at the cursor (Delete); false at the end.
    pub fn delete(&mut self) -> (r: bool)
        ensures
            r == (old(self).clamped_cursor() < cluster_count(old(self).text@)),
            !r ==> final(self).text@ == old(self).text@ && final(self).cursor_grapheme == old(self).clamped_cursor(),
            r ==> final(self).text@ == deleted(old(self).text@, old(self).clamped_cursor())
                && final(self).cursor_grapheme == after_delete(old(self).text@, old(self).clamped_cursor()),
            final(self).scroll_offset == old(self).scroll_offset,
            final(self).cursor_in_range(),
    {
        self.normalize();
        let k = self.cursor_grapheme;
        let gs = graphemes(self.text.as_str());
        if k >= gs.len() {
            return false;
        }
        let ghost vs = gs@.map_values(|x: String| x@);
        let mut pre = String::new();
        append_clusters(&mut pre, &gs, 0, k);
        let mut rest = String::new();
        append_clusters(&mut rest, &gs, k, gs.len());
        proof {
            assert(vs.subrange(0, k as int) =~= vs.take(k as int));
            assert(vs.subrange(k as int, vs.len() as int) =~= vs.skip(k as int));
        }
        let rgs = graphemes(rest.as_str());
        let cursor = graphemes(pre.as_str()).len();
        let mut text = pre.clone();
        if rgs.len() > 0 {
            append_clusters(&mut text, &rgs, 1, rgs.len());
        }
        proof {
            let rvs = rgs@.map_values(|x: String| x@);
            if rgs.len() > 0 {
                assert(rvs.subrange(1, rvs.len() as int) =~= rvs.skip(1));
            } else {
                assert(rvs.skip(1) =~= Seq::<Seq<char>>::empty());
                assert(text@ =~= pre@ + concat_all(rvs.skip(1)));
            }
            assert(text@ =~= deleted(old(self).text@, k as int));
        }
        self.text = text;
        self.cursor_grapheme = cursor;
        self.normalize();
        true
    }

    /// Moves the cursor one cluster left; false at the start.
    pub fn move_left(&mut self) -> (r: bool)
        ensures
            final(self).text@ == old(self).text@,
            r == (old(self).clamped_cursor() > 0),
            final(self).cursor_grapheme == if r { old(self).clamped_cursor() - 1 } else { old(self).clamped_cursor() },
            final(self).scroll_offset == old(self).scroll_offset,
            final(self).cursor_in_range(),
    {
        self.normalize();
        if self.cursor_grapheme > 0 {
            self.cursor_grapheme = self.cursor_grapheme - 1;
            true
        } else {
            false
        }
    }

    /// Moves the cursor one cluster right; false at the end.
    pub fn move_right(&mut self) -> (r: bool)
        ensures
            final(self).text@ == old(self).text@,
            r == (old(self).clamped_cursor() < cluster_count(old(self).text@)),
            final(self).cursor_grapheme == if r { old(self).clamped_cursor() + 1 } else { old(self).clamped_cursor() },
            final(self).scroll_offset == old(self).scroll_offset,
            final(self).cursor_in_range(),
    {
        self.normalize();
        if self.cursor_grapheme < self.grapheme_count() {
            self.cursor_grapheme = self.cursor_grapheme + 1;
            true
        } else {
            false
        }
    }

    /// Moves the cursor before the first cluster.
    pub fn move_to_start(&mut self)
        ensures
            final(self).text@ == old(self).text@,
            final(self).cursor_grapheme == 0,
            final(self).scroll_offset == old(self).scroll_offset,
    {
        self.cursor_grapheme = 0;
    }

    /// Moves the cursor after the last cluster.
    pub fn move_to_end(&mut self)
        ensures
            final(self).text@ == old(self).text@,
            final(self).cursor_grapheme == cluster_count(old(self).text@),
            final(self).scroll_offset == old(self).scroll_offset,
    {
        self.cursor_grapheme = self.grapheme_count();
    }

    /// Inserts one character at the cursor.
    pub fn insert_char(&mut self, c: char)
        ensures
            final(self).text@ == inserted(old(self).text@, old(self).clamped_cursor(), seq![c]),
            final(self).cursor_grapheme == after_insert(old(self).text@, old(self).clamped_cursor(), seq![c]),
            final(self).scroll_offset == old(self).scroll_offset,
            final(self).cursor_in_range(),
    {
        let mut buf = String::new();
        push_char(&mut buf, c);
        proof {
            assert(buf@ =~= seq![c]);
        }
        self.insert_str(buf.as_str());
    }

    /// Keeps the text before the cursor only (Ctrl-U): the text from the
    /// cursor on remains, with the cursor at its start.
    fn clear_before_cursor(&mut self)
        ensures
            final(self).text@ == tail(old(self).text@, old(self).clamped_cursor()),
            final(self).cursor_grapheme == 0,
            final(self).scroll_offset == old(self).scroll_offset,
    {
        self.normalize();
        let k = self.cursor_grapheme;
        let gs = graphemes(self.text.as_str());
        let ghost vs = gs@.map_values(|x: String| x@);
        let mut text = String::new();
        append_clusters(&mut text, &gs, k, gs.len());
        proof {
            assert(vs.subrange(k as int, vs.len() as int) =~= vs.skip(k as int));
        }
        self.text = text;
        self.cursor_grapheme = 0;
    }

    /// Drops the text after the cursor (Ctrl-K).
    fn clear_after_cursor(&mut self)
        ensures
            final(self).text@ == head(old(self).text@, old(self).clamped_cursor()),
            final(self).cursor_grapheme == clamp_count(old(self).clamped_cursor(), final(self).text@),
            final(self).scroll_offset == old(self).scroll_offset,
            final(self).cursor_in_range(),
    {
        self.normalize();
        let k = self.cursor_grapheme;
        let gs = graphemes(self.text.as_str());
        let ghost vs = gs@.map_values(|x: String| x@);
        let mut text = String::new();
        append_clusters(&mut text, &gs, 0, k);
        proof {
            assert(vs.subrange(0, k as int) =~= vs.take(k as int));
        }
        self.text = text;
        self.normalize();
    }

    /// Handles keyboard and paste events; true when the event was handled.
    /// Ctrl-A/Ctrl-E move to the start/end, Ctrl-U/Ctrl-K clear before/after
    /// the cursor, other characters are inserted, and a paste is flattened to
    /// one line and inserted.
    pub fn handle_event(&mut self, event: &Event) -> (r: bool)
        ensures
            ({
                let o = event_outcome(old(self).text@, old(self).cursor_grapheme as int, *event);
                &&& final(self).text@ == o.0
                &&& final(self).cursor_grapheme == o.1
                &&& r == o.2
            }),
            final(self).scroll_offset == old(self).scroll_offset,
            old(self).cursor_in_range() ==> final(self).cursor_in_range(),
    {
        match event {
            Event::Key(k) => match k.code {
                KeyCode::Char(c) => {
                    if k.modifiers.contains(KeyModifiers::control()) {
                        if c == 'a' {
                            self.move_to_start();
                            true
                        } else if c == 'e' {
                            self.move_to_end();
                            true
                        } else if c == 'u' {
                            self.clear_before_cursor();
                            true
                        } else if c == 'k' {
                            self.clear_after_cursor();
                            true
                        } else {
                            false
                        }
                    } else {
                        self.insert_char(c);
                        true
                    }
                },
                KeyCode::Backspace => self.backspace(),
                KeyCode::Delete => self.delete(),
                KeyCode::Left => self.move_left(),
                KeyCode::Right => self.move_right(),
                KeyCode::Home => {
                    self.move_to_start();
                    true
                },
                KeyCode::End => {
                    self.move_to_end();
                    true
                },
                _ => false,
            },
            Event::Paste(p) => {
                let flat = Self::normalize_paste(p.as_str());
                self.insert_str(flat.as_str());
                true
            },
            _ => false,
        }
    }

    /// The cursor position in terminal display columns: each cluster before
    /// it takes its display width, at least one column (the sum saturates at
    /// `usize::MAX`).
    pub fn cursor_display_column(&self) -> (col: usize)
        ensures
            col == (if columns_before(grapheme_split(self.text@), self.clamped_cursor()) <= usize::MAX {
                columns_before(grapheme_split(self.text@), self.clamped_cursor())
            } else {
                usize::MAX as nat
            }),
    {
        let gs = graphemes(self.text.as_str());
        let ghost vs = gs@.map_values(|x: String| x@);
        let n: usize = if self.cursor_grapheme <= gs.len() { self.cursor_grapheme } else { gs.len() };
        let mut col: usize = 0;
        let mut i: usize = 0;
        while i < n
            invariant
                vs == gs@.map_values(|x: String| x@),
                vs == grapheme_split(self.text@),
                n <= gs@.len(),
                i <= n,
                col == (if columns_before(vs, i as int) <= usize::MAX { columns_before(vs, i as int) } else { usize::MAX as nat }),
            decreases n - i,
        {
            let w0 = str_width(gs[i].as_str());
            let w: usize = if w0 >= 1 { w0 } else { 1 };
            proof {
                assert(vs[i as int] == gs@[i as int]@);
                assert(columns_before(vs, i as int + 1) == columns_before(vs, i as int) + cluster_columns(vs[i as int]));
            }
            col = if col <= usize::MAX - w { col + w } else { usize::MAX };
            i = i + 1;
        }
        col
    }

    /// Adjusts the scroll offset (in display columns) so that the cursor is
    /// visible within `visible_width` columns; a zero width changes nothing.
    pub fn update_scroll(&mut self, visible_width: usize)
        ensures
            final(self).text@ == old(self).text@,
            final(self).cursor_grapheme == old(self).cursor_grapheme,
            ({
                let col = if columns_before(grapheme_split(old(self).text@), old(self).clamped_cursor()) <= usize::MAX {
                    columns_before(grapheme_split(old(self).text@), old(self).clamped_cursor()) as int
                } else {
                    usize::MAX as int
                };
                final(self).scroll_offset == if visible_width == 0 {
                    old(self).scroll_offset as int
                } else if col < old(self).scroll_offset {
                    col
                } else if col - old(self).scroll_offset >= visible_width {
                    col - visible_width + 1
                } else {
                    old(self).scroll_offset as int
                }
            }),
    {
        if visible_width == 0 {
            return;
        }
        let col = self.cursor_display_column();
        if col < self.scroll_offset {
            self.scroll_offset = col;
        } else if col - self.scroll_offset >= visible_width {
            self.scroll_offset = col - visible_width + 1;
        }
    }

    /// The display width of the whole text, in terminal columns.
    pub fn total_display_width(&self) -> (w: usize)
        ensures
            w == display_width_of(self.text@),
    {
        str_width(self.text.as_str())
    }
}


/// The Delete key removes the cluster at the cursor and nothing else: it is
/// handled exactly when a cluster follows the cursor; the text before the
/// cursor is kept as it was, what follows it is the rest of the text less its
/// first cluster, and the cursor stays right after the kept text. At the end
/// of the text nothing changes.
pub proof fn law_delete_removes_the_cluster_at_the_cursor(t: Seq<char>, c: int, key: KeyEvent)
    requires
        key.code == KeyCode::Delete,
        0 <= c,
    ensures
        ({
            let o = event_outcome(t, c, Event::Key(key));
            let k = clamp_count(c, t);
            let kept = head(t, k);
            &&& o.2 == (k < cluster_count(t))
            &&& !o.2 ==> o.0 == t && o.1 == k
            &&& o.2 ==> {
                &&& o.0.len() >= kept.len()
                &&& o.0.take(kept.len() as int) == kept
                &&& o.0.skip(kept.len() as int) == concat_all(grapheme_split(tail(t, k)).skip(1))
                &&& o.1 == clamp_count(cluster_count(kept) as int, o.0)
            }
        }),
{
    let k = clamp_count(c, t);
    let kept = head(t, k);
    if k < cluster_count(t) {
        let rest = concat_all(grapheme_split(tail(t, k)).skip(1));
        assert((kept + rest).take(kept.len() as int) =~= kept);
        assert((kept + rest).skip(kept.len() as int) =~= rest);
    }
}


/// Backspace removes the cluster before the cursor and nothing else: it is
/// handled exactly when the cursor is past the start; the text after the
/// cursor is kept as it was, what precedes it is the text before the cursor
/// less its last cluster, and the cursor ends right after that. At the start
/// nothing changes.
pub proof fn law_backspace_removes_the_cluster_before_the_cursor(t: Seq<char>, c: int, key: KeyEvent)
    requires
        key.code == KeyCode::Backspace,
        0 <= c,
    ensures
        ({
            let o = event_outcome(t, c, Event::Key(key));
            let k = clamp_count(c, t);
            let after = tail(t, k);
            let before = concat_all(grapheme_split(head(t, k)).drop_last());
            &&& o.2 == (k > 0)
            &&& !o.2 ==> o.0 == t && o.1 == k
            &&& o.2 ==> {
                &&& o.0.len() >= after.len()
                &&& o.0.skip(o.0.len() - after.len()) == after
                &&& o.0.take(o.0.len() - after.len()) == before
                &&& o.1 == clamp_count(cluster_count(before) as int, o.0)
            }
        }),
{
    let k = clamp_count(c, t);
    if k > 0 {
        let after = tail(t, k);
        let before = concat_all(grapheme_split(head(t, k)).drop_last());
        assert((before + after).skip(before.len() as int) =~= after);
        assert((before + after).take(before.len() as int) =~= before);
    }
}

/// Typing a character (without Control) puts it at the cursor: the text
/// before the cursor is kept, the character follows it, then the text that
/// was after the cursor.
pub proof fn law_typed_char_goes_at_the_cursor(t: Seq<char>, c: int, key: KeyEvent, ch: char)
    requires
        key.code == KeyCode::Char(ch),
        key.modifiers.bits & 0b0000_0010u8 != 0b0000_0010u8,
        0 <= c,
    ensures
        ({
            let o = event_outcome(t, c, Event::Key(key));
            let k = clamp_count(c, t);
            let kept = head(t, k);
            &&& o.2
            &&& o.0.len() == kept.len() + 1 + tail(t, k).len()
            &&& o.0.take(kept.len() as int) == kept
            &&& o.0[kept.len() as int] == ch
            &&& o.0.skip(kept.len() as int + 1) == tail(t, k)
        }),
{
    let k = clamp_count(c, t);
    let kept = head(t, k);
    let o = kept + seq![ch] + tail(t, k);
    assert(o.take(kept.len() as int) =~= kept);
    assert(o.skip(kept.len() as int + 1) =~= tail(t, k));
}

/// Cursor keys never change the text: Left and Right move the cursor one
/// cluster within the text, Home and End to its ends; the cursor stays
/// within the text.
pub proof fn law_cursor_keys_keep_the_text(t: Seq<char>, c: int, key: KeyEvent)
    requires
        key.code == KeyCode::Left || key.code == KeyCode::Right || key.code == KeyCode::Home || key.code == KeyCode::End,
        0 <= c,
    ensures
        ({
            let o = event_outcome(t, c, Event::Key(key));
            let k = clamp_count(c, t);
            &&& o.0 == t
            &&& 0 <= o.1 <= cluster_count(t)
            &&& key.code == KeyCode::Left ==> o.1 == (if k > 0 { k - 1 } else { 0 }) && o.2 == (k > 0)
            &&& key.code == KeyCode::Right ==> o.1 == (if k < cluster_count(t) { k + 1 } else { k }) && o.2 == (k < cluster_count(t))
            &&& key.code == KeyCode::Home ==> o.1 == 0 && o.2
            &&& key.code == KeyCode::End ==> o.1 == cluster_count(t) && o.2
        }),
{
}


/// Control-U clears the text before the cursor and leaves the cursor at the
/// start; Control-K clears the text from the cursor on and keeps the text
/// before it. Both are always handled.
pub proof fn law_clear_keys_cut_at_the_cursor(t: Seq<char>, c: int, key: KeyEvent)
    requires
        key.code == KeyCode::Char('u') || key.code == KeyCode::Char('k'),
        key.modifiers.bits & 0b0000_0010u8 == 0b0000_0010u8,
        0 <= c,
    ensures
        ({
            let o = event_outcome(t, c, Event::Key(key));
            let k = clamp_count(c, t);
            &&& o.2
            &&& key.code == KeyCode::Char('u') ==> o.0 == tail(t, k) && o.1 == 0
            &&& key.code == KeyCode::Char('k') ==> o.0 == head(t, k) && 0 <= o.1 <= cluster_count(o.0)
        }),
{
}

} // verus!
