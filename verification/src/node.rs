//! The node tree as painting sees it: each node's kind, its computed
//! rectangle, its layer offset, and its children; and the layout vocabulary
//! (flex direction, alignment, justification, text wrapping).
use crate::cell::{Color, RichText, Style};
use crate::surface::{BorderType, Rect, Surface};
use vstd::prelude::*;

verus! {

/// Flex direction for layout containers.
#[derive(Debug, Clone, Copy, PartialEq, Eq, Structural, Default)]
pub enum FlexDirection {
    #[default]
    Column,
    Row,
}

/// Alignment along the cross axis.
#[derive(Debug, Clone, Copy, PartialEq, Eq, Structural)]
pub enum AlignItems {
    Start,
    End,
    Center,
    Stretch,
}

/// Justification along the main axis.
#[derive(Debug, Clone, Copy, PartialEq, Eq, Structural)]
pub enum JustifyContent {
    Start,
    End,
    Center,
    SpaceBetween,
    SpaceAround,
    SpaceEvenly,
}

/// How text wraps when it exceeds its container's width.
#[derive(Debug, Clone, Copy, PartialEq, Eq, Structural, Default)]
pub enum WrapMode {
    #[default]
    NoWrap,
    CharWrap,
    WordWrap,
}


/// What a node draws.
#[derive(Debug, Clone)]
pub enum NodeKind {
    /// A container with an optional border and background.
    Box { border: Option<BorderType>, border_style: Style, background: Option<Color> },
    /// Wrapped plain text.
    Text { text: String, style: Style, wrap: WrapMode },
    /// Wrapped, aligned rich text.
    RichText { text: RichText, wrap: WrapMode },
    /// A horizontal rule with an optional title.
    Rule { title: Option<String>, style: Style, title_style: Style },
    /// A vertical rail on the node's left column.
    Rail { style: Style },
    /// A bordered panel with an optional title and background.
    Border { border_type: BorderType, style: Style, title: Option<String>, title_style: Style, background: Option<Color> },
    /// One frame of a spinner, with an optional label.
    Spinner { frames: Vec<String>, frame_index: usize, style: Style, label: Option<String>, label_style: Style },
    /// A single-line text input.
    TextInput {
        value: String,
        cursor_grapheme: usize,
        placeholder: Option<String>,
        style: Style,
        placeholder_style: Style,
        cursor_style: Style,
        scroll_offset: usize,
    },
    /// Overlapping layers: the children are composited in order.
    Stack,
    /// A dim veil over the node's rectangle.
    Dim,
    /// A camera: the children are moved by minus the offset and clipped.
    Viewport { offset_x: i32, offset_y: i32 },
    /// An already rendered surface composited at the node's rectangle.
    Raster { surface: Surface },
}

/// A laid-out node: what it draws, where layout put it, its layer offset
/// (for out-of-flow nodes), and its children.
#[derive(Debug)]
pub struct Node {
    pub kind: NodeKind,
    pub computed_rect: Rect,
    /// Out of flow: positioned by its offset from the parent's origin.
    pub absolute: bool,
    pub offset_x: i32,
    pub offset_y: i32,
    pub children: Vec<Node>,
}

impl Node {
    /// A node of `kind` at `rect`, in flow, without children.
    pub fn new(kind: NodeKind, rect: Rect) -> (n: Self)
        ensures
            n.computed_rect == rect,
            !n.absolute && n.offset_x == 0 && n.offset_y == 0,
            n.children@.len() == 0,
    {
        Node { kind, computed_rect: rect, absolute: false, offset_x: 0, offset_y: 0, children: Vec::new() }
    }

    /// The same node with `child` appended.
    pub fn child(self, child: Node) -> (n: Self)
        ensures
            n.children@ == self.children@.push(child),
            n.computed_rect == self.computed_rect,
            n.absolute == self.absolute && n.offset_x == self.offset_x && n.offset_y == self.offset_y,
    {
        let mut n = self;
        n.children.push(child);
        n
    }
}

} // verus!
