//! A cell-framebuffer terminal UI engine: colors and styles, a cell
//! framebuffer with sub-cell canvases and rasters, capability-driven color
//! quantization, surface diffs compiled to ANSI, text wrapping, grapheme-aware
//! text input, focus handling, frame scheduling and deterministic effects.
pub mod ansi;
pub mod canvas;
pub mod capability;
pub mod cell;
pub mod clock;
pub mod diff;
pub mod ffi;
pub mod focus;
pub mod glitch;
pub mod glyph;
pub mod input;
pub mod layout;
pub mod node;
pub mod painter;
pub mod particles;
pub mod raster;
pub mod renderer;
pub mod scene;
pub mod scheduler;
pub mod segment;
pub mod surface;
pub mod text;
pub mod time;

pub use ansi::AnsiCompiler;
pub use canvas::{BrailleCanvas, HalfBlockCanvas};
pub use capability::{Capability, ColorDepth, TerminalCapabilities};
pub use cell::{Cell, Color, Glyph, Line, RichText, Span, Style, TextAlign, Theme, ThemeStyles};
pub use clock::{FixedStepClock, RealClock, TimeSource};
pub use diff::{compute_diff, CellRun, RowPatch, SurfaceDiff};
pub use focus::{FocusId, FocusRing};
pub use glitch::{invert_rect, row_shift, sanitize_wide, tear};
pub use input::{Event, KeyCode, KeyEvent, KeyModifiers, TextInputState};
pub use layout::{wrap_rich_text, wrap_text};
pub use node::{AlignItems, FlexDirection, JustifyContent, Node, NodeKind, WrapMode};
pub use painter::{paint, paint_text_input, PaintContext};
pub use particles::Rng;
pub use renderer::{AnchorState, InsertStrategy, RenderMode, Renderer};
pub use scheduler::{FrameScheduler, RenderStats};
pub use surface::{BorderType, Rect, Surface};
