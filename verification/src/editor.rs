//! Plain data types of the editor shell around the engine: the kinds of
//! stored shapes, locations into the shape store, history operations,
//! interaction modes, and render targets.  The shell itself delivers input
//! events and owns the display; these types carry its decisions as values.

use vstd::prelude::*;

verus! {

/// Information about the current coordinates within a drawing surface.
#[derive(Clone, Copy, PartialEq, Eq, Structural, Debug)]
pub struct LocationInfo {
    pub x: u32,
    pub y: u32,
    pub width: u32,
    pub height: u32,
}

/// The kinds of data objects the editor stores.
#[derive(Clone, Copy, PartialEq, Eq, Structural, Debug, Hash)]
pub enum StateDataType {
    Curve,
    Line,
    BufferedLine,
    Polygon,
}

/// A location of one data object: its kind and its index in that kind's
/// collection.
#[derive(Clone, Copy, PartialEq, Eq, Structural, Debug, Hash)]
pub struct StateDataLoc(pub StateDataType, pub usize);

/// One entry of the editor's undo-like history.
#[derive(Clone, Copy, PartialEq, Eq, Structural, Debug)]
pub enum StateOperation {
    Add(StateDataLoc),
}

/// How many history entries the editor keeps.
pub const HISTORY_LIMIT: usize = 45;

/// The interaction modes of the drawing surface.
#[derive(Clone, Copy, PartialEq, Eq, Structural, Debug)]
pub enum GuiModeType {
    Switching,
    Buffered,
    Freedraw,
    Select,
}

/// How a selection is currently being made.
#[derive(Clone, Copy, PartialEq, Eq, Structural, Debug)]
enum SelectionMode {
    NoSelection,
    NearestPt,
    History,
}

/// The selection mode's state: what is being selected and a flag that
/// makes only every second click select, debouncing doubled press events.
pub struct SelectGuiMode {
    mode: SelectionMode,
    mouse_click_alternator: bool,
}

impl SelectGuiMode {
    /// A fresh selection mode: nothing selected, next click arms the
    /// selection.
    pub fn new() -> (r: SelectGuiMode)
        ensures
            !r.spec_alternator(),
            r.spec_selecting() == false,
    {
        SelectGuiMode { mode: SelectionMode::NoSelection, mouse_click_alternator: false }
    }

    /// Whether a selection is in progress.
    pub closed spec fn spec_selecting(self) -> bool {
        self.mode != SelectionMode::NoSelection
    }

    pub closed spec fn spec_alternator(self) -> bool {
        self.mouse_click_alternator
    }
}

/// What a finished drawing is rendered into.
#[derive(Clone, Copy, PartialEq, Eq, Structural, Debug)]
pub enum RenderTarget {
    SingleImage,
    Mp4,
}

impl RenderTarget {
    /// The render target a command character selects: `s` for a single
    /// image, `m` for a video, nothing otherwise.
    pub fn from_char(c: char) -> (r: Option<RenderTarget>)
        ensures
            c == 's' ==> r == Some(RenderTarget::SingleImage),
            c == 'm' ==> r == Some(RenderTarget::Mp4),
            c != 's' && c != 'm' ==> r is None,
    {
        if c == 's' {
            Some(RenderTarget::SingleImage)
        } else if c == 'm' {
            Some(RenderTarget::Mp4)
        } else {
            None
        }
    }

    pub fn is_single_image(&self) -> (r: bool)
        ensures
            r == (*self == RenderTarget::SingleImage),
    {
        match self {
            RenderTarget::SingleImage => true,
            _ => false,
        }
    }
}

} // verus!
