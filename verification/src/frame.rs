//! Rendered frames, and the messages that carry them to a client.

use vstd::prelude::*;

verus! {

/// Where a frame's cursor is, and how it looks.
#[derive(Debug, Clone, Copy, PartialEq, Eq, Structural)]
pub struct CursorState {
    pub x: u16,
    pub y: u16,
    pub visible: bool,
    pub shape: u8,
}

/// One cell of a frame.
#[derive(Debug, Clone, PartialEq, Eq)]
pub struct CellData {
    pub symbol: String,
    pub fg: u32,
    pub bg: u32,
    pub modifiers: u16,
    pub hyperlink: Option<String>,
}

/// One rendered frame.
#[derive(Debug, Clone, PartialEq, Eq)]
pub struct FrameData {
    pub width: u16,
    pub height: u16,
    pub cells: Vec<CellData>,
    pub cursor: Option<CursorState>,
    /// Graphics commands that go out with the frame.
    pub graphics: Vec<u8>,
}

/// What a cell shows.
pub ghost struct CellView {
    pub symbol: Seq<char>,
    pub fg: u32,
    pub bg: u32,
    pub modifiers: u16,
    pub hyperlink: Option<Seq<char>>,
}

/// What a frame shows.
#[verifier::ext_equal]
pub ghost struct FrameView {
    pub width: u16,
    pub height: u16,
    pub cells: Seq<CellView>,
    pub cursor: Option<CursorState>,
    pub graphics: Seq<u8>,
}

impl View for CellData {
    type V = CellView;

    open spec fn view(&self) -> CellView {
        CellView {
            symbol: self.symbol@,
            fg: self.fg,
            bg: self.bg,
            modifiers: self.modifiers,
            hyperlink: match self.hyperlink {
                Some(link) => Some(link@),
                None => None,
            },
        }
    }
}

impl View for FrameData {
    type V = FrameView;

    open spec fn view(&self) -> FrameView {
        FrameView {
            width: self.width,
            height: self.height,
            cells: self.cells@.map_values(|cell: CellData| cell@),
            cursor: self.cursor,
            graphics: self.graphics@,
        }
    }
}

/// Whether two optional texts are the same.
fn same_link(a: &Option<String>, b: &Option<String>) -> (same: bool)
    ensures
        same == match (*a, *b) {
            (Some(x), Some(y)) => x@ == y@,
            (None, None) => true,
            _ => false,
        },
{
    match (a, b) {
        (Some(x), Some(y)) => *x == *y,
        (None, None) => true,
        _ => false,
    }
}

/// Whether two cursors are the same.
fn same_cursor(a: &Option<CursorState>, b: &Option<CursorState>) -> (same: bool)
    ensures
        same == (*a == *b),
{
    match (a, b) {
        (Some(x), Some(y)) => *x == *y,
        (None, None) => true,
        _ => false,
    }
}

/// Whether two byte strings are the same.
pub fn same_bytes(a: &[u8], b: &[u8]) -> (same: bool)
    ensures
        same == (a@ == b@),
{
    if a.len() != b.len() {
        return false;
    }
    let mut i: usize = 0;
    while i < a.len()
        invariant
            i <= a.len() == b.len(),
            forall|j: int| 0 <= j < i ==> a@[j] == b@[j],
        decreases a.len() - i,
    {
        if a[i] != b[i] {
            return false;
        }
        i += 1;
    }
    assert(a@ =~= b@);
    true
}

impl CellData {
    /// Whether two cells show the same.
    pub fn same(&self, other: &CellData) -> (same: bool)
        ensures
            same == (self@ == other@),
    {
        self.symbol == other.symbol && self.fg == other.fg && self.bg == other.bg && self.modifiers
            == other.modifiers && same_link(&self.hyperlink, &other.hyperlink)
    }
}

impl FrameData {
    /// Whether two frames show the same.
    pub fn same(&self, other: &FrameData) -> (same: bool)
        ensures
            same == (self@ == other@),
    {
        if self.width != other.width || self.height != other.height || !same_cursor(
            &self.cursor,
            &other.cursor,
        ) {
            return false;
        }
        if self.cells.len() != other.cells.len() {
            assert(self@.cells.len() != other@.cells.len());
            return false;
        }
        let mut i: usize = 0;
        while i < self.cells.len()
            invariant
                i <= self.cells.len() == other.cells.len(),
                forall|j: int| 0 <= j < i ==> #[trigger] self@.cells[j] == other@.cells[j],
            decreases self.cells.len() - i,
        {
            assert(self@.cells[i as int] == self.cells@[i as int]@);
            assert(other@.cells[i as int] == other.cells@[i as int]@);
            if !self.cells[i].same(&other.cells[i]) {
                return false;
            }
            i += 1;
        }
        assert(self@.cells =~= other@.cells);
        same_bytes(&self.graphics, &other.graphics)
    }
}

/// A pre-encoded image, to be drawn at a cell of the client.
#[derive(Debug, Clone, PartialEq, Eq)]
pub struct SixelSplice {
    pub x: u16,
    pub y: u16,
    pub data: Vec<u8>,
}

/// A control sequence that goes to the client as it is.
#[derive(Debug, Clone, PartialEq, Eq)]
pub struct RawOsc {
    pub data: Vec<u8>,
}

impl View for SixelSplice {
    type V = (u16, u16, Seq<u8>);

    open spec fn view(&self) -> (u16, u16, Seq<u8>) {
        (self.x, self.y, self.data@)
    }
}

impl View for RawOsc {
    type V = Seq<u8>;

    open spec fn view(&self) -> Seq<u8> {
        self.data@
    }
}

/// A frame as the bytes that draw it on a terminal.
#[derive(Debug, Clone, PartialEq, Eq)]
pub struct TerminalFrame {
    pub seq: u64,
    pub width: u16,
    pub height: u16,
    /// The bytes draw the whole screen, not only what changed.
    pub full: bool,
    pub bytes: Vec<u8>,
}

/// What a server sends to a client.
#[derive(Debug, Clone, PartialEq, Eq)]
pub enum ServerMessage {
    /// A frame, for clients that draw themselves.
    Frame { frame: FrameData, sixels: Vec<SixelSplice>, raw_osc: Vec<RawOsc> },
    /// A frame as terminal output.
    Terminal(TerminalFrame),
    /// A named control with a JSON document.
    EndpointControl { kind: String, data: String },
}

/// How a client wants its frames.
#[derive(Debug, Clone, Copy, PartialEq, Eq, Structural)]
pub enum RenderEncoding {
    SemanticFrame,
    TerminalAnsi,
}

/// Two cells show the same exactly if they agree in symbol, colors, modifiers and link.
pub proof fn law_cells_show_the_same_iff_all_parts_agree(a: CellData, b: CellData)
    ensures
        a@ == b@ <==> {
            &&& a.symbol@ == b.symbol@
            &&& a.fg == b.fg
            &&& a.bg == b.bg
            &&& a.modifiers == b.modifiers
            &&& match (a.hyperlink, b.hyperlink) {
                (Some(x), Some(y)) => x@ == y@,
                (None, None) => true,
                _ => false,
            }
        },
{
}

/// Cell `i` of two frames has the same symbol, colors, modifiers and link.
pub open spec fn cell_agrees(a: FrameData, b: FrameData, i: int) -> bool {
    let (x, y) = (a.cells@[i], b.cells@[i]);
    &&& x.symbol@ == y.symbol@
    &&& x.fg == y.fg
    &&& x.bg == y.bg
    &&& x.modifiers == y.modifiers
    &&& match (x.hyperlink, y.hyperlink) {
        (Some(s), Some(t)) => s@ == t@,
        (None, None) => true,
        _ => false,
    }
}

/// Two frames agree in every part: size, cursor, graphics, and each part of each cell.
pub open spec fn frames_agree(a: FrameData, b: FrameData) -> bool {
    &&& a.width == b.width
    &&& a.height == b.height
    &&& a.cursor == b.cursor
    &&& a.graphics@ == b.graphics@
    &&& a.cells@.len() == b.cells@.len()
    &&& forall|i: int| 0 <= i < a.cells@.len() ==> #[trigger] cell_agrees(a, b, i)
}

/// Two frames show the same exactly if they agree in every part; a frame in which any part of
/// any cell differs shows something else.
pub proof fn law_frames_show_the_same_iff_all_parts_agree(a: FrameData, b: FrameData)
    ensures
        a@ == b@ <==> frames_agree(a, b),
{
    if a@ == b@ {
        assert(a@.cells.len() == a.cells@.len() && b@.cells.len() == b.cells@.len());
        assert forall|i: int| 0 <= i < a.cells@.len() implies #[trigger] cell_agrees(a, b, i) by {
            assert(a@.cells[i] == a.cells@[i]@);
            assert(b@.cells[i] == b.cells@[i]@);
            law_cells_show_the_same_iff_all_parts_agree(a.cells@[i], b.cells@[i]);
        }
    }
    if frames_agree(a, b) {
        assert forall|i: int| 0 <= i < a.cells@.len() implies a@.cells[i] == b@.cells[i] by {
            assert(cell_agrees(a, b, i));
            law_cells_show_the_same_iff_all_parts_agree(a.cells@[i], b.cells@[i]);
        }
        assert(a@.cells =~= b@.cells);
    }
}

} // verus!
