//! Which cursor a client sees.
//!
//! A frame shows at most one cursor: that of a popup, of the focused terminal, or the one that
//! drawing the frame left behind. While a terminal has synchronized output going on, its cursor
//! stays hidden.

use vstd::prelude::*;

use crate::frame::CursorState;

verus! {

/// What drawing a frame did with the cursor: it was put somewhere, or hidden.
pub struct CursorTracker {
    rendered: Option<(u16, u16)>,
}

impl View for CursorTracker {
    type V = Option<(u16, u16)>;

    closed spec fn view(&self) -> Option<(u16, u16)> {
        self.rendered
    }
}

/// The cursor at a place where drawing left it: visible, in the default shape.
pub open spec fn drawn_cursor(place: Option<(u16, u16)>) -> Option<CursorState> {
    match place {
        Some((x, y)) => Some(CursorState { x, y, visible: true, shape: 0 }),
        None => None,
    }
}

impl CursorTracker {
    /// Nothing was drawn yet.
    pub fn new() -> (tracker: Self)
        ensures
            tracker@ is None,
    {
        CursorTracker { rendered: None }
    }

    /// The cursor was hidden.
    pub fn hide_cursor(&mut self)
        ensures
            final(self)@ is None,
    {
        self.rendered = None;
    }

    /// The cursor was put at a cell.
    pub fn set_cursor_position(&mut self, x: u16, y: u16)
        ensures
            final(self)@ == Some((x, y)),
    {
        self.rendered = Some((x, y));
    }

    /// The cursor that drawing left behind.
    pub fn rendered_cursor(&self) -> (cursor: Option<CursorState>)
        ensures
            cursor == drawn_cursor(self@),
    {
        match self.rendered {
            Some((x, y)) => Some(CursorState { x, y, visible: true, shape: 0 }),
            None => None,
        }
    }
}

/// A pane of the view. What is asked of the focused one is only read there.
#[derive(Debug, Clone, Copy, PartialEq, Eq, Structural)]
pub struct PaneInfo {
    pub is_focused: bool,
    /// The pane's terminal may show its cursor on the host.
    pub exposes_host_cursor: bool,
    /// Whether the pane has a running terminal, and whether it has synchronized output going on.
    pub synchronized_output: Option<bool>,
}

/// What the choice of the cursor reads of the application.
pub struct CursorScene {
    /// Keys go to the focused terminal.
    pub terminal_mode: bool,
    /// The workspace that is shown.
    pub active: Option<usize>,
    pub panes: Vec<PaneInfo>,
}

/// `i` is the first focused pane.
pub open spec fn is_first_focused(panes: Seq<PaneInfo>, i: int) -> bool {
    &&& 0 <= i < panes.len()
    &&& panes[i].is_focused
    &&& forall|j: int| 0 <= j < i ==> !(#[trigger] panes[j]).is_focused
}

/// The synchronized-output flag of the terminal that may show its cursor: that of the first
/// focused pane, in terminal mode, with a workspace shown, if the pane exposes its cursor and
/// has a running terminal.
pub open spec fn cursor_owner(
    terminal_mode: bool,
    active: Option<usize>,
    panes: Seq<PaneInfo>,
) -> Option<bool> {
    if terminal_mode && active is Some && exists|i: int| is_first_focused(panes, i) {
        let pane = panes[choose|i: int| is_first_focused(panes, i)];
        if pane.exposes_host_cursor {
            pane.synchronized_output
        } else {
            None
        }
    } else {
        None
    }
}

/// The first focused pane.
fn find_focused(panes: &Vec<PaneInfo>) -> (found: Option<usize>)
    ensures
        match found {
            Some(i) => is_first_focused(panes@, i as int),
            None => forall|i: int| !#[trigger] is_first_focused(panes@, i),
        },
{
    let mut i: usize = 0;
    while i < panes.len()
        invariant
            i <= panes.len(),
            forall|j: int| 0 <= j < i ==> !(#[trigger] panes@[j]).is_focused,
        decreases panes.len() - i,
    {
        if panes[i].is_focused {
            return Some(i);
        }
        i += 1;
    }
    None
}

impl CursorScene {
    /// The synchronized-output flag of the terminal that may show its cursor.
    pub open spec fn owner(self) -> Option<bool> {
        cursor_owner(self.terminal_mode, self.active, self.panes@)
    }

    /// Finds the terminal that may show its cursor.
    fn find_owner(&self) -> (owner: Option<bool>)
        ensures
            owner == self.owner(),
    {
        if !self.terminal_mode || self.active.is_none() {
            return None;
        }
        match find_focused(&self.panes) {
            Some(i) => {
                proof {
                    let found = choose|i: int| is_first_focused(self.panes@, i);
                    if found < i {
                        assert(!self.panes@[found].is_focused);
                    } else if i < found {
                        assert(!self.panes@[i as int].is_focused);
                    }
                }
                if self.panes[i].exposes_host_cursor {
                    self.panes[i].synchronized_output
                } else {
                    None
                }
            },
            None => None,
        }
    }
}

/// Whether the focused terminal decides what the host's cursor is.
pub fn focused_terminal_owns_host_cursor(scene: &CursorScene) -> (yes: bool)
    ensures
        yes == scene.owner() is Some,
{
    match scene.find_owner() {
        Some(_) => true,
        None => false,
    }
}

/// Whether the focused terminal hides the host's cursor: it has synchronized output going on.
pub fn focused_terminal_suppresses_host_cursor(scene: &CursorScene) -> (yes: bool)
    ensures
        yes == (scene.owner() == Some(true)),
{
    match scene.find_owner() {
        Some(synchronized) => synchronized,
        None => false,
    }
}

/// What a terminal says of its cursor.
pub struct TerminalCursor {
    pub synchronized_output: bool,
    /// The cursor inside the terminal's area, if there is an area and a cursor in it.
    pub cursor: Option<CursorState>,
    /// The terminal shows its history.
    pub scrolled_back: bool,
}

/// A terminal's cursor as the host shows it: none during synchronized output, and hidden while
/// the terminal shows its history.
pub open spec fn host_view(terminal: TerminalCursor) -> Option<CursorState> {
    match terminal.cursor {
        Some(cursor) if !terminal.synchronized_output => Some(
            CursorState { visible: cursor.visible && !terminal.scrolled_back, ..cursor },
        ),
        _ => None,
    }
}

/// A terminal's cursor as the host shows it.
fn view_cursor(terminal: &TerminalCursor) -> (cursor: Option<CursorState>)
    ensures
        cursor == host_view(*terminal),
{
    if terminal.synchronized_output {
        return None;
    }
    match terminal.cursor {
        Some(cursor) => Some(
            CursorState {
                x: cursor.x,
                y: cursor.y,
                visible: cursor.visible && !terminal.scrolled_back,
                shape: cursor.shape,
            },
        ),
        None => None,
    }
}

/// The cursor of a popup, when there is one with a running terminal.
pub fn popup_terminal_cursor(popup: &Option<TerminalCursor>) -> (cursor: Option<CursorState>)
    ensures
        cursor == match *popup {
            Some(terminal) => host_view(terminal),
            None => None,
        },
{
    match popup {
        Some(terminal) => view_cursor(terminal),
        None => None,
    }
}

/// Whether a frame shows no terminal's cursor: without a popup, the focused terminal hid it
/// before the layout was computed or after.
pub fn suppresses_frame_cursor(
    popup_visible: bool,
    before_layout: &CursorScene,
    after_layout: &CursorScene,
) -> (yes: bool)
    ensures
        yes == (!popup_visible && (before_layout.owner() == Some(true) || after_layout.owner()
            == Some(true))),
{
    !popup_visible && (focused_terminal_suppresses_host_cursor(before_layout)
        || focused_terminal_suppresses_host_cursor(after_layout))
}

/// The cursor of a frame: the popup's if a popup is open; none if it is suppressed; otherwise the
/// focused terminal's, or the one that drawing left behind if no terminal owns the cursor.
pub open spec fn frame_cursor(
    popup_visible: bool,
    popup: Option<CursorState>,
    suppressed: bool,
    focused: Option<CursorState>,
    owned: bool,
    rendered: Option<CursorState>,
) -> Option<CursorState> {
    if popup_visible {
        popup
    } else if suppressed {
        None
    } else if focused is Some {
        focused
    } else if owned {
        None
    } else {
        rendered
    }
}

/// Chooses the cursor of a frame.
pub fn choose_frame_cursor(
    popup_visible: bool,
    popup: Option<CursorState>,
    suppressed: bool,
    focused: Option<CursorState>,
    scene: &CursorScene,
    tracker: &CursorTracker,
) -> (cursor: Option<CursorState>)
    ensures
        cursor == frame_cursor(
            popup_visible,
            popup,
            suppressed,
            focused,
            scene.owner() is Some,
            drawn_cursor(tracker@),
        ),
{
    if popup_visible {
        return popup;
    }
    if suppressed {
        return None;
    }
    match focused {
        Some(cursor) => Some(cursor),
        None => {
            if focused_terminal_owns_host_cursor(scene) {
                None
            } else {
                tracker.rendered_cursor()
            }
        },
    }
}

/// Chooses the cursor of a frame that shows one terminal: its own, or the one that drawing left
/// behind; none during synchronized output.
pub fn choose_terminal_cursor(terminal: &TerminalCursor, tracker: &CursorTracker) -> (cursor:
    Option<CursorState>)
    ensures
        cursor == if terminal.synchronized_output {
            None
        } else if terminal.cursor is Some {
            host_view(*terminal)
        } else {
            drawn_cursor(tracker@)
        },
{
    if terminal.synchronized_output {
        return None;
    }
    match view_cursor(terminal) {
        Some(cursor) => Some(cursor),
        None => tracker.rendered_cursor(),
    }
}

/// A frame that suppresses the cursor shows none.
pub proof fn law_suppressed_frame_has_no_cursor(
    popup: Option<CursorState>,
    focused: Option<CursorState>,
    owned: bool,
    rendered: Option<CursorState>,
)
    ensures
        frame_cursor(false, popup, true, focused, owned, rendered) is None,
{
}

/// A terminal that hides the host's cursor owns it.
pub proof fn law_suppressing_terminal_is_owner(scene: CursorScene)
    requires
        scene.owner() == Some(true),
    ensures
        scene.owner() is Some,
        scene.terminal_mode,
        scene.active is Some,
{
}

/// The cursor that drawing left behind is never shown over a popup or for a terminal that owns
/// the cursor.
pub proof fn law_drawn_cursor_is_the_last_resort(
    popup_visible: bool,
    popup: Option<CursorState>,
    suppressed: bool,
    focused: Option<CursorState>,
    owned: bool,
    one: Option<CursorState>,
    other: Option<CursorState>,
)
    requires
        popup_visible || suppressed || owned || focused is Some,
    ensures
        frame_cursor(popup_visible, popup, suppressed, focused, owned, one) == frame_cursor(
            popup_visible,
            popup,
            suppressed,
            focused,
            owned,
            other,
        ),
{
}

/// A terminal that shows its history shows no visible cursor.
pub proof fn law_history_hides_the_cursor(terminal: TerminalCursor)
    requires
        terminal.scrolled_back,
    ensures
        host_view(terminal) matches Some(cursor) ==> !cursor.visible,
{
}

/// The focused terminal owns the cursor exactly in terminal mode, with a workspace shown, if the
/// first focused pane exposes its cursor and has a running terminal; the flag is that terminal's.
pub proof fn law_owner_is_the_first_focused_pane(scene: CursorScene, flag: bool)
    ensures
        scene.owner() == Some(flag) <==> scene.terminal_mode && scene.active is Some && exists|
            i: int,
        |
            {
                &&& 0 <= i < scene.panes@.len()
                &&& (#[trigger] scene.panes@[i]).is_focused
                &&& forall|j: int| 0 <= j < i ==> !(#[trigger] scene.panes@[j]).is_focused
                &&& scene.panes@[i].exposes_host_cursor
                &&& scene.panes@[i].synchronized_output == Some(flag)
            },
{
    let panes = scene.panes@;
    if exists|i: int| is_first_focused(panes, i) {
        let f = choose|i: int| is_first_focused(panes, i);
        assert(is_first_focused(panes, f));
        assert forall|i: int| is_first_focused(panes, i) implies i == f by {
            if i < f {
                assert(!panes[i].is_focused);
            } else if f < i {
                assert(!panes[f].is_focused);
            }
        }
        assert(panes[f].is_focused);
    }
    assert forall|i: int|
        0 <= i < panes.len() && (#[trigger] panes[i]).is_focused && (forall|j: int|
            0 <= j < i ==> !(#[trigger] panes[j]).is_focused) implies is_first_focused(panes, i) by {
    }
}

/// The cursor that drawing left behind is visible, in the default shape, at the cell where
/// drawing put it; there is none if drawing put it nowhere.
pub proof fn law_drawn_cursor_is_where_it_was_put(place: Option<(u16, u16)>)
    ensures
        place is None <==> drawn_cursor(place) is None,
        drawn_cursor(place) matches Some(cursor) ==> Some((cursor.x, cursor.y)) == place
            && cursor.visible && cursor.shape == 0,
{
}

/// A terminal's cursor is shown unless synchronized output is going on: at its own place, in its
/// own shape, and visible exactly if the terminal has it visible and does not show its history.
pub proof fn law_terminal_cursor_keeps_place_and_shape(terminal: TerminalCursor)
    ensures
        host_view(terminal) is Some <==> terminal.cursor is Some && !terminal.synchronized_output,
        host_view(terminal) matches Some(shown) ==> terminal.cursor matches Some(own) && shown.x
            == own.x && shown.y == own.y && shown.shape == own.shape && (shown.visible
            <==> own.visible && !terminal.scrolled_back),
{
}

/// The cursor of a frame comes from one source only: from the popup if there is one; from nowhere
/// if the cursor is suppressed; from the focused terminal if it has one; and from drawing if no
/// terminal owns the cursor.
pub proof fn law_frame_cursor_has_one_source(
    popup: Option<CursorState>,
    focused: Option<CursorState>,
    own: CursorState,
    suppressed: bool,
    owned: bool,
    rendered: Option<CursorState>,
)
    ensures
        frame_cursor(true, popup, suppressed, focused, owned, rendered) == popup,
        frame_cursor(false, popup, true, focused, owned, rendered) is None,
        frame_cursor(false, popup, false, Some(own), owned, rendered) == Some(own),
        frame_cursor(false, popup, false, None, true, rendered) is None,
        frame_cursor(false, popup, false, None, false, rendered) == rendered,
{
}

} // verus!
