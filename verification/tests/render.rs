use herdr::cursor::{
    choose_frame_cursor, choose_terminal_cursor, focused_terminal_owns_host_cursor,
    focused_terminal_suppresses_host_cursor, popup_terminal_cursor, suppresses_frame_cursor,
    CursorScene, CursorTracker, PaneInfo, TerminalCursor,
};
use herdr::frame::{
    same_bytes, CellData, CursorState, FrameData, RawOsc, RenderEncoding, ServerMessage,
    SixelSplice,
};
use herdr::render_stream::{
    final_sync_output_end, insert_graphics_before_sync_end, prepare_blit, ClientRenderState,
    EncodedBlit, PreparedRender,
};

const SIXEL: &[u8] = b"\x1bP0;0;8q\"1;1;4;4#0;2;0;0;0#0!4~-!4~\x1b\\";

fn count_occurrences(haystack: &[u8], needle: &[u8]) -> usize {
    if needle.is_empty() || haystack.len() < needle.len() {
        return 0;
    }
    haystack
        .windows(needle.len())
        .filter(|window| *window == needle)
        .count()
}

/// An 80 by 24 frame with a text in its first row.
fn frame(text: &str) -> FrameData {
    let mut cells: Vec<CellData> = text
        .chars()
        .map(|c| CellData {
            symbol: c.to_string(),
            fg: 7,
            bg: 0,
            modifiers: 0,
            hyperlink: None,
        })
        .collect();
    cells.resize(
        80 * 24,
        CellData { symbol: " ".to_string(), fg: 7, bg: 0, modifiers: 0, hyperlink: None },
    );
    FrameData { width: 80, height: 24, cells, cursor: None, graphics: Vec::new() }
}

fn text_row(frame: &FrameData) -> String {
    frame.cells[..10].iter().map(|cell| cell.symbol.as_str()).collect()
}

/// Draws the text of a frame inside a synchronized part.
fn blit(last: Option<&FrameData>, frame: &FrameData, repaint: bool) -> EncodedBlit {
    let mut bytes = b"\x1b[?2026h".to_vec();
    for cell in &frame.cells {
        bytes.extend_from_slice(cell.symbol.as_bytes());
    }
    bytes.extend_from_slice(b"\x1b[?2026l");
    EncodedBlit { full: repaint || last.is_none(), bytes }
}

fn terminal_frame_bytes(prepared: &PreparedRender) -> Vec<u8> {
    match prepared.message() {
        ServerMessage::Terminal(frame) => frame.bytes.clone(),
        other => panic!("expected terminal frame, got {other:?}"),
    }
}

#[test]
fn sixel_passthrough_delivered_once_to_terminal_ansi_client() {
    let mut render_state = ClientRenderState::new(RenderEncoding::TerminalAnsi);

    // First frame: the sixel is spliced exactly once, wrapped in DECSC + CUP (the cursor was
    // after "hello": row 1, col 6) + DECRC.
    let mut wrapped = b"\x1b7\x1b[1;6H".to_vec();
    wrapped.extend_from_slice(SIXEL);
    wrapped.extend_from_slice(b"\x1b8");
    let prepared = render_state
        .prepare_frame_with_sixels(frame("helloworld"), &wrapped, Vec::new(), &[], Vec::new(), blit)
        .expect("first frame must encode");
    let client_bytes = terminal_frame_bytes(&prepared);
    assert_eq!(count_occurrences(&client_bytes, SIXEL), 1);
    assert_eq!(count_occurrences(&client_bytes, &wrapped), 1);
    render_state.commit_sent_frame(prepared);

    // The payload must not have corrupted the text grid.
    assert_eq!(text_row(render_state.last_frame().expect("baseline")), "helloworld");

    // Second frame (new text, no new emission): zero sixel bytes.
    let prepared = render_state
        .prepare_frame_with_sixels(
            frame("helloworld again"),
            &[],
            Vec::new(),
            &[],
            Vec::new(),
            blit,
        )
        .expect("changed text must encode a second frame");
    let client_bytes = terminal_frame_bytes(&prepared);
    assert_eq!(count_occurrences(&client_bytes, b"\x1bP"), 0);
    render_state.commit_sent_frame(prepared);

    // An unchanged frame with no pending sixels is skipped entirely.
    assert!(render_state
        .prepare_frame_with_sixels(
            frame("helloworld again"),
            &[],
            Vec::new(),
            &[],
            Vec::new(),
            blit
        )
        .is_none());
}

#[test]
fn osc5522_passthrough_delivered_once_to_terminal_ansi_client() {
    const OSC: &[u8] = b"\x1b]5522;type=read:pw=abc\x07";

    let mut render_state = ClientRenderState::new(RenderEncoding::TerminalAnsi);

    // First frame: the OSC is spliced exactly once, verbatim, with no positioning wrap.
    let prepared = render_state
        .prepare_frame_with_sixels(frame("helloworld"), &[], Vec::new(), OSC, Vec::new(), blit)
        .expect("first frame must encode");
    let client_bytes = terminal_frame_bytes(&prepared);
    assert_eq!(count_occurrences(&client_bytes, OSC), 1);
    render_state.commit_sent_frame(prepared);

    // The OSC payload must not have corrupted the text grid.
    assert_eq!(text_row(render_state.last_frame().expect("baseline")), "helloworld");

    // Second frame (new text, no new emission): zero OSC bytes.
    let prepared = render_state
        .prepare_frame_with_sixels(
            frame("helloworld again"),
            &[],
            Vec::new(),
            &[],
            Vec::new(),
            blit,
        )
        .expect("changed text must encode a second frame");
    let client_bytes = terminal_frame_bytes(&prepared);
    assert_eq!(count_occurrences(&client_bytes, b"\x1b]5522"), 0);
    render_state.commit_sent_frame(prepared);

    // An unchanged frame with no pending emissions is skipped entirely.
    assert!(render_state
        .prepare_frame_with_sixels(
            frame("helloworld again"),
            &[],
            Vec::new(),
            &[],
            Vec::new(),
            blit
        )
        .is_none());
}

#[test]
fn terminal_frames_are_numbered_in_the_order_they_are_sent() {
    let mut state = ClientRenderState::new(RenderEncoding::TerminalAnsi);
    assert!(state.is_terminal_ansi());
    assert_eq!(state.terminal_seq(), Some(0));
    for n in 1..4u64 {
        let text = format!("frame {n}");
        // Preparing alone takes no number.
        assert!(state.prepare_frame(frame(&text), blit).is_some());
        let prepared = state.prepare_frame(frame(&text), blit).expect("changed");
        let ServerMessage::Terminal(sent) = prepared.message() else {
            panic!("expected a terminal frame");
        };
        assert_eq!(sent.seq, n);
        assert_eq!((sent.width, sent.height), (80, 24));
        assert_eq!(sent.full, n == 1);
        state.commit_sent_frame(prepared);
        assert_eq!(state.terminal_seq(), Some(n));
    }
}

#[test]
fn preparing_again_sends_the_same() {
    let mut state = ClientRenderState::new(RenderEncoding::TerminalAnsi);
    let first = state.prepare_frame(frame("a"), blit).expect("first");
    state.commit_sent_frame(first);
    state.request_repaint();
    let prepare = |state: &ClientRenderState| {
        state
            .prepare_frame_with_sixels(frame("b"), b"S", Vec::new(), b"O", Vec::new(), blit)
            .expect("changed")
    };
    let (one, other) = (prepare(&state), prepare(&state));
    assert_eq!(one.message(), other.message());
    assert_eq!(state.terminal_seq(), Some(1));
    assert_eq!(state.last_frame(), Some(&frame("a")));
    // The repaint is still pending.
    let ServerMessage::Terminal(sent) = other.message() else {
        panic!("expected a terminal frame");
    };
    assert!(sent.full);
    assert_eq!(sent.seq, 2);

    let state = ClientRenderState::new(RenderEncoding::SemanticFrame);
    let prepare = |state: &ClientRenderState| {
        let splices = vec![SixelSplice { x: 1, y: 2, data: vec![3] }];
        let raw_osc = vec![RawOsc { data: vec![4] }];
        state
            .prepare_frame_with_sixels(frame("b"), &[], splices, &[], raw_osc, blit)
            .expect("changed")
    };
    assert_eq!(prepare(&state).message(), prepare(&state).message());
}

#[test]
fn repaint_and_reset_force_the_next_terminal_frame() {
    let mut state = ClientRenderState::new(RenderEncoding::TerminalAnsi);
    let prepared = state.prepare_frame(frame("a"), blit).expect("first");
    state.commit_sent_frame(prepared);
    assert!(state.prepare_frame(frame("a"), blit).is_none());

    state.request_repaint();
    assert!(state.last_frame().is_some());
    let prepared = state.prepare_frame(frame("a"), blit).expect("repaint");
    let ServerMessage::Terminal(sent) = prepared.message() else {
        panic!("expected a terminal frame");
    };
    assert!(sent.full);
    state.commit_sent_frame(prepared);
    assert!(state.prepare_frame(frame("a"), blit).is_none());

    state.reset_semantic_input_baseline();
    assert!(state.prepare_frame(frame("a"), blit).is_none());
    state.request_repaint();
    state.reset_baseline();
    assert!(state.last_frame().is_none());
    assert_eq!(state.terminal_seq(), Some(2));
    assert!(state.prepare_frame(frame("a"), blit).is_some());
}

#[test]
fn semantic_clients_get_frames_with_their_records() {
    let mut state = ClientRenderState::new(RenderEncoding::SemanticFrame);
    assert!(!state.is_terminal_ansi());
    assert_eq!(state.terminal_seq(), None);
    let splice = SixelSplice { x: 1, y: 2, data: vec![3] };
    let osc = RawOsc { data: vec![4] };
    let prepared = state
        .prepare_frame_with_sixels(
            frame("a"),
            &[],
            vec![splice.clone()],
            &[],
            vec![osc.clone()],
            blit,
        )
        .expect("first");
    let ServerMessage::Frame { frame: sent, sixels, raw_osc } = prepared.message() else {
        panic!("expected a frame");
    };
    assert_eq!(*sent, frame("a"));
    assert_eq!(*sixels, vec![splice.clone()]);
    assert_eq!(*raw_osc, vec![osc.clone()]);
    state.commit_sent_frame(prepared);
    assert_eq!(state.last_frame(), Some(&frame("a")));

    // The records are gone, and the frame is known.
    assert!(state.prepare_frame(frame("a"), blit).is_none());
    // New records go out though the frame is known.
    assert!(state
        .prepare_frame_with_sixels(frame("a"), &[], vec![splice], &[], Vec::new(), blit)
        .is_some());
    assert!(state
        .prepare_frame_with_sixels(frame("a"), &[], Vec::new(), &[], vec![osc], blit)
        .is_some());

    state.reset_semantic_input_baseline();
    assert!(state.prepare_frame(frame("a"), blit).is_some());
    let prepared = state.prepare_frame(frame("a"), blit).expect("sent again");
    assert_eq!(prepared.into_frame(), Some(frame("a")));
    let prepared = state.prepare_frame(frame("a"), blit).expect("sent again");
    state.commit_sent_frame(prepared);
    state.request_repaint();
    assert!(state.last_frame().is_none());
    assert!(state.prepare_frame(frame("a"), blit).is_some());
}

#[test]
fn messages_of_the_other_encoding_change_nothing() {
    let mut semantic = ClientRenderState::new(RenderEncoding::SemanticFrame);
    let mut ansi = ClientRenderState::new(RenderEncoding::TerminalAnsi);
    let for_semantic = semantic.prepare_frame(frame("a"), blit).expect("first");
    let for_ansi = ansi.prepare_frame(frame("a"), blit).expect("first");
    semantic.commit_sent_frame(for_ansi);
    ansi.commit_sent_frame(for_semantic);
    assert!(semantic.last_frame().is_none());
    assert!(ansi.last_frame().is_none());
    assert_eq!(ansi.terminal_seq(), Some(0));
    let control = PreparedRender::Semantic {
        message: ServerMessage::EndpointControl { kind: "k".into(), data: "d".into() },
    };
    assert!(control.into_frame().is_none());
    let unsent = PreparedRender::TerminalAnsi {
        message: ServerMessage::EndpointControl { kind: "k".into(), data: "d".into() },
        frame: frame("b"),
        encoded: None,
    };
    ansi.commit_sent_frame(unsent);
    assert!(ansi.last_frame().is_none());
}

#[test]
fn payloads_stand_before_the_end_of_synchronized_output() {
    let mut shown = frame("");
    shown.graphics = b"G".to_vec();
    let drawn = EncodedBlit { full: true, bytes: b"a\x1b[?2026lb\x1b[?2026lc".to_vec() };
    let prepared = prepare_blit(drawn, shown, 7, b"S", b"O");
    let ServerMessage::Terminal(sent) = prepared.message() else {
        panic!("expected a terminal frame");
    };
    assert_eq!(sent.seq, 7);
    assert_eq!(sent.bytes, b"a\x1b[?2026lbGSO\x1b[?2026lc".to_vec());
    let PreparedRender::TerminalAnsi { encoded: Some(encoded), .. } = &prepared else {
        panic!("expected the output");
    };
    assert_eq!(encoded.bytes, sent.bytes);

    // Without a synchronized part they follow, unless one of them completes its end.
    let mut shown = frame("");
    shown.graphics = b"G".to_vec();
    let drawn = EncodedBlit { full: false, bytes: b"abc".to_vec() };
    assert_eq!(
        terminal_frame_bytes(&prepare_blit(drawn, shown, 1, b"S", b"O")),
        b"abcGSO".to_vec()
    );
    let mut shown = frame("");
    shown.graphics = b"l".to_vec();
    let drawn = EncodedBlit { full: false, bytes: b"\x1b[?2026".to_vec() };
    assert_eq!(
        terminal_frame_bytes(&prepare_blit(drawn, shown, 1, b"S", b"O")),
        b"SO\x1b[?2026l".to_vec()
    );

    assert_eq!(final_sync_output_end(b"\x1b[?2026l"), Some(0));
    assert_eq!(final_sync_output_end(b"\x1b[?2026h"), None);
    assert_eq!(final_sync_output_end(b""), None);
    let mut plain = b"abc".to_vec();
    insert_graphics_before_sync_end(&mut plain, b"");
    assert_eq!(plain, b"abc".to_vec());
    insert_graphics_before_sync_end(&mut plain, b"de");
    assert_eq!(plain, b"abcde".to_vec());
}

#[test]
fn frames_differ_by_every_part() {
    let base = frame("abc");
    assert!(base.same(&frame("abc")));
    assert!(!base.same(&frame("abd")));
    let cursor = CursorState { x: 1, y: 2, visible: true, shape: 0 };
    assert!(!base.same(&FrameData { cursor: Some(cursor), ..frame("abc") }));
    assert!(!base.same(&FrameData { graphics: vec![1], ..frame("abc") }));
    assert!(!base.same(&FrameData { width: 81, ..frame("abc") }));
    assert!(!base.same(&FrameData { height: 25, ..frame("abc") }));
    let mut linked = frame("abc");
    linked.cells[0].hyperlink = Some("x".to_string());
    assert!(!base.same(&linked));
    let mut shorter = frame("abc");
    shorter.cells.pop();
    assert!(!base.same(&shorter));
    let mut bold = frame("abc");
    bold.cells[2].modifiers = 1;
    assert!(!base.same(&bold));
    assert!(same_bytes(b"ab", b"ab"));
    assert!(!same_bytes(b"ab", b"ac"));
    assert!(!same_bytes(b"ab", b"abc"));
}

fn pane(is_focused: bool, exposes_host_cursor: bool, synchronized_output: Option<bool>) -> PaneInfo {
    PaneInfo { is_focused, exposes_host_cursor, synchronized_output }
}

fn scene(panes: Vec<PaneInfo>) -> CursorScene {
    CursorScene { terminal_mode: true, active: Some(0), panes }
}

#[test]
fn first_focused_pane_owns_the_cursor() {
    let owned = scene(vec![pane(false, true, Some(true)), pane(true, true, Some(false))]);
    assert!(focused_terminal_owns_host_cursor(&owned));
    assert!(!focused_terminal_suppresses_host_cursor(&owned));
    let hidden = scene(vec![pane(true, true, Some(true)), pane(true, true, Some(false))]);
    assert!(focused_terminal_owns_host_cursor(&hidden));
    assert!(focused_terminal_suppresses_host_cursor(&hidden));
    for nobody in [
        scene(vec![]),
        scene(vec![pane(false, true, Some(true))]),
        scene(vec![pane(true, false, Some(true))]),
        scene(vec![pane(true, true, None)]),
        CursorScene { terminal_mode: false, ..scene(vec![pane(true, true, Some(true))]) },
        CursorScene { active: None, ..scene(vec![pane(true, true, Some(true))]) },
    ] {
        assert!(!focused_terminal_owns_host_cursor(&nobody));
        assert!(!focused_terminal_suppresses_host_cursor(&nobody));
    }
}

#[test]
fn drawing_leaves_a_cursor_behind() {
    let mut tracker = CursorTracker::new();
    assert_eq!(tracker.rendered_cursor(), None);
    tracker.set_cursor_position(3, 4);
    assert_eq!(
        tracker.rendered_cursor(),
        Some(CursorState { x: 3, y: 4, visible: true, shape: 0 })
    );
    tracker.hide_cursor();
    assert_eq!(tracker.rendered_cursor(), None);
}

#[test]
fn frame_cursor_is_chosen_in_order() {
    let own = CursorState { x: 1, y: 1, visible: true, shape: 2 };
    let mut tracker = CursorTracker::new();
    tracker.set_cursor_position(9, 9);
    let drawn = tracker.rendered_cursor();
    let nobody = scene(vec![]);
    let owner = scene(vec![pane(true, true, Some(false))]);
    let busy = scene(vec![pane(true, true, Some(true))]);
    // A popup decides alone.
    assert_eq!(choose_frame_cursor(true, Some(own), true, None, &owner, &tracker), Some(own));
    assert_eq!(choose_frame_cursor(true, None, false, Some(own), &nobody, &tracker), None);
    // Synchronized output hides the cursor, before and after the layout.
    assert!(suppresses_frame_cursor(false, &busy, &nobody));
    assert!(suppresses_frame_cursor(false, &owner, &busy));
    assert!(!suppresses_frame_cursor(false, &owner, &owner));
    assert!(!suppresses_frame_cursor(true, &busy, &busy));
    assert_eq!(choose_frame_cursor(false, None, true, Some(own), &owner, &tracker), None);
    assert_eq!(choose_frame_cursor(false, None, true, None, &nobody, &tracker), None);
    // The focused terminal's cursor, or none if the owner has none.
    assert_eq!(choose_frame_cursor(false, None, false, Some(own), &owner, &tracker), Some(own));
    assert_eq!(choose_frame_cursor(false, None, false, None, &owner, &tracker), None);
    // Otherwise what drawing left behind.
    assert_eq!(choose_frame_cursor(false, None, false, None, &nobody, &tracker), drawn);
    assert_eq!(choose_frame_cursor(false, None, false, Some(own), &nobody, &tracker), Some(own));
}

#[test]
fn terminal_cursors_hide_in_history_and_during_synchronized_output() {
    let own = CursorState { x: 1, y: 2, visible: true, shape: 5 };
    let terminal = |synchronized_output, cursor, scrolled_back| TerminalCursor {
        synchronized_output,
        cursor,
        scrolled_back,
    };
    assert_eq!(popup_terminal_cursor(&None), None);
    assert_eq!(popup_terminal_cursor(&Some(terminal(true, Some(own), false))), None);
    assert_eq!(popup_terminal_cursor(&Some(terminal(false, None, false))), None);
    assert_eq!(popup_terminal_cursor(&Some(terminal(false, Some(own), false))), Some(own));
    let hidden = CursorState { visible: false, ..own };
    assert_eq!(popup_terminal_cursor(&Some(terminal(false, Some(own), true))), Some(hidden));
    assert_eq!(popup_terminal_cursor(&Some(terminal(false, Some(hidden), false))), Some(hidden));

    let mut tracker = CursorTracker::new();
    tracker.set_cursor_position(9, 9);
    assert_eq!(choose_terminal_cursor(&terminal(true, Some(own), false), &tracker), None);
    assert_eq!(choose_terminal_cursor(&terminal(true, None, false), &tracker), None);
    assert_eq!(choose_terminal_cursor(&terminal(false, Some(own), true), &tracker), Some(hidden));
    assert_eq!(
        choose_terminal_cursor(&terminal(false, None, false), &tracker),
        tracker.rendered_cursor()
    );
}
