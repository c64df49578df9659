//! What is sent to a client, frame by frame.
//!
//! Each client has a baseline: the last frame that was sent to it. A frame that equals the
//! baseline is skipped. Passthrough emissions go out with a frame but never enter the baseline,
//! so that each of them is sent at most once.

use vstd::prelude::*;

use crate::frame::{
    frames_agree, law_frames_show_the_same_iff_all_parts_agree, FrameData, FrameView, RawOsc,
    RenderEncoding, ServerMessage, SixelSplice, TerminalFrame,
};
use crate::text::push_bytes;

verus! {

/// The control sequence that ends synchronized output: `ESC [ ? 2026 l`.
pub open spec fn sync_end() -> Seq<u8> {
    seq![27u8, 91u8, 63u8, 50u8, 48u8, 50u8, 54u8, 108u8]
}

/// Synchronized output ends at this place.
pub open spec fn ends_sync_at(bytes: Seq<u8>, k: int) -> bool {
    0 <= k && k + sync_end().len() <= bytes.len() && bytes.subrange(k, k + sync_end().len())
        == sync_end()
}

/// `k` is the last place where synchronized output ends.
pub open spec fn is_final_sync_end(bytes: Seq<u8>, k: int) -> bool {
    &&& ends_sync_at(bytes, k)
    &&& forall|j: int| k < j ==> !#[trigger] ends_sync_at(bytes, j)
}

/// Whether synchronized output ends at `k`.
fn sync_ends_at(bytes: &[u8], k: usize) -> (yes: bool)
    requires
        k + 8 <= bytes.len(),
    ensures
        yes == ends_sync_at(bytes@, k as int),
{
    let found = bytes[k] == 27 && bytes[k + 1] == 91 && bytes[k + 2] == 63 && bytes[k + 3] == 50
        && bytes[k + 4] == 48 && bytes[k + 5] == 50 && bytes[k + 6] == 54 && bytes[k + 7] == 108;
    proof {
        let part = bytes@.subrange(k as int, k + 8);
        if found {
            assert(part =~= sync_end());
        } else if part == sync_end() {
            assert(part[0] == 27 && part[1] == 91 && part[2] == 63 && part[3] == 50 && part[4] == 48
                && part[5] == 50 && part[6] == 54 && part[7] == 108);
        }
    }
    found
}

/// The last place where synchronized output ends.
pub fn final_sync_output_end(bytes: &[u8]) -> (place: Option<usize>)
    ensures
        match place {
            Some(k) => is_final_sync_end(bytes@, k as int),
            None => forall|k: int| !#[trigger] ends_sync_at(bytes@, k),
        },
{
    if bytes.len() < 8 {
        return None;
    }
    let mut k: usize = bytes.len() - 7;
    while k > 0
        invariant
            k + 7 <= bytes.len(),
            forall|j: int| k <= j ==> !#[trigger] ends_sync_at(bytes@, j),
        decreases k,
    {
        k -= 1;
        if sync_ends_at(bytes, k) {
            return Some(k);
        }
    }
    None
}

/// Output with a payload put in before the end of its synchronized part, or at its end when it
/// has none.
pub open spec fn spliced(bytes: Seq<u8>, payload: Seq<u8>) -> Seq<u8> {
    if payload.len() == 0 {
        bytes
    } else if exists|k: int| is_final_sync_end(bytes, k) {
        let k = choose|k: int| is_final_sync_end(bytes, k);
        bytes.take(k) + payload + bytes.skip(k)
    } else {
        bytes + payload
    }
}

/// There is only one last place.
proof fn lemma_final_sync_end_unique(bytes: Seq<u8>, a: int, b: int)
    requires
        is_final_sync_end(bytes, a),
        is_final_sync_end(bytes, b),
    ensures
        a == b,
{
    if a < b {
        assert(!ends_sync_at(bytes, b));
    } else if b < a {
        assert(!ends_sync_at(bytes, a));
    }
}

/// Puts a payload into output, before the end of its synchronized part.
pub fn insert_graphics_before_sync_end(encoded: &mut Vec<u8>, graphics: &[u8])
    ensures
        final(encoded)@ == spliced(old(encoded)@, graphics@),
{
    if graphics.len() == 0 {
        return;
    }
    match final_sync_output_end(encoded.as_slice()) {
        Some(k) => {
            let mut tail = encoded.split_off(k);
            push_bytes(encoded, graphics);
            encoded.append(&mut tail);
            proof {
                let all = old(encoded)@;
                let found = choose|k: int| is_final_sync_end(all, k);
                lemma_final_sync_end_unique(all, found, k as int);
                assert(encoded@ =~= spliced(all, graphics@));
            }
        },
        None => {
            push_bytes(encoded, graphics);
        },
    }
}

/// A frame as terminal output.
pub struct EncodedBlit {
    /// The output draws the whole screen, not only what changed.
    pub full: bool,
    pub bytes: Vec<u8>,
}

/// The baseline of a terminal: the last frame that was drawn on it.
pub struct BlitEncoder {
    last_frame: Option<FrameData>,
}

/// What an optional frame shows.
pub open spec fn shown(frame: Option<FrameData>) -> Option<FrameView> {
    match frame {
        Some(frame) => Some(frame@),
        None => None,
    }
}

impl View for BlitEncoder {
    type V = Option<FrameView>;

    closed spec fn view(&self) -> Option<FrameView> {
        shown(self.last_frame)
    }
}

impl BlitEncoder {
    /// A terminal on which nothing was drawn yet.
    pub fn new() -> (encoder: Self)
        ensures
            encoder@ is None,
    {
        BlitEncoder { last_frame: None }
    }

    /// Whether the terminal shows this frame.
    pub fn is_current(&self, frame: &FrameData) -> (yes: bool)
        ensures
            yes == (self@ == Some(frame@)),
    {
        match &self.last_frame {
            Some(last) => last.same(frame),
            None => false,
        }
    }

    /// The last frame that was drawn.
    pub fn last_frame(&self) -> (frame: Option<&FrameData>)
        ensures
            match frame {
                Some(last) => self@ == Some(last@),
                None => self@ is None,
            },
    {
        self.last_frame.as_ref()
    }

    /// The frame was drawn with this output.
    pub fn commit(&mut self, frame: FrameData, _encoded: EncodedBlit)
        ensures
            final(self)@ == Some(frame@),
    {
        self.last_frame = Some(frame);
    }
}

/// What a client was sent, by the encoding that it negotiated.
pub enum ClientRenderState {
    /// The client draws frames itself.
    Semantic { last_frame: Option<FrameData> },
    /// The client shows terminal output.
    TerminalAnsi { blit_encoder: BlitEncoder, seq: u64, repaint_pending: bool },
}

/// The state of a client: its encoding, its baseline, the number of the last terminal frame, and
/// whether the next one must draw the whole screen.
pub ghost struct RenderView {
    pub terminal_ansi: bool,
    pub baseline: Option<FrameView>,
    pub seq: nat,
    pub repaint_pending: bool,
}

impl View for ClientRenderState {
    type V = RenderView;

    open spec fn view(&self) -> RenderView {
        match self {
            ClientRenderState::Semantic { last_frame } => RenderView {
                terminal_ansi: false,
                baseline: shown(*last_frame),
                seq: 0,
                repaint_pending: false,
            },
            ClientRenderState::TerminalAnsi { blit_encoder, seq, repaint_pending } => RenderView {
                terminal_ansi: true,
                baseline: blit_encoder@,
                seq: *seq as nat,
                repaint_pending: *repaint_pending,
            },
        }
    }
}

impl RenderView {
    /// Only terminal frames are numbered and repainted.
    pub open spec fn well_formed(self) -> bool {
        !self.terminal_ansi ==> self.seq == 0 && !self.repaint_pending
    }

    /// A client that was sent nothing yet.
    pub open spec fn fresh(terminal_ansi: bool) -> RenderView {
        RenderView { terminal_ansi, baseline: None, seq: 0, repaint_pending: false }
    }

    /// The client as if it had been sent nothing; the numbers go on.
    pub open spec fn without_baseline(self) -> RenderView {
        RenderView { baseline: None, repaint_pending: false, ..self }
    }

    /// The client after it asked for everything to be drawn again.
    pub open spec fn with_repaint(self) -> RenderView {
        if self.terminal_ansi {
            RenderView { repaint_pending: true, ..self }
        } else {
            RenderView { baseline: None, ..self }
        }
    }

    /// The client after a frame was sent to it.
    pub open spec fn with_frame(self, frame: FrameView) -> RenderView {
        if self.terminal_ansi {
            RenderView {
                baseline: Some(frame),
                seq: self.seq + 1,
                repaint_pending: false,
                ..self
            }
        } else {
            RenderView { baseline: Some(frame), ..self }
        }
    }

    /// There is nothing to send: the client has the frame, and no passthrough goes with it.
    pub open spec fn skips(self, frame: FrameView, has_passthrough: bool) -> bool {
        !has_passthrough && !self.repaint_pending && self.baseline == Some(frame)
    }
}

/// A message that is ready to be sent, with what the baseline needs after it was.
pub enum PreparedRender {
    Semantic { message: ServerMessage },
    TerminalAnsi { message: ServerMessage, frame: FrameData, encoded: Option<EncodedBlit> },
}

impl PreparedRender {
    /// The frame that the message shows.
    pub open spec fn frame(self) -> Option<FrameData> {
        match self {
            PreparedRender::Semantic { message: ServerMessage::Frame { frame, .. } } => Some(frame),
            PreparedRender::Semantic { .. } => None,
            PreparedRender::TerminalAnsi { frame, .. } => Some(frame),
        }
    }

    /// The message to send.
    pub open spec fn to_send(self) -> ServerMessage {
        match self {
            PreparedRender::Semantic { message } => message,
            PreparedRender::TerminalAnsi { message, .. } => message,
        }
    }

    /// The message.
    pub fn message(&self) -> (message: &ServerMessage)
        ensures
            *message == self.to_send(),
    {
        match self {
            PreparedRender::Semantic { message } => message,
            PreparedRender::TerminalAnsi { message, .. } => message,
        }
    }

    /// The frame, when the message is not to be sent after all.
    pub fn into_frame(self) -> (frame: Option<FrameData>)
        ensures
            frame == self.frame(),
    {
        match self {
            PreparedRender::Semantic { message: ServerMessage::Frame { frame, .. } } => Some(frame),
            PreparedRender::TerminalAnsi { frame, .. } => Some(frame),
            _ => None,
        }
    }
}

/// A client's state after a message was sent: it has the frame, if the message is one for its
/// encoding that shows a frame.
pub open spec fn committed(state: RenderView, prepared: PreparedRender) -> RenderView {
    match prepared {
        PreparedRender::Semantic { message: ServerMessage::Frame { frame, .. } } => if !state.terminal_ansi {
            state.with_frame(frame@)
        } else {
            state
        },
        PreparedRender::TerminalAnsi { frame, encoded: Some(_), .. } => if state.terminal_ansi {
            state.with_frame(frame@)
        } else {
            state
        },
        _ => state,
    }
}

/// The terminal output of a frame: what draws it, then its graphics, then the positioned and the
/// verbatim passthrough, all before the end of the synchronized part.
pub open spec fn terminal_output(
    blit: Seq<u8>,
    graphics: Seq<u8>,
    sixels: Seq<u8>,
    osc_bytes: Seq<u8>,
) -> Seq<u8> {
    spliced(spliced(spliced(blit, graphics), sixels), osc_bytes)
}

/// The message shows the frame with this output, as number `seq`.
pub open spec fn shows_blit(
    prepared: PreparedRender,
    frame: FrameData,
    seq: nat,
    full: bool,
    output: Seq<u8>,
) -> bool {
    match prepared {
        PreparedRender::TerminalAnsi {
            message: ServerMessage::Terminal(sent),
            frame: kept,
            encoded: Some(encoded),
        } => {
            &&& kept == frame
            &&& encoded.full == full
            &&& encoded.bytes@ == output
            &&& sent.seq == seq
            &&& sent.width == frame.width
            &&& sent.height == frame.height
            &&& sent.full == full
            &&& sent.bytes@ == output
        },
        _ => false,
    }
}

/// The message of a terminal frame, from the output that draws the frame.
pub fn prepare_blit(
    blit: EncodedBlit,
    frame: FrameData,
    seq: u64,
    sixels: &[u8],
    osc_bytes: &[u8],
) -> (prepared: PreparedRender)
    ensures
        shows_blit(
            prepared,
            frame,
            seq as nat,
            blit.full,
            terminal_output(blit.bytes@, frame.graphics@, sixels@, osc_bytes@),
        ),
{
    let mut encoded = blit;
    insert_graphics_before_sync_end(&mut encoded.bytes, &frame.graphics);
    insert_graphics_before_sync_end(&mut encoded.bytes, sixels);
    insert_graphics_before_sync_end(&mut encoded.bytes, osc_bytes);
    let message = ServerMessage::Terminal(
        TerminalFrame {
            seq,
            width: frame.width,
            height: frame.height,
            full: encoded.full,
            bytes: encoded.bytes.clone(),
        },
    );
    PreparedRender::TerminalAnsi { message, frame, encoded: Some(encoded) }
}

/// A frame that is prepared for a client takes the next number: it is a terminal frame, and it is
/// not skipped.
pub open spec fn takes_number(state: RenderView, frame: FrameView, has_passthrough: bool) -> bool {
    state.terminal_ansi && !state.skips(frame, has_passthrough)
}

/// What is prepared for a client: nothing when it has the frame and no passthrough goes with it;
/// otherwise the frame with the records, or the frame as the output that `encode` made of it,
/// with the payloads put in.
pub open spec fn prepares<E: Fn(Option<&FrameData>, &FrameData, bool) -> EncodedBlit>(
    state: RenderView,
    frame: FrameData,
    sixels: Seq<u8>,
    splices: Seq<SixelSplice>,
    osc_bytes: Seq<u8>,
    raw_osc: Seq<RawOsc>,
    encode: E,
    prepared: Option<PreparedRender>,
) -> bool {
    if !state.terminal_ansi {
        match prepared {
            None => state.skips(frame@, splices.len() > 0 || raw_osc.len() > 0),
            Some(
                PreparedRender::Semantic {
                    message: ServerMessage::Frame { frame: sent, sixels: rides, raw_osc: oscs },
                },
            ) => {
                &&& !state.skips(frame@, splices.len() > 0 || raw_osc.len() > 0)
                &&& sent == frame
                &&& rides@ == splices
                &&& oscs@ == raw_osc
            },
            Some(_) => false,
        }
    } else {
        match prepared {
            None => state.skips(frame@, sixels.len() > 0 || osc_bytes.len() > 0),
            Some(prepared) => {
                &&& !state.skips(frame@, sixels.len() > 0 || osc_bytes.len() > 0)
                &&& exists|last: Option<&FrameData>, blit: EncodedBlit|
                    {
                        &&& #[trigger] call_ensures(
                            encode,
                            (last, &frame, state.repaint_pending),
                            blit,
                        )
                        &&& last_shown(last) == state.baseline
                        &&& shows_blit(
                            prepared,
                            frame,
                            state.seq + 1,
                            blit.full,
                            terminal_output(blit.bytes@, frame.graphics@, sixels, osc_bytes),
                        )
                    }
            },
        }
    }
}

impl ClientRenderState {
    /// A client that was sent nothing yet.
    pub fn new(render_encoding: RenderEncoding) -> (state: Self)
        ensures
            state@ == RenderView::fresh(render_encoding is TerminalAnsi),
    {
        match render_encoding {
            RenderEncoding::SemanticFrame => ClientRenderState::Semantic { last_frame: None },
            RenderEncoding::TerminalAnsi => ClientRenderState::TerminalAnsi {
                blit_encoder: BlitEncoder::new(),
                seq: 0,
                repaint_pending: false,
            },
        }
    }

    /// Forgets the baseline.
    pub fn reset_baseline(&mut self)
        ensures
            final(self)@ == old(self)@.without_baseline(),
    {
        match self {
            ClientRenderState::Semantic { last_frame } => {
                *last_frame = None;
            },
            ClientRenderState::TerminalAnsi { blit_encoder, repaint_pending, .. } => {
                *blit_encoder = BlitEncoder::new();
                *repaint_pending = false;
            },
        }
    }

    /// Asks for the next frame to draw everything.
    pub fn request_repaint(&mut self)
        ensures
            final(self)@ == old(self)@.with_repaint(),
    {
        match self {
            ClientRenderState::Semantic { last_frame } => {
                *last_frame = None;
            },
            ClientRenderState::TerminalAnsi { repaint_pending, .. } => {
                *repaint_pending = true;
            },
        }
    }

    /// Forgets the baseline of a client that draws frames itself.
    pub fn reset_semantic_input_baseline(&mut self)
        ensures
            final(self)@ == if old(self)@.terminal_ansi {
                old(self)@
            } else {
                old(self)@.without_baseline()
            },
    {
        match self {
            ClientRenderState::Semantic { last_frame } => {
                *last_frame = None;
            },
            ClientRenderState::TerminalAnsi { .. } => {},
        }
    }

    /// Whether the client shows terminal output.
    pub fn is_terminal_ansi(&self) -> (yes: bool)
        ensures
            yes == self@.terminal_ansi,
    {
        match self {
            ClientRenderState::Semantic { .. } => false,
            ClientRenderState::TerminalAnsi { .. } => true,
        }
    }

    /// The last frame that was sent.
    pub fn last_frame(&self) -> (frame: Option<&FrameData>)
        ensures
            match frame {
                Some(last) => self@.baseline == Some(last@),
                None => self@.baseline is None,
            },
    {
        match self {
            ClientRenderState::Semantic { last_frame } => last_frame.as_ref(),
            ClientRenderState::TerminalAnsi { blit_encoder, .. } => blit_encoder.last_frame(),
        }
    }

    /// The number of the last terminal frame that was sent.
    pub fn terminal_seq(&self) -> (seq: Option<u64>)
        ensures
            match seq {
                Some(n) => self@.terminal_ansi && self@.seq == n,
                None => !self@.terminal_ansi,
            },
    {
        match self {
            ClientRenderState::Semantic { .. } => None,
            ClientRenderState::TerminalAnsi { seq, .. } => Some(*seq),
        }
    }

    /// Prepares a frame with no passthrough.
    ///
    /// `encode` turns a frame into terminal output: it is given the baseline, the frame, and
    /// whether everything is to be drawn.
    pub fn prepare_frame<E: Fn(Option<&FrameData>, &FrameData, bool) -> EncodedBlit>(
        &self,
        frame: FrameData,
        encode: E,
    ) -> (prepared: Option<PreparedRender>)
        requires
            takes_number(self@, frame@, false) ==> self@.seq < u64::MAX,
            forall|last: Option<&FrameData>, repaint: bool| #[trigger]
                call_requires(encode, (last, &frame, repaint)),
        ensures
            prepares(
                self@,
                frame,
                Seq::empty(),
                Seq::empty(),
                Seq::empty(),
                Seq::empty(),
                encode,
                prepared,
            ),
    {
        self.prepare_frame_with_sixels(frame, &[], Vec::new(), &[], Vec::new(), encode)
    }

    /// Prepares a frame with passthrough: bytes that go into terminal output (`sixels`, which
    /// position themselves, and `osc_bytes`, verbatim), or records that ride with a semantic
    /// frame (`splices`, positioned, and `raw_osc`, verbatim).
    ///
    /// `encode` turns a frame into terminal output: it is given the baseline, the frame, and
    /// whether everything is to be drawn.
    pub fn prepare_frame_with_sixels<E: Fn(Option<&FrameData>, &FrameData, bool) -> EncodedBlit>(
        &self,
        frame: FrameData,
        sixels: &[u8],
        splices: Vec<SixelSplice>,
        osc_bytes: &[u8],
        raw_osc: Vec<RawOsc>,
        encode: E,
    ) -> (prepared: Option<PreparedRender>)
        requires
            takes_number(self@, frame@, sixels@.len() > 0 || osc_bytes@.len() > 0) ==> self@.seq
                < u64::MAX,
            self@.terminal_ansi ==> splices@.len() == 0 && raw_osc@.len() == 0,
            forall|last: Option<&FrameData>, repaint: bool| #[trigger]
                call_requires(encode, (last, &frame, repaint)),
        ensures
            prepares(
                self@,
                frame,
                sixels@,
                splices@,
                osc_bytes@,
                raw_osc@,
                encode,
                prepared,
            ),
    {
        match self {
            ClientRenderState::Semantic { last_frame } => {
                if splices.len() == 0 && raw_osc.len() == 0 {
                    if let Some(last) = last_frame {
                        if last.same(&frame) {
                            return None;
                        }
                    }
                }
                let message = ServerMessage::Frame { frame, sixels: splices, raw_osc };
                Some(PreparedRender::Semantic { message })
            },
            ClientRenderState::TerminalAnsi { blit_encoder, seq, repaint_pending } => {
                if sixels.len() == 0 && osc_bytes.len() == 0 && !*repaint_pending
                    && blit_encoder.is_current(&frame) {
                    return None;
                }
                let blit = encode(blit_encoder.last_frame(), &frame, *repaint_pending);
                Some(prepare_blit(blit, frame, *seq + 1, sixels, osc_bytes))
            },
        }
    }

    /// Takes note that a message was sent.
    pub fn commit_sent_frame(&mut self, prepared: PreparedRender)
        requires
            committed(old(self)@, prepared).seq <= u64::MAX,
        ensures
            final(self)@ == committed(old(self)@, prepared),
    {
        match self {
            ClientRenderState::Semantic { last_frame } => match prepared {
                PreparedRender::Semantic { message: ServerMessage::Frame { frame, .. } } => {
                    *last_frame = Some(frame);
                },
                _ => {},
            },
            ClientRenderState::TerminalAnsi { blit_encoder, seq, repaint_pending } => match prepared {
                PreparedRender::TerminalAnsi { frame, encoded: Some(encoded), .. } => {
                    blit_encoder.commit(frame, encoded);
                    *seq = *seq + 1;
                    *repaint_pending = false;
                },
                _ => {},
            },
        }
    }
}

/// Every client's state is well formed.
pub proof fn law_states_are_well_formed(state: ClientRenderState)
    ensures
        state@.well_formed(),
{
}

/// What was sent is not sent again: after a frame was sent, with whatever passthrough, the same
/// frame with none is skipped.
pub proof fn law_sent_frame_is_skipped(state: RenderView, frame: FrameView)
    requires
        state.well_formed(),
    ensures
        state.with_frame(frame).skips(frame, false),
{
}

/// A frame that shows something else than the last one is sent.
pub proof fn law_changed_frame_is_sent(
    state: RenderView,
    last: FrameView,
    frame: FrameView,
    has_passthrough: bool,
)
    requires
        last != frame,
    ensures
        !state.with_frame(last).skips(frame, has_passthrough),
{
}

/// Passthrough is sent even when the client has the frame.
pub proof fn law_passthrough_is_sent(state: RenderView, frame: FrameView)
    ensures
        !state.skips(frame, true),
{
}

/// After the baseline was forgotten or a repaint was asked for, the next frame is sent, whatever
/// it shows.
pub proof fn law_next_frame_is_sent_after_reset(
    state: RenderView,
    frame: FrameView,
    has_passthrough: bool,
)
    ensures
        !RenderView::fresh(state.terminal_ansi).skips(frame, has_passthrough),
        !state.without_baseline().skips(frame, has_passthrough),
        !state.with_repaint().skips(frame, has_passthrough),
{
}

/// A terminal frame carries the number that the client's state has after it was sent, and the
/// frames that are sent one after the other are numbered one after the other.
pub proof fn law_terminal_frames_are_numbered<
    E: Fn(Option<&FrameData>, &FrameData, bool) -> EncodedBlit,
>(
    state: RenderView,
    frame: FrameData,
    sixels: Seq<u8>,
    osc_bytes: Seq<u8>,
    encode: E,
    prepared: PreparedRender,
)
    requires
        state.terminal_ansi,
        prepares(
            state,
            frame,
            sixels,
            Seq::empty(),
            osc_bytes,
            Seq::empty(),
            encode,
            Some(prepared),
        ),
    ensures
        prepared.to_send() matches ServerMessage::Terminal(sent) && sent.seq == state.seq + 1
            && committed(state, prepared).seq == sent.seq,
{
}

/// Sending what was prepared makes the frame the baseline, and nothing of the passthrough
/// becomes part of the state.
pub proof fn law_passthrough_leaves_no_trace<
    E: Fn(Option<&FrameData>, &FrameData, bool) -> EncodedBlit,
>(
    state: RenderView,
    frame: FrameData,
    sixels: Seq<u8>,
    splices: Seq<SixelSplice>,
    osc_bytes: Seq<u8>,
    raw_osc: Seq<RawOsc>,
    encode: E,
    prepared: PreparedRender,
)
    requires
        prepares(
            state,
            frame,
            sixels,
            splices,
            osc_bytes,
            raw_osc,
            encode,
            Some(prepared),
        ),
    ensures
        committed(state, prepared) == state.with_frame(frame@),
{
}

/// What positioned records show.
pub open spec fn splice_views(splices: Seq<SixelSplice>) -> Seq<(u16, u16, Seq<u8>)> {
    splices.map_values(|splice: SixelSplice| splice@)
}

/// What verbatim records hold.
pub open spec fn osc_views(raw_osc: Seq<RawOsc>) -> Seq<Seq<u8>> {
    raw_osc.map_values(|osc: RawOsc| osc@)
}

/// Two messages say the same.
pub open spec fn same_message(a: ServerMessage, b: ServerMessage) -> bool {
    match (a, b) {
        (
            ServerMessage::Frame { frame, sixels, raw_osc },
            ServerMessage::Frame { frame: other, sixels: splices, raw_osc: oscs },
        ) => {
            &&& frame@ == other@
            &&& splice_views(sixels@) == splice_views(splices@)
            &&& osc_views(raw_osc@) == osc_views(oscs@)
        },
        (ServerMessage::Terminal(frame), ServerMessage::Terminal(other)) => {
            &&& frame.seq == other.seq
            &&& frame.width == other.width
            &&& frame.height == other.height
            &&& frame.full == other.full
            &&& frame.bytes@ == other.bytes@
        },
        (
            ServerMessage::EndpointControl { kind, data },
            ServerMessage::EndpointControl { kind: name, data: document },
        ) => kind@ == name@ && data@ == document@,
        _ => false,
    }
}

/// What a baseline that is handed to an encoder shows.
pub open spec fn last_shown(last: Option<&FrameData>) -> Option<FrameView> {
    match last {
        Some(last) => Some(last@),
        None => None,
    }
}

/// Two outputs are the same.
pub open spec fn same_blit(a: EncodedBlit, b: EncodedBlit) -> bool {
    a.full == b.full && a.bytes@ == b.bytes@
}

/// The output of an encoder depends on what the two frames show and on whether everything is to
/// be drawn, and on nothing else.
pub open spec fn depends_on_frames_alone<
    E: Fn(Option<&FrameData>, &FrameData, bool) -> EncodedBlit,
>(encode: E) -> bool {
    forall|
        last: Option<&FrameData>,
        last_again: Option<&FrameData>,
        frame: &FrameData,
        frame_again: &FrameData,
        repaint: bool,
        blit: EncodedBlit,
        blit_again: EncodedBlit,
    |
        #[trigger] call_ensures(encode, (last, frame, repaint), blit) && #[trigger] call_ensures(
            encode,
            (last_again, frame_again, repaint),
            blit_again,
        ) && last_shown(last) == last_shown(last_again) && frame@ == frame_again@ ==> same_blit(
            blit,
            blit_again,
        )
}

/// Preparing what shows the same again, with nothing sent in between, sends the same message, a
/// terminal frame under the same number, or is skipped again; for an encoder whose output
/// depends on the frames alone. Preparing does not change the client's state.
pub proof fn law_preparing_again_sends_the_same<
    E: Fn(Option<&FrameData>, &FrameData, bool) -> EncodedBlit,
>(
    state: RenderView,
    frame: FrameData,
    frame_again: FrameData,
    sixels: Seq<u8>,
    splices: Seq<SixelSplice>,
    splices_again: Seq<SixelSplice>,
    osc_bytes: Seq<u8>,
    raw_osc: Seq<RawOsc>,
    raw_osc_again: Seq<RawOsc>,
    encode: E,
    prepared: Option<PreparedRender>,
    prepared_again: Option<PreparedRender>,
)
    requires
        frame@ == frame_again@,
        splice_views(splices) == splice_views(splices_again),
        osc_views(raw_osc) == osc_views(raw_osc_again),
        depends_on_frames_alone(encode),
        prepares(state, frame, sixels, splices, osc_bytes, raw_osc, encode, prepared),
        prepares(
            state,
            frame_again,
            sixels,
            splices_again,
            osc_bytes,
            raw_osc_again,
            encode,
            prepared_again,
        ),
    ensures
        prepared is Some <==> prepared_again is Some,
        prepared matches Some(first) ==> prepared_again matches Some(second) && same_message(
            first.to_send(),
            second.to_send(),
        ),
{
    assert(splices.len() == splice_views(splices).len());
    assert(splices_again.len() == splice_views(splices_again).len());
    assert(raw_osc.len() == osc_views(raw_osc).len());
    assert(raw_osc_again.len() == osc_views(raw_osc_again).len());
    if state.terminal_ansi && prepared is Some && prepared_again is Some {
        let (last, blit) = choose|last: Option<&FrameData>, blit: EncodedBlit|
            {
                &&& #[trigger] call_ensures(encode, (last, &frame, state.repaint_pending), blit)
                &&& last_shown(last) == state.baseline
                &&& shows_blit(
                    prepared->0,
                    frame,
                    state.seq + 1,
                    blit.full,
                    terminal_output(blit.bytes@, frame.graphics@, sixels, osc_bytes),
                )
            };
        let (last_again, blit_again) = choose|last: Option<&FrameData>, blit: EncodedBlit|
            {
                &&& #[trigger] call_ensures(
                    encode,
                    (last, &frame_again, state.repaint_pending),
                    blit,
                )
                &&& last_shown(last) == state.baseline
                &&& shows_blit(
                    prepared_again->0,
                    frame_again,
                    state.seq + 1,
                    blit.full,
                    terminal_output(blit.bytes@, frame_again.graphics@, sixels, osc_bytes),
                )
            };
        assert(same_blit(blit, blit_again));
        assert(frame@.graphics == frame_again@.graphics);
        assert(frame@.width == frame_again@.width && frame@.height == frame_again@.height);
    }
}

/// A message for one encoding changes nothing in a client of the other.
pub proof fn law_foreign_message_changes_nothing(state: RenderView, prepared: PreparedRender)
    requires
        state.terminal_ansi <==> prepared is Semantic,
    ensures
        committed(state, prepared) == state,
{
}

/// The end of the synchronized part stays the end when a payload is put in before it.
proof fn lemma_splice_keeps_sync_end(bytes: Seq<u8>, payload: Seq<u8>, k: int)
    requires
        is_final_sync_end(bytes, k),
    ensures
        spliced(bytes, payload) == bytes.take(k) + payload + bytes.skip(k),
        is_final_sync_end(spliced(bytes, payload), k + payload.len()),
{
    let n = payload.len() as int;
    let out = bytes.take(k) + payload + bytes.skip(k);
    if n == 0 {
        assert(out =~= bytes);
    } else {
        let found = choose|k: int| is_final_sync_end(bytes, k);
        lemma_final_sync_end_unique(bytes, found, k);
    }
    assert(out.subrange(k + n, k + n + 8) =~= bytes.subrange(k, k + 8));
    assert forall|j: int| k + n < j implies !#[trigger] ends_sync_at(out, j) by {
        if ends_sync_at(out, j) {
            assert(out.subrange(j, j + 8) =~= bytes.subrange(j - n, j - n + 8));
            assert(ends_sync_at(bytes, j - n));
        }
    }
}

/// Output with a synchronized part keeps all its bytes, and the graphics, the positioned and the
/// verbatim passthrough stand in this order right before the end of that part.
pub proof fn law_payloads_precede_sync_end(
    blit: Seq<u8>,
    graphics: Seq<u8>,
    sixels: Seq<u8>,
    osc_bytes: Seq<u8>,
    k: int,
)
    requires
        is_final_sync_end(blit, k),
    ensures
        terminal_output(blit, graphics, sixels, osc_bytes) == blit.take(k) + graphics + sixels
            + osc_bytes + blit.skip(k),
        is_final_sync_end(
            terminal_output(blit, graphics, sixels, osc_bytes),
            k + graphics.len() + sixels.len() + osc_bytes.len(),
        ),
{
    let a = spliced(blit, graphics);
    let b = spliced(a, sixels);
    let k1 = k + graphics.len();
    let k2 = k1 + sixels.len();
    lemma_splice_keeps_sync_end(blit, graphics, k);
    lemma_splice_keeps_sync_end(a, sixels, k1);
    lemma_splice_keeps_sync_end(b, osc_bytes, k2);
    assert(a.take(k1) =~= blit.take(k) + graphics);
    assert(a.skip(k1) =~= blit.skip(k));
    assert(b.take(k2) =~= blit.take(k) + graphics + sixels);
    assert(b.skip(k2) =~= blit.skip(k));
}

/// Output without a synchronized part keeps all its bytes, and the graphics, the positioned and
/// the verbatim passthrough follow it in this order, unless the first payloads hold the end of a
/// synchronized part or complete one.
pub proof fn law_payloads_follow_plain_output(
    blit: Seq<u8>,
    graphics: Seq<u8>,
    sixels: Seq<u8>,
    osc_bytes: Seq<u8>,
)
    requires
        forall|k: int| !#[trigger] ends_sync_at(blit + graphics + sixels, k),
    ensures
        terminal_output(blit, graphics, sixels, osc_bytes) == blit + graphics + sixels + osc_bytes,
{
    let all = blit + graphics + sixels;
    lemma_prefix_ends_no_sync(blit, graphics + sixels, all);
    lemma_prefix_ends_no_sync(blit + graphics, sixels, all);
    assert(spliced(blit, graphics) =~= blit + graphics);
    assert(spliced(blit + graphics, sixels) =~= all);
    assert(spliced(all, osc_bytes) =~= all + osc_bytes);
}

/// A prefix of output without a synchronized part has none.
proof fn lemma_prefix_ends_no_sync(prefix: Seq<u8>, rest: Seq<u8>, all: Seq<u8>)
    requires
        all =~= prefix + rest,
        forall|k: int| !#[trigger] ends_sync_at(all, k),
    ensures
        forall|k: int| !#[trigger] ends_sync_at(prefix, k),
{
    assert forall|k: int| !#[trigger] ends_sync_at(prefix, k) by {
        if ends_sync_at(prefix, k) {
            assert(all.subrange(k, k + 8) =~= prefix.subrange(k, k + 8));
            assert(ends_sync_at(all, k));
        }
    }
}

/// Without passthrough and graphics the output is what draws the frame.
pub proof fn law_plain_output_is_the_blit(blit: Seq<u8>)
    ensures
        terminal_output(blit, Seq::empty(), Seq::empty(), Seq::empty()) == blit,
{
}

/// A client that was sent a frame skips the next one exactly if it agrees with that frame in
/// every part and no passthrough for the client's encoding goes with it.
pub proof fn law_frame_is_skipped_iff_it_agrees<
    E: Fn(Option<&FrameData>, &FrameData, bool) -> EncodedBlit,
>(
    state: RenderView,
    last: FrameData,
    last_sixels: Seq<u8>,
    last_splices: Seq<SixelSplice>,
    last_osc_bytes: Seq<u8>,
    last_raw_osc: Seq<RawOsc>,
    sent: PreparedRender,
    frame: FrameData,
    sixels: Seq<u8>,
    splices: Seq<SixelSplice>,
    osc_bytes: Seq<u8>,
    raw_osc: Seq<RawOsc>,
    prepared: Option<PreparedRender>,
    encode: E,
)
    requires
        state.well_formed(),
        prepares(
            state,
            last,
            last_sixels,
            last_splices,
            last_osc_bytes,
            last_raw_osc,
            encode,
            Some(sent),
        ),
        prepares(
            committed(state, sent),
            frame,
            sixels,
            splices,
            osc_bytes,
            raw_osc,
            encode,
            prepared,
        ),
    ensures
        prepared is None <==> frames_agree(last, frame) && if state.terminal_ansi {
            sixels.len() == 0 && osc_bytes.len() == 0
        } else {
            splices.len() == 0 && raw_osc.len() == 0
        },
{
    law_frames_show_the_same_iff_all_parts_agree(last, frame);
}

/// What is prepared for a client that draws frames itself is the frame with exactly the records
/// that were given.
pub proof fn law_semantic_message_carries_frame_and_records<
    E: Fn(Option<&FrameData>, &FrameData, bool) -> EncodedBlit,
>(
    state: RenderView,
    frame: FrameData,
    sixels: Seq<u8>,
    splices: Seq<SixelSplice>,
    osc_bytes: Seq<u8>,
    raw_osc: Seq<RawOsc>,
    encode: E,
    prepared: PreparedRender,
)
    requires
        !state.terminal_ansi,
        prepares(state, frame, sixels, splices, osc_bytes, raw_osc, encode, Some(prepared)),
    ensures
        prepared matches PreparedRender::Semantic { message } && message
            matches ServerMessage::Frame { frame: sent, sixels: rides, raw_osc: oscs } && sent
            == frame && rides@ == splices && oscs@ == raw_osc,
        prepared.to_send() matches ServerMessage::Frame { frame: sent, .. } && sent == frame,
{
}

/// `after` is `before` with the payload put in at one place: in front of the last
/// `ESC [ ? 2026 l`, or at the end if there is none.
pub open spec fn put_in_place(before: Seq<u8>, payload: Seq<u8>, after: Seq<u8>) -> bool {
    let end = seq![27u8, 91u8, 63u8, 50u8, 48u8, 50u8, 54u8, 108u8];
    exists|k: int|
        {
            &&& 0 <= k <= before.len()
            &&& after == #[trigger] before.take(k) + payload + before.skip(k)
            &&& payload.len() == 0 || k == before.len() || (k + 8 <= before.len()
                && before.subrange(k, k + 8) == end)
            &&& payload.len() == 0 || forall|j: int|
                (if k == before.len() {
                    0
                } else {
                    k + 1
                }) <= j <= before.len() - 8 ==> #[trigger] before.subrange(j, j + 8) != end
        }
}

/// A payload is put in exactly once, all the other bytes stay as they are.
pub proof fn law_payload_is_put_in_once(bytes: Seq<u8>, payload: Seq<u8>)
    ensures
        put_in_place(bytes, payload, spliced(bytes, payload)),
{
    let n = bytes.len() as int;
    let end = seq![27u8, 91u8, 63u8, 50u8, 48u8, 50u8, 54u8, 108u8];
    assert(sync_end() == end);
    assert(bytes.take(n) + payload + bytes.skip(n) =~= bytes + payload);
    if payload.len() == 0 {
        assert(bytes + payload =~= bytes);
    } else if exists|k: int| is_final_sync_end(bytes, k) {
        let k = choose|k: int| is_final_sync_end(bytes, k);
        assert(ends_sync_at(bytes, k));
        assert forall|j: int| k + 1 <= j <= n - 8 implies #[trigger] bytes.subrange(j, j + 8)
            != end by {
            assert(!ends_sync_at(bytes, j));
        }
        assert(spliced(bytes, payload) == bytes.take(k) + payload + bytes.skip(k));
    } else {
        assert forall|j: int| 0 <= j <= n - 8 implies #[trigger] bytes.subrange(j, j + 8) != end by {
            if ends_sync_at(bytes, j) {
                let last = lemma_last_sync_end(bytes, j, n);
                assert(is_final_sync_end(bytes, last));
            }
        }
    }
}

/// Output with an end of a synchronized part has a last one.
proof fn lemma_last_sync_end(bytes: Seq<u8>, j: int, from: int) -> (k: int)
    requires
        ends_sync_at(bytes, j),
        j <= from,
        forall|i: int| from < i ==> !#[trigger] ends_sync_at(bytes, i),
    ensures
        is_final_sync_end(bytes, k),
    decreases from - j,
{
    if ends_sync_at(bytes, from) {
        from
    } else {
        assert forall|i: int| from - 1 < i implies !#[trigger] ends_sync_at(bytes, i) by {
            assert(i == from || from < i);
        }
        lemma_last_sync_end(bytes, j, from - 1)
    }
}

/// What is prepared for a client that shows terminal output: the encoder was given what the
/// client has, the frame, and whether everything is to be drawn; into what it returned, the
/// frame's graphics, the positioned and the verbatim passthrough were put, one after the other;
/// and the message has the next number and the frame's size.
pub proof fn law_terminal_message_carries_the_blit<
    E: Fn(Option<&FrameData>, &FrameData, bool) -> EncodedBlit,
>(
    state: RenderView,
    frame: FrameData,
    sixels: Seq<u8>,
    splices: Seq<SixelSplice>,
    osc_bytes: Seq<u8>,
    raw_osc: Seq<RawOsc>,
    encode: E,
    prepared: PreparedRender,
)
    requires
        state.terminal_ansi,
        prepares(state, frame, sixels, splices, osc_bytes, raw_osc, encode, Some(prepared)),
    ensures
        exists|last: Option<&FrameData>, blit: EncodedBlit|
            {
                &&& #[trigger] call_ensures(encode, (last, &frame, state.repaint_pending), blit)
                &&& match last {
                    Some(last) => state.baseline == Some(last@),
                    None => state.baseline is None,
                }
                &&& match prepared {
                    PreparedRender::TerminalAnsi {
                        message: ServerMessage::Terminal(sent),
                        frame: kept,
                        encoded: Some(encoded),
                    } => {
                        &&& kept == frame
                        &&& sent.seq == state.seq + 1
                        &&& sent.width == frame.width
                        &&& sent.height == frame.height
                        &&& sent.full == blit.full
                        &&& encoded.full == blit.full
                        &&& encoded.bytes@ == sent.bytes@
                        &&& exists|a: Seq<u8>, b: Seq<u8>|
                            #![trigger put_in_place(a, sixels, b)]
                            {
                                &&& put_in_place(blit.bytes@, frame.graphics@, a)
                                &&& put_in_place(a, sixels, b)
                                &&& put_in_place(b, osc_bytes, sent.bytes@)
                            }
                    },
                    _ => false,
                }
            },
{
    let (last, blit) = choose|last: Option<&FrameData>, blit: EncodedBlit|
        {
            &&& #[trigger] call_ensures(encode, (last, &frame, state.repaint_pending), blit)
            &&& last_shown(last) == state.baseline
            &&& shows_blit(
                prepared,
                frame,
                state.seq + 1,
                blit.full,
                terminal_output(blit.bytes@, frame.graphics@, sixels, osc_bytes),
            )
        };
    let a = spliced(blit.bytes@, frame.graphics@);
    let b = spliced(a, sixels);
    law_payload_is_put_in_once(blit.bytes@, frame.graphics@);
    law_payload_is_put_in_once(a, sixels);
    law_payload_is_put_in_once(b, osc_bytes);
    assert(put_in_place(a, sixels, b));
}

/// What a client's state is seen as: its encoding, what it has, and, for terminal output, the
/// last number and the pending repaint.
pub proof fn law_state_is_seen_as_it_is(state: ClientRenderState)
    ensures
        match state {
            ClientRenderState::Semantic { last_frame } => {
                &&& !state@.terminal_ansi
                &&& match last_frame {
                    Some(last) => state@.baseline == Some(last@),
                    None => state@.baseline is None,
                }
            },
            ClientRenderState::TerminalAnsi { blit_encoder, seq, repaint_pending } => {
                &&& state@.terminal_ansi
                &&& state@.baseline == blit_encoder@
                &&& state@.seq == seq
                &&& state@.repaint_pending == repaint_pending
            },
        },
{
}

/// Each operation on a client changes what it is for, and nothing else.
pub proof fn law_operations_change_what_they_are_for(state: RenderView, frame: FrameView)
    requires
        state.well_formed(),
    ensures
        RenderView::fresh(state.terminal_ansi).terminal_ansi == state.terminal_ansi,
        RenderView::fresh(state.terminal_ansi).baseline is None,
        RenderView::fresh(state.terminal_ansi).seq == 0,
        !RenderView::fresh(state.terminal_ansi).repaint_pending,
        state.without_baseline().terminal_ansi == state.terminal_ansi,
        state.without_baseline().baseline is None,
        state.without_baseline().seq == state.seq,
        !state.without_baseline().repaint_pending,
        state.with_repaint().terminal_ansi == state.terminal_ansi,
        state.with_repaint().seq == state.seq,
        state.with_repaint().repaint_pending == state.terminal_ansi,
        state.with_repaint().baseline == if state.terminal_ansi {
            state.baseline
        } else {
            None
        },
        state.with_frame(frame).terminal_ansi == state.terminal_ansi,
        state.with_frame(frame).baseline == Some(frame),
        state.with_frame(frame).seq == state.seq + if state.terminal_ansi {
            1int
        } else {
            0int
        },
        !state.with_frame(frame).repaint_pending,
{
}

/// The message and the frame of what is prepared are those that it holds; a terminal message
/// without output, and a message without a frame, change nothing when they are sent.
pub proof fn law_prepared_render_holds_its_message_and_frame(
    state: RenderView,
    prepared: PreparedRender,
)
    ensures
        match prepared {
            PreparedRender::Semantic { message } => {
                &&& prepared.to_send() == message
                &&& match message {
                    ServerMessage::Frame { frame, .. } => prepared.frame() == Some(frame),
                    _ => prepared.frame() is None && committed(state, prepared) == state,
                }
            },
            PreparedRender::TerminalAnsi { message, frame, encoded } => {
                &&& prepared.to_send() == message
                &&& prepared.frame() == Some(frame)
                &&& encoded is None ==> committed(state, prepared) == state
            },
        },
{
}

/// Nothing is prepared exactly if the client has a frame that shows the same, no repaint is
/// pending, and no passthrough for the client's encoding goes with the frame. So a client that
/// has no frame, or that awaits a repaint, is sent every frame, and passthrough is always sent.
pub proof fn law_nothing_is_prepared_iff_nothing_is_new<
    E: Fn(Option<&FrameData>, &FrameData, bool) -> EncodedBlit,
>(
    state: RenderView,
    frame: FrameData,
    sixels: Seq<u8>,
    splices: Seq<SixelSplice>,
    osc_bytes: Seq<u8>,
    raw_osc: Seq<RawOsc>,
    encode: E,
    prepared: Option<PreparedRender>,
)
    requires
        prepares(state, frame, sixels, splices, osc_bytes, raw_osc, encode, prepared),
    ensures
        prepared is None <==> {
            &&& state.baseline == Some(frame@)
            &&& !state.repaint_pending
            &&& state.terminal_ansi ==> sixels.len() == 0 && osc_bytes.len() == 0
            &&& !state.terminal_ansi ==> splices.len() == 0 && raw_osc.len() == 0
        },
{
}

} // verus!
