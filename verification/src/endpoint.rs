//! The stable contract between a client-owned shell and its endpoint.
//!
//! The endpoint generation does not follow the private binary protocol that programs of one
//! install use among themselves. Generation 1 is the floor that local, SSH and cloud endpoints
//! keep. New fields are optional, and unknown controls are ignored unless they were negotiated.

use vstd::prelude::*;

use crate::build_info::{version, VERSION};
use crate::frame::{RawOsc, ServerMessage, SixelSplice};

verus! {

pub const ENDPOINT_PROTOCOL_GENERATION: u32 = 1;

pub const ENDPOINT_HELLO_KIND: &'static str = "endpoint.hello.v1";

pub const ENDPOINT_WELCOME_KIND: &'static str = "endpoint.welcome.v1";

pub const SNAPSHOT_CODEC_V1: &'static str = "shell.snapshot.v1";

pub const ENDPOINT_SNAPSHOT_KIND: &'static str = SNAPSHOT_CODEC_V1;

pub const SURFACE_CODEC_V1: &'static str = "shell.surface.v1";

pub const INPUT_CODEC_V1: &'static str = "shell.input.semantic.v1";

pub const BLOB_CODEC_V1: &'static str = "shell.blob.v1";

pub const SURFACE_INTEREST_CAPABILITY: &'static str = "surface_interest";

pub const PRESENTATION_EFFECTS_FENCE_CAPABILITY: &'static str = "presentation_effects_fence";

pub const PRESENTATION_EFFECTS_SYNC_KIND: &'static str = "endpoint.presentation.sync.v1";

pub const PRESENTATION_EFFECTS_READY_KIND: &'static str = "endpoint.presentation.ready.v1";

pub const HEALTH_CHECK_CAPABILITY: &'static str = "health_check";

pub const HEALTH_PING_KIND: &'static str = "endpoint.health.ping.v1";

pub const HEALTH_PONG_KIND: &'static str = "endpoint.health.pong.v1";

pub const PASSTHROUGH_CAPABILITY: &'static str = "passthrough_v1";

pub const PASSTHROUGH_KIND: &'static str = "endpoint.passthrough.v1";

pub const PANE_OSC5522_KIND: &'static str = "endpoint.pane.osc5522.v1";

pub const VIEWER_KIND: &'static str = "endpoint.viewer.v1";

/// The size of a client's surface, in cells.
#[derive(Debug, Clone, Copy, PartialEq, Eq, Structural)]
pub struct ClientSurfaceSize {
    pub cols: u16,
    pub rows: u16,
}

/// One-shot emissions that belong to an accepted surface and never become part of a baseline.
#[derive(Debug, Clone, PartialEq, Eq)]
pub struct EndpointPassthrough {
    pub boot_id: String,
    pub projection_revision: u64,
    pub surface_revision: u64,
    pub sixels: Vec<SixelSplice>,
    pub raw_osc: Vec<RawOsc>,
    pub iip: Vec<SixelSplice>,
}

/// An enhanced-paste event of a pane.
#[derive(Debug, Clone, PartialEq, Eq)]
pub struct EndpointPaneOsc5522 {
    pub pane_id: String,
    /// The complete OSC 5522 sequence, with introducer and terminator.
    pub data: Vec<u8>,
}

/// What a client says of itself when it connects.
#[derive(Debug, Clone, PartialEq, Eq)]
pub struct EndpointClientHello {
    pub generation: u32,
    pub cell_width_px: u32,
    pub cell_height_px: u32,
    pub surface_size: ClientSurfaceSize,
    pub pixel_mouse: bool,
    pub direct_graphics: bool,
    pub endpoint_keybindings: bool,
    pub mouse_capture: bool,
    pub surface_active: bool,
    pub sixel_graphics: bool,
    pub iip_graphics: bool,
    pub geometry_passive: bool,
    pub passthrough: bool,
    pub snapshot_codecs: Vec<String>,
    pub surface_codecs: Vec<String>,
    pub input_codecs: Vec<String>,
    pub blob_codecs: Vec<String>,
}

/// Why a server does not serve a client.
#[derive(Debug, Clone, PartialEq, Eq)]
pub struct EndpointHandshakeError {
    pub code: String,
    pub message: String,
}

/// What a server answers to a hello.
#[derive(Debug, Clone, PartialEq, Eq)]
pub struct EndpointServerWelcome {
    pub generation: u32,
    pub server_version: String,
    pub snapshot_codec: String,
    pub surface_codec: String,
    pub input_codec: String,
    pub blob_codec: String,
    pub methods: Vec<String>,
    pub capabilities: Vec<String>,
    pub error: Option<EndpointHandshakeError>,
}

/// The texts of a list of strings.
pub open spec fn texts(list: Seq<String>) -> Seq<Seq<char>> {
    list.map_values(|item: String| item@)
}

/// The list names this codec.
pub open spec fn names(list: Seq<String>, codec: Seq<char>) -> bool {
    exists|i: int| 0 <= i < list.len() && #[trigger] list[i]@ == codec
}

/// Whether a list names a codec.
fn names_codec(list: &Vec<String>, codec: &str) -> (found: bool)
    ensures
        found == names(list@, codec@),
{
    let wanted = codec.to_owned();
    let mut i: usize = 0;
    while i < list.len()
        invariant
            i <= list.len(),
            wanted@ == codec@,
            forall|j: int| 0 <= j < i ==> #[trigger] list@[j]@ != codec@,
        decreases list.len() - i,
    {
        if list[i] == wanted {
            assert(list@[i as int]@ == codec@);
            return true;
        }
        i += 1;
    }
    false
}

/// The control that carries a passthrough; `data` is its JSON document.
pub fn passthrough_message(data: String) -> (message: ServerMessage)
    ensures
        message matches ServerMessage::EndpointControl { kind, data: sent } && kind@
            == PASSTHROUGH_KIND@ && sent == data,
{
    ServerMessage::EndpointControl { kind: PASSTHROUGH_KIND.to_owned(), data }
}

/// The control that carries a snapshot of the shell; `data` is its JSON document.
pub fn snapshot_message(data: String) -> (message: ServerMessage)
    ensures
        message matches ServerMessage::EndpointControl { kind, data: sent } && kind@
            == ENDPOINT_SNAPSHOT_KIND@ && sent == data,
{
    ServerMessage::EndpointControl { kind: ENDPOINT_SNAPSHOT_KIND.to_owned(), data }
}

/// What a flag is when a hello leaves it out and clients from before it existed had it set.
pub fn default_true() -> (value: bool)
    ensures
        value,
{
    true
}

impl EndpointClientHello {
    /// The client names each of the codecs that the first generation is made of.
    pub open spec fn knows_core_codecs(self) -> bool {
        &&& names(self.snapshot_codecs@, SNAPSHOT_CODEC_V1@)
        &&& names(self.surface_codecs@, SURFACE_CODEC_V1@)
        &&& names(self.input_codecs@, INPUT_CODEC_V1@)
        &&& names(self.blob_codecs@, BLOB_CODEC_V1@)
    }

    /// Whether the client supports every codec that a server needs.
    pub fn supports_required_codecs(&self) -> (yes: bool)
        ensures
            yes == self.knows_core_codecs(),
    {
        names_codec(&self.snapshot_codecs, SNAPSHOT_CODEC_V1) && names_codec(
            &self.surface_codecs,
            SURFACE_CODEC_V1,
        ) && names_codec(&self.input_codecs, INPUT_CODEC_V1) && names_codec(
            &self.blob_codecs,
            BLOB_CODEC_V1,
        )
    }
}

impl EndpointServerWelcome {
    /// The answer is of this build: its generation, its version and its codecs.
    pub open spec fn speaks_core(self) -> bool {
        &&& self.generation == ENDPOINT_PROTOCOL_GENERATION
        &&& self.server_version@ == VERSION@
        &&& self.snapshot_codec@ == SNAPSHOT_CODEC_V1@
        &&& self.surface_codec@ == SURFACE_CODEC_V1@
        &&& self.input_codec@ == INPUT_CODEC_V1@
        &&& self.blob_codec@ == BLOB_CODEC_V1@
    }

    /// The answer to a client that is served, with the methods it may call.
    pub fn compatible(methods: Vec<String>) -> (welcome: Self)
        ensures
            welcome.speaks_core(),
            welcome.methods == methods,
            texts(welcome.capabilities@) == seq![
                SURFACE_INTEREST_CAPABILITY@,
                PRESENTATION_EFFECTS_FENCE_CAPABILITY@,
                HEALTH_CHECK_CAPABILITY@,
                PASSTHROUGH_CAPABILITY@,
            ],
            welcome.error is None,
    {
        let mut capabilities: Vec<String> = Vec::new();
        capabilities.push(SURFACE_INTEREST_CAPABILITY.to_owned());
        capabilities.push(PRESENTATION_EFFECTS_FENCE_CAPABILITY.to_owned());
        capabilities.push(HEALTH_CHECK_CAPABILITY.to_owned());
        capabilities.push(PASSTHROUGH_CAPABILITY.to_owned());
        EndpointServerWelcome {
            generation: ENDPOINT_PROTOCOL_GENERATION,
            server_version: version(),
            snapshot_codec: SNAPSHOT_CODEC_V1.to_owned(),
            surface_codec: SURFACE_CODEC_V1.to_owned(),
            input_codec: INPUT_CODEC_V1.to_owned(),
            blob_codec: BLOB_CODEC_V1.to_owned(),
            methods,
            capabilities,
            error: None,
        }
    }

    /// The answer to a client that is not served, with the reason.
    pub fn incompatible(code: &str, message: String) -> (welcome: Self)
        ensures
            welcome.speaks_core(),
            welcome.methods@.len() == 0,
            welcome.capabilities@.len() == 0,
            welcome.error matches Some(error) && error.code@ == code@ && error.message == message,
    {
        EndpointServerWelcome {
            generation: ENDPOINT_PROTOCOL_GENERATION,
            server_version: version(),
            snapshot_codec: SNAPSHOT_CODEC_V1.to_owned(),
            surface_codec: SURFACE_CODEC_V1.to_owned(),
            input_codec: INPUT_CODEC_V1.to_owned(),
            blob_codec: BLOB_CODEC_V1.to_owned(),
            methods: Vec::new(),
            capabilities: Vec::new(),
            error: Some(EndpointHandshakeError { code: code.to_owned(), message }),
        }
    }
}

/// A client that supports the required codecs names every codec that an answer of this build
/// settles on.
pub proof fn law_settled_codecs_are_offered(
    hello: EndpointClientHello,
    welcome: EndpointServerWelcome,
)
    requires
        hello.knows_core_codecs(),
        welcome.speaks_core(),
    ensures
        names(hello.snapshot_codecs@, welcome.snapshot_codec@),
        names(hello.surface_codecs@, welcome.surface_codec@),
        names(hello.input_codecs@, welcome.input_codec@),
        names(hello.blob_codecs@, welcome.blob_codec@),
{
}

/// A client is supported exactly if each of its four lists has an entry that is, letter for
/// letter, the first generation's codec of that list.
pub proof fn law_support_means_naming_every_codec(hello: EndpointClientHello)
    ensures
        hello.knows_core_codecs() <==> {
            &&& exists|i: int|
                0 <= i < hello.snapshot_codecs@.len() && (#[trigger] hello.snapshot_codecs@[i])@
                    == "shell.snapshot.v1"@
            &&& exists|i: int|
                0 <= i < hello.surface_codecs@.len() && (#[trigger] hello.surface_codecs@[i])@
                    == "shell.surface.v1"@
            &&& exists|i: int|
                0 <= i < hello.input_codecs@.len() && (#[trigger] hello.input_codecs@[i])@
                    == "shell.input.semantic.v1"@
            &&& exists|i: int|
                0 <= i < hello.blob_codecs@.len() && (#[trigger] hello.blob_codecs@[i])@
                    == "shell.blob.v1"@
        },
{
}

/// An answer of this build is of generation 1 and settles on the first generation's codecs.
pub proof fn law_answers_speak_the_first_generation(welcome: EndpointServerWelcome)
    requires
        welcome.speaks_core(),
    ensures
        welcome.generation == 1,
        welcome.server_version@ == VERSION@,
        welcome.snapshot_codec@ == "shell.snapshot.v1"@,
        welcome.surface_codec@ == "shell.surface.v1"@,
        welcome.input_codec@ == "shell.input.semantic.v1"@,
        welcome.blob_codec@ == "shell.blob.v1"@,
{
}

/// The texts of a list are those of its entries, one by one.
pub proof fn law_texts_are_entry_by_entry(list: Seq<String>, i: int)
    requires
        0 <= i < list.len(),
    ensures
        texts(list).len() == list.len(),
        texts(list)[i] == list[i]@,
{
}

/// The names of the controls, codecs and capabilities are part of the stable contract.
pub proof fn law_names_are_stable()
    ensures
        ENDPOINT_PROTOCOL_GENERATION == 1,
        ENDPOINT_HELLO_KIND@ == "endpoint.hello.v1"@,
        ENDPOINT_WELCOME_KIND@ == "endpoint.welcome.v1"@,
        SNAPSHOT_CODEC_V1@ == "shell.snapshot.v1"@,
        ENDPOINT_SNAPSHOT_KIND@ == "shell.snapshot.v1"@,
        SURFACE_CODEC_V1@ == "shell.surface.v1"@,
        INPUT_CODEC_V1@ == "shell.input.semantic.v1"@,
        BLOB_CODEC_V1@ == "shell.blob.v1"@,
        SURFACE_INTEREST_CAPABILITY@ == "surface_interest"@,
        PRESENTATION_EFFECTS_FENCE_CAPABILITY@ == "presentation_effects_fence"@,
        PRESENTATION_EFFECTS_SYNC_KIND@ == "endpoint.presentation.sync.v1"@,
        PRESENTATION_EFFECTS_READY_KIND@ == "endpoint.presentation.ready.v1"@,
        HEALTH_CHECK_CAPABILITY@ == "health_check"@,
        HEALTH_PING_KIND@ == "endpoint.health.ping.v1"@,
        HEALTH_PONG_KIND@ == "endpoint.health.pong.v1"@,
        PASSTHROUGH_CAPABILITY@ == "passthrough_v1"@,
        PASSTHROUGH_KIND@ == "endpoint.passthrough.v1"@,
        PANE_OSC5522_KIND@ == "endpoint.pane.osc5522.v1"@,
        VIEWER_KIND@ == "endpoint.viewer.v1"@,
{
}

} // verus!
