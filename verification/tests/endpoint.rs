use herdr::build_info;
use herdr::endpoint::{
    default_true, passthrough_message, snapshot_message, ClientSurfaceSize, EndpointClientHello,
    EndpointServerWelcome, BLOB_CODEC_V1, ENDPOINT_PROTOCOL_GENERATION, ENDPOINT_SNAPSHOT_KIND,
    INPUT_CODEC_V1, PASSTHROUGH_KIND, SNAPSHOT_CODEC_V1, SURFACE_CODEC_V1,
};
use herdr::frame::ServerMessage;

fn hello() -> EndpointClientHello {
    EndpointClientHello {
        generation: ENDPOINT_PROTOCOL_GENERATION,
        cell_width_px: 8,
        cell_height_px: 16,
        surface_size: ClientSurfaceSize { cols: 80, rows: 24 },
        pixel_mouse: true,
        direct_graphics: false,
        endpoint_keybindings: false,
        mouse_capture: true,
        surface_active: true,
        sixel_graphics: false,
        iip_graphics: false,
        geometry_passive: false,
        passthrough: false,
        snapshot_codecs: vec![SNAPSHOT_CODEC_V1.into()],
        surface_codecs: vec![SURFACE_CODEC_V1.into()],
        input_codecs: vec![INPUT_CODEC_V1.into()],
        blob_codecs: vec![BLOB_CODEC_V1.into()],
    }
}

#[test]
fn required_codecs_are_explicit() {
    let mut value = hello();
    assert!(value.supports_required_codecs());
    value.snapshot_codecs.clear();
    assert!(!value.supports_required_codecs());

    let mut value = hello();
    value.surface_codecs.clear();
    assert!(!value.supports_required_codecs());

    let mut value = hello();
    value.input_codecs.clear();
    assert!(!value.supports_required_codecs());

    let mut value = hello();
    value.blob_codecs.clear();
    assert!(!value.supports_required_codecs());
}

#[test]
fn codecs_are_found_among_others() {
    let mut value = hello();
    value.snapshot_codecs = vec!["shell.snapshot.v2".into(), SNAPSHOT_CODEC_V1.into()];
    value.blob_codecs.push("future".into());
    assert!(value.supports_required_codecs());
    value.input_codecs = vec![SURFACE_CODEC_V1.into()];
    assert!(!value.supports_required_codecs());
}

#[test]
fn snapshot_message_uses_named_json_control() {
    let mut snapshot = serde_json::Map::new();
    snapshot.insert("boot_id".to_string(), serde_json::Value::from("boot"));
    snapshot.insert("revision".to_string(), serde_json::Value::from(1));
    let snapshot = serde_json::Value::Object(snapshot);
    let ServerMessage::EndpointControl { kind, data } =
        snapshot_message(serde_json::to_string(&snapshot).unwrap())
    else {
        panic!("snapshot should use endpoint control");
    };
    assert_eq!(kind, ENDPOINT_SNAPSHOT_KIND);
    let decoded: serde_json::Value = serde_json::from_str(&data).unwrap();
    assert_eq!(decoded, snapshot);
}

#[test]
fn passthrough_message_uses_its_own_kind() {
    let ServerMessage::EndpointControl { kind, data } = passthrough_message("{}".to_string())
    else {
        panic!("passthrough should use endpoint control");
    };
    assert_eq!(kind, PASSTHROUGH_KIND);
    assert_eq!(kind, "endpoint.passthrough.v1");
    assert_eq!(data, "{}");
    assert_eq!(ENDPOINT_SNAPSHOT_KIND, "shell.snapshot.v1");
}

#[test]
fn compatible_welcome_names_core_codecs_and_capabilities() {
    let welcome = EndpointServerWelcome::compatible(vec!["pane.close".into()]);
    assert_eq!(welcome.generation, 1);
    assert_eq!(welcome.server_version, build_info::version());
    assert_eq!(welcome.snapshot_codec, "shell.snapshot.v1");
    assert_eq!(welcome.surface_codec, "shell.surface.v1");
    assert_eq!(welcome.input_codec, "shell.input.semantic.v1");
    assert_eq!(welcome.blob_codec, "shell.blob.v1");
    assert_eq!(welcome.methods, vec!["pane.close".to_string()]);
    assert_eq!(
        welcome.capabilities,
        vec!["surface_interest", "presentation_effects_fence", "health_check", "passthrough_v1"]
    );
    assert!(welcome.error.is_none());
    // A client that supports the required codecs offers each of the settled ones.
    let client = hello();
    assert!(client.supports_required_codecs());
    assert!(client.snapshot_codecs.contains(&welcome.snapshot_codec));
    assert!(client.surface_codecs.contains(&welcome.surface_codec));
    assert!(client.input_codecs.contains(&welcome.input_codec));
    assert!(client.blob_codecs.contains(&welcome.blob_codec));
}

#[test]
fn incompatible_welcome_carries_the_reason() {
    let welcome = EndpointServerWelcome::incompatible("generation", "too old".to_string());
    assert_eq!(welcome.generation, 1);
    assert!(welcome.methods.is_empty());
    assert!(welcome.capabilities.is_empty());
    let error = welcome.error.expect("reason");
    assert_eq!(error.code, "generation");
    assert_eq!(error.message, "too old");
}

#[test]
fn missing_flags_default_to_set() {
    assert!(default_true());
}
