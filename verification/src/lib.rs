pub mod base64_text;
pub mod build_info;
pub mod color;
pub mod cursor;
pub mod endpoint;
pub mod frame;
pub mod iip_encode;
pub mod json_bytes;
pub mod quantize;
pub mod quantize_laws;
pub mod raster;
pub mod render_stream;
pub mod sixel_cache;
pub mod sixel_encode;
pub mod sixel_laws;
pub mod sixel_paint;
pub mod text;
