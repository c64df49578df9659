//! Byte strings on the wire.
//!
//! Text formats carry them as base64 rather than as arrays of numbers, which keeps the largest
//! enhanced-paste sequences within the frame limit; binary formats carry them as they are.

use vstd::prelude::*;

use crate::base64_text::{
    decode_base64, decode_failure, decoded, encode_base64, encoded, encoded_length,
    law_decoding_undoes_encoding, law_encoded_length, Base64Error,
};

verus! {

/// A byte string as a format carries it.
pub enum WireBytes {
    /// In a text format: base64 text.
    Text(String),
    /// In a binary format: the bytes.
    Raw(Vec<u8>),
}

/// What a byte string is in a text format or in a binary one.
pub open spec fn carries(wire: WireBytes, bytes: Seq<u8>, human_readable: bool) -> bool {
    match wire {
        WireBytes::Text(text) => human_readable && text@ == encoded(bytes),
        WireBytes::Raw(raw) => !human_readable && raw@ == bytes,
    }
}

/// The byte string that was carried, or why there is none.
pub open spec fn read_back(wire: WireBytes) -> Result<Seq<u8>, Base64Error> {
    match wire {
        WireBytes::Text(text) => match decoded(text@) {
            Some(bytes) => Ok(bytes),
            None => Err(decode_failure(text@)),
        },
        WireBytes::Raw(raw) => Ok(raw@),
    }
}

/// Puts a byte string into the form of a format.
pub fn serialize(bytes: &[u8], human_readable: bool) -> (wire: WireBytes)
    requires
        human_readable ==> encoded_length(bytes@.len()) <= isize::MAX,
    ensures
        carries(wire, bytes@, human_readable),
{
    if human_readable {
        WireBytes::Text(encode_base64(bytes))
    } else {
        WireBytes::Raw(vstd::slice::slice_to_vec(bytes))
    }
}

/// Takes a byte string out of the form of a format.
pub fn deserialize(wire: WireBytes) -> (result: Result<Vec<u8>, Base64Error>)
    ensures
        match result {
            Ok(bytes) => read_back(wire) == Ok::<Seq<u8>, Base64Error>(bytes@),
            Err(error) => read_back(wire) == Err::<Seq<u8>, Base64Error>(error),
        },
{
    match wire {
        WireBytes::Text(text) => decode_base64(text.as_str()),
        WireBytes::Raw(raw) => Ok(raw),
    }
}

/// A byte string that was put into the form of either format is read back as it was.
pub proof fn law_byte_strings_survive_the_wire(
    wire: WireBytes,
    bytes: Seq<u8>,
    human_readable: bool,
)
    requires
        carries(wire, bytes, human_readable),
    ensures
        read_back(wire) == Ok::<Seq<u8>, Base64Error>(bytes),
{
    law_decoding_undoes_encoding(bytes);
}

/// Text formats carry text and binary formats carry the bytes, whatever the byte string is.
pub proof fn law_format_decides_the_form(wire: WireBytes, bytes: Seq<u8>, human_readable: bool)
    requires
        carries(wire, bytes, human_readable),
    ensures
        match wire {
            WireBytes::Text(text) => human_readable && decoded(text@) == Some(bytes) && text@.len()
                == (bytes.len() + 2) / 3 * 4,
            WireBytes::Raw(raw) => !human_readable && raw@ == bytes,
        },
{
    law_decoding_undoes_encoding(bytes);
    law_encoded_length(bytes);
}

/// Bytes are read back from a text exactly if the text is their base64 text; every other text is
/// an error.
pub proof fn law_only_base64_text_is_read_back(wire: WireBytes, bytes: Seq<u8>)
    requires
        wire is Text,
    ensures
        read_back(wire) == Ok::<Seq<u8>, Base64Error>(bytes) <==> encoded(bytes) == wire->Text_0@,
        read_back(wire) is Err <==> forall|b: Seq<u8>| #[trigger] encoded(b) != wire->Text_0@,
{
    law_decoding_undoes_encoding(bytes);
    let text = wire->Text_0@;
    if exists|b: Seq<u8>| #[trigger] encoded(b) == text {
        let b = choose|b: Seq<u8>| #[trigger] encoded(b) == text;
        assert(encoded(b) == text);
    }
}

} // verus!
