//! Bytes as base64 text: the standard alphabet, with padding.

use base64::Engine;
use vstd::prelude::*;


verus! {

/// The character that stands for a six-bit value.
pub open spec fn symbol(value: int) -> char {
    if value < 26 {
        ('A' as int + value) as char
    } else if value < 52 {
        ('a' as int + value - 26) as char
    } else if value < 62 {
        ('0' as int + value - 52) as char
    } else if value == 62 {
        '+'
    } else {
        '/'
    }
}

/// The base64 text of some bytes: four characters for every three bytes, the last four filled
/// up with `=`.
pub open spec fn encoded(bytes: Seq<u8>) -> Seq<char>
    decreases bytes.len(),
{
    let (a, b, c) = (bytes[0] as int, bytes[1] as int, bytes[2] as int);
    if bytes.len() == 0 {
        Seq::empty()
    } else if bytes.len() == 1 {
        seq![symbol(a / 4), symbol(a % 4 * 16), '=', '=']
    } else if bytes.len() == 2 {
        seq![symbol(a / 4), symbol(a % 4 * 16 + b / 16), symbol(b % 16 * 4), '=']
    } else {
        seq![
            symbol(a / 4),
            symbol(a % 4 * 16 + b / 16),
            symbol(b % 16 * 4 + c / 64),
            symbol(c % 64),
        ] + encoded(bytes.skip(3))
    }
}

/// The bytes that a text stands for, if it is the base64 text of any.
pub open spec fn decoded(text: Seq<char>) -> Option<Seq<u8>> {
    if exists|bytes: Seq<u8>| #[trigger] encoded(bytes) == text {
        Some(choose|bytes: Seq<u8>| #[trigger] encoded(bytes) == text)
    } else {
        None
    }
}

/// The length of the base64 text of `n` bytes.
pub open spec fn encoded_length(n: nat) -> nat {
    (n + 2) / 3 * 4
}

/// Why a text is not the base64 text of any bytes.
#[derive(Debug, Clone, Copy, PartialEq, Eq, Structural)]
pub enum Base64Error {
    /// A byte that cannot stand at this offset.
    InvalidByte(usize, u8),
    /// After this many valid characters the last group of four has fewer than two.
    InvalidLength(usize),
    /// The last character at this offset has bits that no byte accounts for.
    InvalidLastSymbol(usize, u8),
    /// The padding is missing or incomplete.
    InvalidPadding,
}

/// Which of its errors `base64::Engine::decode` reports for a text that it does not decode.
pub uninterp spec fn decode_failure(text: Seq<char>) -> Base64Error;

/// Calls `base64::Engine::encode` on the engine `STANDARD`, which is claimed to return the text
/// that [`encoded`] describes. It panics when the length of that text overflows a buffer.
#[verifier::external_body]
pub(crate) fn encode_base64(bytes: &[u8]) -> (text: String)
    requires
        encoded_length(bytes@.len()) <= isize::MAX,
    ensures
        text@ == encoded(bytes@),
{
    base64::engine::general_purpose::STANDARD.encode(bytes)
}

/// Calls `base64::Engine::decode` on the engine `STANDARD`, which is claimed to return the bytes
/// whose base64 text it is given, and to fail on every text that is not the canonical base64
/// text of any bytes. Which error a text gives is named, not described.
#[verifier::external_body]
pub(crate) fn decode_base64(text: &str) -> (result: Result<Vec<u8>, Base64Error>)
    ensures
        match result {
            Ok(bytes) => decoded(text@) == Some(bytes@),
            Err(error) => decoded(text@) is None && error == decode_failure(text@),
        },
{
    base64::engine::general_purpose::STANDARD.decode(text).map_err(|error| match error {
        base64::DecodeError::InvalidByte(offset, byte) => Base64Error::InvalidByte(offset, byte),
        base64::DecodeError::InvalidLength(length) => Base64Error::InvalidLength(length),
        base64::DecodeError::InvalidLastSymbol(offset, byte) => {
            Base64Error::InvalidLastSymbol(offset, byte)
        }
        base64::DecodeError::InvalidPadding => Base64Error::InvalidPadding,
    })
}

/// Distinct six-bit values have distinct characters.
proof fn lemma_symbol_injective(v: int, w: int)
    requires
        0 <= v < 64,
        0 <= w < 64,
        symbol(v) == symbol(w),
    ensures
        v == w,
{
}

proof fn lemma_symbol_is_not_padding(v: int)
    requires
        0 <= v < 64,
    ensures
        symbol(v) != '=',
        (symbol(v) as int) < 128,
{
}

/// The base64 text of `n` bytes has four characters for every three bytes or part of them.
pub proof fn law_encoded_length(bytes: Seq<u8>)
    ensures
        encoded(bytes).len() == encoded_length(bytes.len()),
    decreases bytes.len(),
{
    if bytes.len() > 2 {
        law_encoded_length(bytes.skip(3));
    }
}

/// Base64 text is ASCII.
pub proof fn law_encoded_is_ascii(bytes: Seq<u8>)
    ensures
        vstd::utf8::is_ascii_chars(encoded(bytes)),
    decreases bytes.len(),
{
    if bytes.len() > 2 {
        law_encoded_is_ascii(bytes.skip(3));
    }
}

/// No two byte sequences have the same base64 text.
pub proof fn law_encoding_is_injective(x: Seq<u8>, y: Seq<u8>)
    requires
        encoded(x) == encoded(y),
    ensures
        x == y,
    decreases x.len(),
{
    law_encoded_length(x);
    law_encoded_length(y);
    let (s, t) = (encoded(x), encoded(y));
    if x.len() == 0 || y.len() == 0 {
        assert(x =~= y);
    } else {
        let (a, b, c) = (x[0] as int, x[1] as int, x[2] as int);
        let (d, e, f) = (y[0] as int, y[1] as int, y[2] as int);
        assert(s[0] == symbol(a / 4) && t[0] == symbol(d / 4));
        lemma_symbol_injective(a / 4, d / 4);
        let x1 = if x.len() > 1 { a % 4 * 16 + b / 16 } else { a % 4 * 16 };
        let y1 = if y.len() > 1 { d % 4 * 16 + e / 16 } else { d % 4 * 16 };
        assert(s[1] == symbol(x1) && t[1] == symbol(y1));
        lemma_symbol_injective(x1, y1);
        assert(a == d);
        let x2 = if x.len() > 2 { b % 16 * 4 + c / 64 } else { b % 16 * 4 };
        let y2 = if y.len() > 2 { e % 16 * 4 + f / 64 } else { e % 16 * 4 };
        assert(x.len() > 1 ==> s[2] == symbol(x2));
        assert(y.len() > 1 ==> t[2] == symbol(y2));
        lemma_symbol_is_not_padding(x2);
        lemma_symbol_is_not_padding(y2);
        assert(x.len() == 1 ==> s[2] == '=');
        assert(y.len() == 1 ==> t[2] == '=');
        assert(x.len() > 1 <==> y.len() > 1);
        if x.len() > 1 {
            lemma_symbol_injective(x2, y2);
            assert(b == e);
            assert(x.len() > 2 ==> s[3] == symbol(c % 64));
            assert(y.len() > 2 ==> t[3] == symbol(f % 64));
            lemma_symbol_is_not_padding(c % 64);
            lemma_symbol_is_not_padding(f % 64);
            assert(x.len() == 2 ==> s[3] == '=');
            assert(y.len() == 2 ==> t[3] == '=');
            assert(x.len() > 2 <==> y.len() > 2);
            if x.len() > 2 {
                lemma_symbol_injective(c % 64, f % 64);
                assert(c == f);
                assert(encoded(x.skip(3)) =~= s.skip(4));
                assert(encoded(y.skip(3)) =~= t.skip(4));
                law_encoding_is_injective(x.skip(3), y.skip(3));
                assert(x =~= seq![x[0], x[1], x[2]] + x.skip(3));
                assert(y =~= seq![y[0], y[1], y[2]] + y.skip(3));
            } else {
                assert(x =~= y);
            }
        } else {
            assert(x =~= y);
        }
    }
}

/// Decoding the base64 text of some bytes gives the bytes back.
pub proof fn law_decoding_undoes_encoding(bytes: Seq<u8>)
    ensures
        decoded(encoded(bytes)) == Some(bytes),
{
    let text = encoded(bytes);
    let back = choose|back: Seq<u8>| #[trigger] encoded(back) == text;
    assert(encoded(back) == text);
    law_encoding_is_injective(bytes, back);
}

} // verus!
