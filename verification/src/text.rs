//! ASCII text appended to byte buffers.

use vstd::prelude::*;

verus! {

/// The decimal digits of `n`, most significant first, without leading zeros.
pub open spec fn decimal(n: nat) -> Seq<u8>
    decreases n,
{
    if n < 10 {
        seq![(48 + n) as u8]
    } else {
        decimal(n / 10).push((48 + n % 10) as u8)
    }
}

/// The bytes of a text whose characters are all ASCII.
pub open spec fn ascii(text: Seq<char>) -> Seq<u8> {
    text.map_values(|c: char| c as u8)
}

/// Appends the bytes of `bytes`.
pub fn push_bytes(out: &mut Vec<u8>, bytes: &[u8])
    ensures
        final(out)@ == old(out)@ + bytes@,
{
    out.extend_from_slice(bytes);
    assert(out@ =~= old(out)@ + bytes@);
}

/// Appends an ASCII text.
pub fn push_text(out: &mut Vec<u8>, text: &str)
    requires
        text.is_ascii(),
    ensures
        final(out)@ == old(out)@ + ascii(text@),
{
    let bytes = text.as_bytes();
    assert(bytes@ =~= ascii(text@)) by {
        vstd::string::is_ascii_spec_bytes(text);
    }
    push_bytes(out, bytes);
}

/// Appends the decimal digits of `n`.
pub fn push_decimal(out: &mut Vec<u8>, n: u64)
    ensures
        final(out)@ == old(out)@ + decimal(n as nat),
    decreases n,
{
    if n >= 10 {
        push_decimal(out, n / 10);
    }
    out.push(48 + (n % 10) as u8);
    assert(out@ =~= old(out)@ + decimal(n as nat));
}

/// The digits of a number are digits.
pub proof fn lemma_decimal_digits(n: nat)
    ensures
        decimal(n).len() > 0,
        forall|i: int| 0 <= i < decimal(n).len() ==> 48 <= #[trigger] decimal(n)[i] <= 57,
    decreases n,
{
    if n >= 10 {
        lemma_decimal_digits(n / 10);
    }
}

/// The number that a row of digits stands for.
pub open spec fn digits_value(digits: Seq<u8>) -> int
    decreases digits.len(),
{
    if digits.len() == 0 {
        0
    } else {
        digits_value(digits.drop_last()) * 10 + (digits.last() - 48)
    }
}

/// A number is written with digits only, at least one and no needless zero in front, and reading
/// the digits gives the number back.
pub proof fn law_decimal_reads_back(n: nat)
    ensures
        decimal(n).len() > 0,
        forall|i: int| 0 <= i < decimal(n).len() ==> 48 <= #[trigger] decimal(n)[i] <= 57,
        decimal(n).len() > 1 ==> decimal(n)[0] != 48,
        digits_value(decimal(n)) == n,
    decreases n,
{
    if n < 10 {
        assert(decimal(n).drop_last() =~= Seq::empty());
        reveal_with_fuel(digits_value, 2);
    } else {
        law_decimal_reads_back(n / 10);
        assert(decimal(n).drop_last() =~= decimal(n / 10));
        assert(decimal(n)[0] == decimal(n / 10)[0]);
        if decimal(n / 10).len() == 1 {
            assert(digits_value(decimal(n / 10)) == decimal(n / 10)[0] - 48) by {
                assert(decimal(n / 10).drop_last() =~= Seq::empty());
                reveal_with_fuel(digits_value, 2);
            }
        }
    }
}

/// Each character of an ASCII text becomes the byte of its code.
pub proof fn law_ascii_keeps_codes(text: Seq<char>, i: int)
    requires
        0 <= i < text.len(),
        (text[i] as int) < 128,
    ensures
        ascii(text).len() == text.len(),
        ascii(text)[i] as int == text[i] as int,
{
    lemma_code_of(text[i]);
}

proof fn lemma_code_of(c: char)
    requires
        (c as int) < 128,
    ensures
        (c as u8) as int == c as int,
{
}

} // verus!
