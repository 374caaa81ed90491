//! Text helpers shared by the trie and the snapshot codec: decimal rendering
//! of `u32` values and UTF-8 decoding of byte strings.

use vstd::prelude::*;

verus! {

use vstd::utf8::{
    decode_utf8, encode_utf8, encode_utf8_decode_utf8, encode_utf8_valid_utf8, is_ascii_chars,
    is_ascii_chars_encode_utf8, valid_utf8,
};

/// The character for one decimal digit.
pub open spec fn digit_char(d: u32) -> char
    recommends
        d < 10,
{
    ((d + 48) as u8) as char
}

/// The decimal digits of `n`, most significant first, no leading zeros
/// (a single `'0'` for zero).
pub open spec fn u32_digits(n: u32) -> Seq<char>
    decreases n,
{
    if n < 10 {
        seq![digit_char(n)]
    } else {
        u32_digits(n / 10).push(digit_char(n % 10))
    }
}

/// The decimal digits of `n` as ASCII bytes.
pub open spec fn u32_digit_bytes(n: u32) -> Seq<u8>
    decreases n,
{
    if n < 10 {
        seq![(n + 48) as u8]
    } else {
        u32_digit_bytes(n / 10).push((n % 10 + 48) as u8)
    }
}

proof fn lemma_u32_digits_bytes(n: u32)
    ensures
        u32_digits(n).len() == u32_digit_bytes(n).len(),
        1 <= u32_digits(n).len(),
        forall|i: int|
            0 <= i < u32_digits(n).len() ==> #[trigger] u32_digits(n)[i] as u8 == u32_digit_bytes(
                n,
            )[i] && '0' <= u32_digits(n)[i] <= '9',
    decreases n,
{
    if n >= 10 {
        lemma_u32_digits_bytes(n / 10);
    }
}

/// The digit characters are ASCII and their UTF-8 encoding is the digit bytes.
proof fn lemma_u32_digits_utf8(n: u32)
    ensures
        is_ascii_chars(u32_digits(n)),
        encode_utf8(u32_digits(n)) =~= u32_digit_bytes(n),
{
    lemma_u32_digits_bytes(n);
    assert(is_ascii_chars(u32_digits(n)));
    is_ascii_chars_encode_utf8(u32_digits(n));
}

/// A decimal rendering has at least one digit.
pub proof fn lemma_u32_digits_len(n: u32)
    ensures
        u32_digits(n).len() >= 1,
    decreases n,
{
    if n >= 10 {
        lemma_u32_digits_len(n / 10);
    }
}

/// Appends the decimal digit bytes of `n` to `out`.
fn push_digit_bytes(n: u32, out: &mut Vec<u8>)
    ensures
        final(out)@ == old(out)@ + u32_digit_bytes(n),
    decreases n,
{
    if n >= 10 {
        push_digit_bytes(n / 10, out);
    }
    out.push((n % 10) as u8 + 48);
    proof {
        if n < 10 {
            assert(final(out)@ =~= old(out)@ + u32_digit_bytes(n));
        } else {
            assert(final(out)@ =~= old(out)@ + u32_digit_bytes(n));
        }
    }
}

/// The characters `String::from_utf8_lossy` yields for a byte sequence: a
/// function of the bytes alone (invalid sequences become replacement
/// characters).
pub uninterp spec fn lossy_chars(b: Seq<u8>) -> Seq<char>;

/// Relies on `String::from_utf8_lossy`: the result depends on the bytes
/// alone, and a slice that is valid UTF-8 decodes to exactly the character
/// sequence it encodes.
#[verifier::external_body]
pub(crate) fn bytes_to_string(b: &[u8]) -> (r: String)
    ensures
        r@ == lossy_chars(b@),
        valid_utf8(b@) ==> r@ == decode_utf8(b@),
{
    String::from_utf8_lossy(b).into_owned()
}

/// The decimal rendering of `n`.
pub fn u32_to_string(n: u32) -> (s: String)
    ensures
        s@ == u32_digits(n),
{
    let mut bytes: Vec<u8> = Vec::new();
    push_digit_bytes(n, &mut bytes);
    let s = bytes_to_string(bytes.as_slice());
    proof {
        lemma_u32_digits_utf8(n);
        assert(bytes@ =~= u32_digit_bytes(n));
        encode_utf8_valid_utf8(u32_digits(n));
        encode_utf8_decode_utf8(u32_digits(n));
    }
    s
}

} // verus!
