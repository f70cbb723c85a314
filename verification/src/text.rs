//! The reversible text encoding for obfuscated names: base-58 with the
//! Bitcoin alphabet, plus the UTF-8 bridge between strings and bytes.

use vstd::prelude::*;

use vstd::utf8::{encode_utf8, is_leading_byte_width_1, valid_utf8};

verus! {

/// Whether `b` is one of the 58 alphabet bytes (Bitcoin alphabet: digits and
/// letters without `0`, `O`, `I` and `l`).
pub open spec fn is_b58_byte(b: u8) -> bool {
    (49 <= b <= 57)  // '1'..'9'
     || (65 <= b <= 72)  // 'A'..'H'
     || (74 <= b <= 78)  // 'J'..'N'
     || (80 <= b <= 90)  // 'P'..'Z'
     || (97 <= b <= 107)  // 'a'..'k'
     || (109 <= b <= 122)  // 'm'..'z'

}

/// What base-58 encoding returns for a byte string: the ASCII bytes of its
/// rendering in the Bitcoin alphabet. Stating the base conversion itself
/// would restate the outside algorithm; the contracts rely only on it being
/// a function of the input.
pub uninterp spec fn b58_bytes_of(b: Seq<u8>) -> Seq<u8>;

/// Relies on `bs58::encode` with its default (Bitcoin) alphabet: the
/// rendering is a function of the bytes alone, and every byte of it is an
/// alphabet byte.
#[verifier::external_body]
pub(crate) fn b58_encode(b: &[u8]) -> (r: Vec<u8>)
    ensures
        r@ == b58_bytes_of(b@),
        forall|i: int| 0 <= i < r@.len() ==> is_b58_byte(#[trigger] r@[i]),
{
    bs58::encode(b).into_vec()
}

/// Relies on `bs58::decode` with its default (Bitcoin) alphabet: it inverts
/// `bs58::encode`, and it fails exactly when some input byte is outside the
/// alphabet (`InvalidCharacter` / `NonAsciiCharacter` in its source).
#[verifier::external_body]
pub(crate) fn b58_decode(s: &[u8]) -> (r: Option<Vec<u8>>)
    ensures
        r is Some <==> (forall|i: int| 0 <= i < s@.len() ==> is_b58_byte(#[trigger] s@[i])),
        r matches Some(v) ==> (forall|b: Seq<u8>| b58_bytes_of(b) == s@ ==> v@ == b),
{
    bs58::decode(s).into_vec().ok()
}

/// Relies on `String::from_utf8`: returns the string whose UTF-8 encoding is
/// the input, and fails exactly when the input is not valid UTF-8.
#[verifier::external_body]
pub(crate) fn utf8_to_string(v: Vec<u8>) -> (r: Option<String>)
    ensures
        r matches Some(s) ==> encode_utf8(s@) == v@,
        r is Some <==> valid_utf8(v@),
{
    String::from_utf8(v).ok()
}

/// Alphabet bytes are ASCII and are neither the path separator `/` nor a
/// backslash, which is what keeps tokens joinable into paths.
pub proof fn lemma_b58_byte_facts(b: u8)
    requires
        is_b58_byte(b),
    ensures
        b < 128,
        b != 47,
        b != 92,
{
}

/// A sequence of ASCII bytes is valid UTF-8.
pub proof fn lemma_ascii_valid_utf8(s: Seq<u8>)
    requires
        forall|i: int| 0 <= i < s.len() ==> #[trigger] s[i] < 128,
    ensures
        valid_utf8(s),
{
    assert forall|i: int| 0 <= i < s.len() implies #[trigger] is_leading_byte_width_1(s[i]) by {
        assert(s[i] < 128);
    }
    assert(s.subrange(0, 0) =~= Seq::<u8>::empty());
    vstd::utf8::partial_valid_utf8_extend_ascii_block(s, 0, s.len() as int);
    assert(s.subrange(0, s.len() as int) =~= s);
}

} // verus!
