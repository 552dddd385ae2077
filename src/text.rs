use vstd::prelude::*;
use vstd::utf8::{decode_first_scalar, decode_utf8, pop_first_scalar, valid_utf8};

verus! {

/// Relies on `std::str::from_utf8`, which accepts a byte string exactly when it is
/// well-formed UTF-8 and then reads it as the characters it encodes.
#[verifier::external_body]
pub(crate) fn utf8_to_string(b: &[u8]) -> (r: Option<String>)
    ensures
        r is Some <==> valid_utf8(b@),
        r matches Some(s) ==> s@ == decode_utf8(b@),
{
    match std::str::from_utf8(b) {
        Ok(s) => Some(s.to_string()),
        Err(_) => None,
    }
}

proof fn lemma_low_seven_bits(b: u8)
    ensures
        b & 0x7f <= 0x7f,
{
    assert(b & 0x7f <= 0x7f) by (bit_vector);
}

/// A byte string of ASCII bytes is well-formed UTF-8, one character per byte.
pub proof fn lemma_ascii_is_utf8(s: Seq<u8>)
    requires
        forall|i: int| 0 <= i < s.len() ==> #[trigger] s[i] < 0x80,
    ensures
        valid_utf8(s),
        decode_utf8(s).len() == s.len(),
        forall|i: int| 0 <= i < s.len() ==> #[trigger] decode_utf8(s)[i] as u32 == s[i] as u32,
    decreases s.len(),
{
    if s.len() > 0 {
        let rest = s.subrange(1, s.len() as int);
        assert forall|i: int| 0 <= i < rest.len() implies #[trigger] rest[i] < 0x80 by {
            assert(rest[i] == s[i + 1]);
        }
        lemma_ascii_is_utf8(rest);
        lemma_low_seven_bits(s[0]);
        assert(pop_first_scalar(s) == rest);
        let b = s[0];
        assert(b < 0x80 ==> b & 0x7f == b) by (bit_vector);
        assert(decode_first_scalar(s) == b as u32);
        let d = decode_utf8(s);
        assert(d == seq![(b as u32) as char] + decode_utf8(rest));
        assert forall|i: int| 0 <= i < s.len() implies #[trigger] d[i] as u32 == s[i] as u32 by {
            if i > 0 {
                assert(d[i] == decode_utf8(rest)[i - 1]);
                assert(rest[i - 1] == s[i]);
            }
        }
    }
}

} // verus!
