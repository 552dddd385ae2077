use vstd::prelude::*;
use vstd::string::{StrSliceExecFns, StringSliceAdditionalSpecFns};
use vstd::utf8::{
    decode_utf8, encode_utf8, encode_utf8_decode_utf8, is_ascii_chars, is_ascii_chars_encode_utf8,
};

use crate::text::{lemma_ascii_is_utf8, utf8_to_string};

verus! {

/// True when `b` is an ASCII letter (`A`-`Z` or `a`-`z`).
pub open spec fn is_alpha(b: u8) -> bool {
    (0x41 <= b && b <= 0x5A) || (0x61 <= b && b <= 0x7A)
}

/// True when every byte of `s` is an ASCII letter.
pub open spec fn all_alpha(s: Seq<u8>) -> bool {
    forall|i: int| 0 <= i < s.len() ==> #[trigger] is_alpha(s[i])
}

/// The first byte of `s`, from position `i` on, that is not an ASCII letter.
pub open spec fn first_bad_from(s: Seq<u8>, i: int) -> Option<u8>
    decreases s.len() - i,
{
    if i < 0 || i >= s.len() {
        None
    } else if !is_alpha(s[i]) {
        Some(s[i])
    } else {
        first_bad_from(s, i + 1)
    }
}

/// The first byte of `s` that is not an ASCII letter, if any.
pub open spec fn first_bad(s: Seq<u8>) -> Option<u8> {
    first_bad_from(s, 0)
}

/// Bit 5 of a tag byte: clear for an upper-case letter, set for a lower-case one.
pub open spec fn bit5_clear(b: u8) -> bool {
    b & 0x20 == 0
}

/// A tag that passes the general validity check: all letters, third byte upper case.
pub open spec fn tag_is_valid(s: Seq<u8>) -> bool {
    all_alpha(s) && s.len() == 4 && bit5_clear(s[2])
}

/// What building a tag from `s` (four bytes) gives: the tag's bytes, or the first bad byte.
pub open spec fn tag_result(s: Seq<u8>) -> Result<Seq<u8>, ChunkTypeDecodingError> {
    match first_bad(s) {
        Some(b) => Err(ChunkTypeDecodingError::BadByte(b)),
        None => Ok(s),
    }
}

/// What building a tag from a string of characters `s` gives. The number of characters is
/// checked first; then the first byte of its UTF-8 form that is not an ASCII letter is reported.
pub open spec fn tag_from_str(s: Seq<char>) -> Result<Seq<u8>, ChunkTypeDecodingError> {
    if s.len() != 4 {
        Err(ChunkTypeDecodingError::BadLength(s.len() as usize))
    } else {
        tag_result(encode_utf8(s))
    }
}

/// True when `c` is an ASCII letter.
pub open spec fn is_alpha_char(c: char) -> bool {
    ('A' <= c && c <= 'Z') || ('a' <= c && c <= 'z')
}

proof fn lemma_alpha_char_of_byte(c: char, x: u8)
    requires
        c as u32 == x as u32,
        is_alpha(x),
    ensures
        is_alpha_char(c),
{
    if x <= 0x5A {
        assert('A' <= c && c <= 'Z');
    } else {
        assert('a' <= c && c <= 'z');
    }
}

/// A string gives a tag exactly when it is four characters, each an ASCII letter.
pub proof fn lemma_tag_from_str_chars(s: Seq<char>)
    ensures
        tag_from_str(s) is Ok <==> (s.len() == 4 && forall|i: int|
            0 <= i < s.len() ==> #[trigger] is_alpha_char(s[i])),
        tag_from_str(s) is Ok ==> encode_utf8(s).len() == 4,
        all_alpha(encode_utf8(s)) ==> encode_utf8(s).len() == s.len(),
{
    let b = encode_utf8(s);
    lemma_first_bad(b);
    if s.len() == 4 && forall|i: int| 0 <= i < s.len() ==> #[trigger] is_alpha_char(s[i]) {
        assert forall|i: int| 0 <= i < s.len() implies '\0' <= #[trigger] s[i] <= '\u{7f}' by {
            assert(is_alpha_char(s[i]));
        }
        assert(is_ascii_chars(s));
        is_ascii_chars_encode_utf8(s);
        assert forall|i: int| 0 <= i < b.len() implies #[trigger] is_alpha(b[i]) by {
            assert(is_alpha_char(s[i]));
            assert(b[i] == s[i] as u8);
        }
    }
    if all_alpha(b) {
        assert forall|i: int| 0 <= i < b.len() implies #[trigger] b[i] < 0x80 by {
            assert(is_alpha(b[i]));
        }
        lemma_ascii_is_utf8(b);
        encode_utf8_decode_utf8(s);
        assert(decode_utf8(b) == s);
        assert forall|i: int| 0 <= i < s.len() implies #[trigger] is_alpha_char(s[i]) by {
            assert(is_alpha(b[i]));
            assert(decode_utf8(b)[i] as u32 == b[i] as u32);
            lemma_alpha_char_of_byte(s[i], b[i]);
        }
    }
}

/// From position `i` on, every byte is a letter exactly when there is no first bad byte.
pub proof fn lemma_first_bad_from(s: Seq<u8>, i: int)
    requires
        0 <= i <= s.len(),
    ensures
        first_bad_from(s, i) is None <==> (forall|j: int| i <= j < s.len() ==> #[trigger] is_alpha(s[j])),
        first_bad_from(s, i) matches Some(b) ==> !is_alpha(b),
    decreases s.len() - i,
{
    if i < s.len() {
        lemma_first_bad_from(s, i + 1);
    }
}

/// Every byte is a letter exactly when there is no first bad byte.
pub proof fn lemma_first_bad(s: Seq<u8>)
    ensures
        first_bad(s) is None <==> all_alpha(s),
        first_bad(s) matches Some(b) ==> !is_alpha(b),
{
    lemma_first_bad_from(s, 0);
}

/// The type tag of a chunk: four ASCII letters whose case carries the chunk's properties.
#[derive(PartialEq, Eq, Debug, Clone, Copy)]
pub struct ChunkType {
    chunk_type: [u8; 4],
}

impl ChunkType {
    #[verifier::type_invariant]
    spec fn letters(self) -> bool {
        all_alpha(self.chunk_type@)
    }
}

/// Why a tag could not be built.
#[derive(Debug, Clone, Copy)]
pub enum ChunkTypeDecodingError {
    /// A byte that is not an ASCII letter.
    BadByte(u8),
    /// A string whose length in characters is not four.
    BadLength(usize),
}

impl View for ChunkType {
    type V = Seq<u8>;

    closed spec fn view(&self) -> Seq<u8> {
        self.chunk_type@
    }
}

/// A tag always holds four bytes.
pub broadcast proof fn lemma_tag_len(t: ChunkType)
    ensures
        #[trigger] t@.len() == 4,
{
}

impl ChunkType {
    fn check_bytes(bytes: [u8; 4]) -> (r: Result<ChunkType, ChunkTypeDecodingError>)
        ensures
            match r {
                Ok(t) => tag_result(bytes@) == Ok::<Seq<u8>, ChunkTypeDecodingError>(t@),
                Err(e) => tag_result(bytes@) == Err::<Seq<u8>, ChunkTypeDecodingError>(e),
            },
    {
        let mut i: usize = 0;
        while i < 4
            invariant
                i <= 4,
                bytes@.len() == 4,
                first_bad(bytes@) == first_bad_from(bytes@, i as int),
            decreases 4 - i,
        {
            let b = bytes[i];
            if !((0x41 <= b && b <= 0x5A) || (0x61 <= b && b <= 0x7A)) {
                return Err(ChunkTypeDecodingError::BadByte(b));
            }
            i = i + 1;
        }
        proof {
            lemma_first_bad(bytes@);
        }
        Ok(ChunkType { chunk_type: bytes })
    }

    /// Builds a tag from four bytes, each of which must be an ASCII letter.
    pub fn try_from(bytes: [u8; 4]) -> (r: Result<ChunkType, ChunkTypeDecodingError>)
        ensures
            r is Ok <==> all_alpha(bytes@),
            match r {
                Ok(t) => tag_result(bytes@) == Ok::<Seq<u8>, ChunkTypeDecodingError>(t@) && t@ == bytes@,
                Err(e) => tag_result(bytes@) == Err::<Seq<u8>, ChunkTypeDecodingError>(e),
            },
    {
        proof {
            lemma_first_bad(bytes@);
        }
        ChunkType::check_bytes(bytes)
    }

    /// The first byte of `values` that is not an ASCII letter, if any.
    fn find_bad_byte(values: &[u8]) -> (r: Option<u8>)
        ensures
            r == first_bad(values@),
    {
        let mut i: usize = 0;
        while i < values.len()
            invariant
                i <= values@.len(),
                first_bad(values@) == first_bad_from(values@, i as int),
            decreases values@.len() - i,
        {
            let b = values[i];
            if !((0x41 <= b && b <= 0x5A) || (0x61 <= b && b <= 0x7A)) {
                return Some(b);
            }
            i = i + 1;
        }
        None
    }

    /// Builds a tag from a string of four characters, each of which must be an ASCII letter.
    /// The number of characters is checked first.
    pub fn from_str(s: &str) -> (r: Result<ChunkType, ChunkTypeDecodingError>)
        ensures
            r is Ok <==> (s@.len() == 4 && forall|i: int| 0 <= i < s@.len() ==> #[trigger] is_alpha_char(s@[i])),
            r is Ok <==> (s.spec_bytes().len() == 4 && all_alpha(s.spec_bytes())),
            match r {
                Ok(t) => tag_from_str(s@) == Ok::<Seq<u8>, ChunkTypeDecodingError>(t@),
                Err(e) => tag_from_str(s@) == Err::<Seq<u8>, ChunkTypeDecodingError>(e),
            },
    {
        proof {
            lemma_tag_from_str_chars(s@);
            lemma_first_bad(s.spec_bytes());
        }
        let n = s.unicode_len();
        if n != 4 {
            return Err(ChunkTypeDecodingError::BadLength(n));
        }
        let values = s.as_bytes();
        match ChunkType::find_bad_byte(values) {
            Some(b) => Err(ChunkTypeDecodingError::BadByte(b)),
            None => {
                let bytes: [u8; 4] = [values[0], values[1], values[2], values[3]];
                assert(bytes@ =~= s.spec_bytes());
                ChunkType::try_from(bytes)
            },
        }
    }

    /// The tag's four bytes.
    pub fn bytes(&self) -> (r: [u8; 4])
        ensures
            r@ == self@,
            all_alpha(self@),
    {
        proof {
            use_type_invariant(self);
        }
        self.chunk_type
    }

    /// The general validity check: four letters, the third of them upper case.
    pub fn is_valid(&self) -> (r: bool)
        ensures
            r == tag_is_valid(self@),
    {
        proof {
            use_type_invariant(self);
        }
        self.chunk_type[2] & 0x20 == 0
    }

    /// The check made when a tag is built: every byte is a letter. A tag always passes it.
    pub fn is_valid_for_creation(&self) -> (r: Result<bool, ChunkTypeDecodingError>)
        ensures
            all_alpha(self@),
            r == Ok::<bool, ChunkTypeDecodingError>(true),
    {
        proof {
            use_type_invariant(self);
        }
        Ok(true)
    }

    /// Critical: bit 5 of the first byte is clear.
    pub fn is_critical(&self) -> (r: bool)
        ensures
            r == bit5_clear(self@[0]),
    {
        self.chunk_type[0] & 0x20 == 0
    }

    /// Public: bit 5 of the second byte is clear.
    pub fn is_public(&self) -> (r: bool)
        ensures
            r == bit5_clear(self@[1]),
    {
        self.chunk_type[1] & 0x20 == 0
    }

    /// Reserved bit valid: bit 5 of the third byte is clear.
    pub fn is_reserved_bit_valid(&self) -> (r: bool)
        ensures
            r == bit5_clear(self@[2]),
    {
        self.chunk_type[2] & 0x20 == 0
    }

    /// Safe to copy: bit 5 of the fourth byte is set.
    pub fn is_safe_to_copy(&self) -> (r: bool)
        ensures
            r == !bit5_clear(self@[3]),
    {
        self.chunk_type[3] & 0x20 != 0
    }

    /// The tag as text: its four letters.
    pub fn to_string(&self) -> (r: String)
        ensures
            r@ == decode_utf8(self@),
    {
        proof {
            use_type_invariant(self);
            assert forall|i: int| 0 <= i < self@.len() implies #[trigger] self@[i] < 0x80 by {
                assert(is_alpha(self@[i]));
            }
            lemma_ascii_is_utf8(self@);
        }
        match utf8_to_string(self.chunk_type.as_slice()) {
            Some(s) => s,
            None => String::new(),
        }
    }
}

impl TryFrom<[u8; 4]> for ChunkType {
    type Error = ChunkTypeDecodingError;

    fn try_from(value: [u8; 4]) -> Result<ChunkType, ChunkTypeDecodingError> {
        let r = ChunkType::try_from(value);
        proof {
            lemma_first_bad(value@);
            if let Ok(t) = r {
                assert(t.chunk_type@ =~= value@);
                assert(t.chunk_type == value);
            }
        }
        r
    }
}

impl vstd::std_specs::convert::TryFromSpecImpl<[u8; 4]> for ChunkType {
    open spec fn obeys_try_from_spec() -> bool {
        true
    }

    closed spec fn try_from_spec(value: [u8; 4]) -> Result<ChunkType, ChunkTypeDecodingError> {
        match tag_result(value@) {
            Ok(_) => Ok(ChunkType { chunk_type: value }),
            Err(e) => Err(e),
        }
    }
}

impl std::str::FromStr for ChunkType {
    type Err = ChunkTypeDecodingError;

    fn from_str(s: &str) -> Result<ChunkType, ChunkTypeDecodingError> {
        ChunkType::from_str(s)
    }
}

} // verus!
