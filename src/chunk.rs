use vstd::prelude::*;
use vstd::utf8::{decode_utf8, valid_utf8};

use crate::chunk_type::{all_alpha, first_bad, lemma_first_bad, ChunkType, ChunkTypeDecodingError};
use crate::text::utf8_to_string;

verus! {

broadcast use crate::chunk_type::lemma_tag_len;

/// The CRC-32 (IEEE polynomial) of a byte string, as `crc32fast::hash` computes it.
pub uninterp spec fn crc32_of(b: Seq<u8>) -> u32;

/// Relies on `crc32fast::hash`: the CRC-32 of the bytes, a function of the bytes alone.
#[verifier::external_body]
fn crc32(b: &[u8]) -> (r: u32)
    ensures
        r == crc32_of(b@),
{
    crc32fast::hash(b)
}

/// The value of four bytes read as a big-endian integer.
pub open spec fn be_u32(s: Seq<u8>) -> u32 {
    (s[0] as int * 0x1000000 + s[1] as int * 0x10000 + s[2] as int * 0x100 + s[3] as int) as u32
}

/// The four big-endian bytes of `x`.
pub open spec fn be32(x: u32) -> Seq<u8> {
    seq![
        (x / 0x1000000) as u8,
        (x / 0x10000 % 0x100) as u8,
        (x / 0x100 % 0x100) as u8,
        (x % 0x100) as u8,
    ]
}

/// The wire form of a chunk with the given tag and data:
/// length, tag, data and the CRC-32 of tag and data, the integers big-endian.
pub open spec fn chunk_bytes(tag: Seq<u8>, data: Seq<u8>) -> Seq<u8> {
    be32(data.len() as u32) + tag + data + be32(crc32_of(tag + data))
}

/// A tag and data that a chunk can hold: four letters, and data whose length fits the length field.
pub open spec fn chunk_model_ok(c: (Seq<u8>, Seq<u8>)) -> bool {
    c.0.len() == 4 && all_alpha(c.0) && c.1.len() <= u32::MAX
}

/// The data length that the first four bytes of `b` declare.
pub open spec fn declared_len(b: Seq<u8>) -> int {
    be_u32(b.subrange(0, 4)) as int
}

/// What reading one chunk from the front of `b` gives: its tag and data, or the error.
#[verifier::opaque]
pub open spec fn parse_chunk(b: Seq<u8>) -> Result<(Seq<u8>, Seq<u8>), ChunkError> {
    if b.len() < 4 || b.len() < 12 + declared_len(b) {
        Err(ChunkError::InsufficientData)
    } else {
        let len = declared_len(b);
        let tag = b.subrange(4, 8);
        let data = b.subrange(8, 8 + len);
        let stored = be_u32(b.subrange(8 + len, 12 + len));
        match first_bad(tag) {
            Some(x) => Err(ChunkError::InvalidChunkType(ChunkTypeDecodingError::BadByte(x))),
            None => if stored != crc32_of(tag + data) {
                Err(ChunkError::InvalidChecksum(stored, crc32_of(tag + data)))
            } else {
                Ok((tag, data))
            },
        }
    }
}

proof fn lemma_be32_of_bytes(b0: u8, b1: u8, b2: u8, b3: u8)
    ensures
        be32(be_u32(seq![b0, b1, b2, b3])) == seq![b0, b1, b2, b3],
{
    let x = be_u32(seq![b0, b1, b2, b3]);
    assert(x == (b0 as u32) * 0x1000000 + (b1 as u32) * 0x10000 + (b2 as u32) * 0x100 + (b3 as u32));
    assert(((b0 as u32) * 0x1000000 + (b1 as u32) * 0x10000 + (b2 as u32) * 0x100 + (b3 as u32)) / 0x1000000 == b0 as u32
        && ((b0 as u32) * 0x1000000 + (b1 as u32) * 0x10000 + (b2 as u32) * 0x100 + (b3 as u32)) / 0x10000 % 0x100 == b1 as u32
        && ((b0 as u32) * 0x1000000 + (b1 as u32) * 0x10000 + (b2 as u32) * 0x100 + (b3 as u32)) / 0x100 % 0x100 == b2 as u32
        && ((b0 as u32) * 0x1000000 + (b1 as u32) * 0x10000 + (b2 as u32) * 0x100 + (b3 as u32)) % 0x100 == b3 as u32)
        by (bit_vector);
    assert(be32(x) =~= seq![b0, b1, b2, b3]);
}

/// A chunk read from the front of `b` takes at least twelve bytes and no more than `b` holds.
pub proof fn lemma_parse_chunk_len(b: Seq<u8>)
    requires
        parse_chunk(b) is Ok,
    ensures
        12 <= 12 + declared_len(b) <= b.len(),
{
    reveal(parse_chunk);
}

/// Four bytes read as a big-endian integer and written back are the same four bytes.
pub proof fn lemma_be32_round_trip(s: Seq<u8>)
    requires
        s.len() == 4,
    ensures
        be32(be_u32(s)) == s,
{
    lemma_be32_of_bytes(s[0], s[1], s[2], s[3]);
    assert(s =~= seq![s[0], s[1], s[2], s[3]]);
}

/// A chunk read from the front of `b` is written back as exactly the bytes it was read from.
pub proof fn lemma_parse_chunk_bytes(b: Seq<u8>)
    requires
        parse_chunk(b) is Ok,
    ensures
        parse_chunk(b) matches Ok((tag, data)) && tag.len() == 4 && data.len() == declared_len(b)
            && 12 + data.len() <= b.len()
            && chunk_bytes(tag, data) == b.subrange(0, 12 + data.len() as int),
{
    reveal(parse_chunk);
    let len = declared_len(b);
    let tag = b.subrange(4, 8);
    let data = b.subrange(8, 8 + len);
    lemma_be32_round_trip(b.subrange(0, 4));
    lemma_be32_round_trip(b.subrange(8 + len, 12 + len));
    assert(chunk_bytes(tag, data) =~= b.subrange(0, 12 + len));
}

/// An integer written as four big-endian bytes and read back is the same integer.
pub proof fn lemma_be_u32_of_be32(x: u32)
    ensures
        be32(x).len() == 4,
        be_u32(be32(x)) == x,
{
    let b0 = (x / 0x1000000) as u8;
    let b1 = (x / 0x10000 % 0x100) as u8;
    let b2 = (x / 0x100 % 0x100) as u8;
    let b3 = (x % 0x100) as u8;
    assert(x / 0x1000000 < 0x100);
    assert(b0 as int == x / 0x1000000);
    assert(b1 as int == x / 0x10000 % 0x100);
    assert(b2 as int == x / 0x100 % 0x100);
    assert(b3 as int == x % 0x100);
    assert(b0 as int * 0x1000000 + b1 as int * 0x10000 + b2 as int * 0x100 + b3 as int == x as int)
        by (nonlinear_arith)
        requires
            b0 as int == x / 0x1000000,
            b1 as int == x / 0x10000 % 0x100,
            b2 as int == x / 0x100 % 0x100,
            b3 as int == x % 0x100,
    ;
    assert(be32(x) =~= seq![b0, b1, b2, b3]);
}

/// The wire form of a chunk, followed by anything, reads back as that chunk.
pub proof fn lemma_parse_chunk_of_bytes(tag: Seq<u8>, data: Seq<u8>, rest: Seq<u8>)
    requires
        chunk_model_ok((tag, data)),
    ensures
        parse_chunk(chunk_bytes(tag, data) + rest) == Ok::<(Seq<u8>, Seq<u8>), ChunkError>((tag, data)),
        declared_len(chunk_bytes(tag, data) + rest) == data.len(),
        chunk_bytes(tag, data).len() == 12 + data.len(),
{
    reveal(parse_chunk);
    let b = chunk_bytes(tag, data) + rest;
    let len = data.len() as int;
    lemma_be_u32_of_be32(data.len() as u32);
    lemma_be_u32_of_be32(crc32_of(tag + data));
    lemma_first_bad(tag);
    assert(b.subrange(0, 4) =~= be32(data.len() as u32));
    assert(b.subrange(4, 8) =~= tag);
    assert(b.subrange(8, 8 + len) =~= data);
    assert(b.subrange(8 + len, 12 + len) =~= be32(crc32_of(tag + data)));
}

/// Why a chunk could not be read or its data not shown as text.
#[derive(Debug, Clone, Copy)]
pub enum ChunkError {
    /// The bytes end before the chunk that their length field declares.
    InsufficientData,
    /// The tag holds a byte that is not an ASCII letter.
    InvalidChunkType(ChunkTypeDecodingError),
    /// The stored CRC (first) differs from the one computed over tag and data (second).
    InvalidChecksum(u32, u32),
    /// The data is not well-formed UTF-8.
    DataToStringError,
}

/// A chunk: a tag, its data, the data's length and the CRC-32 of tag and data.
pub struct Chunk {
    length: u32,
    chunk_type: ChunkType,
    data: Vec<u8>,
    crc: u32,
}

impl Chunk {
    #[verifier::type_invariant]
    spec fn consistent(self) -> bool {
        &&& self.length as int == self.data@.len()
        &&& self.crc == crc32_of(self.chunk_type@ + self.data@)
    }
}

impl View for Chunk {
    /// The tag's bytes and the data.
    type V = (Seq<u8>, Seq<u8>);

    closed spec fn view(&self) -> (Seq<u8>, Seq<u8>) {
        (self.chunk_type@, self.data@)
    }
}

/// Reads a big-endian integer from four bytes of `b` at `at`.
pub(crate) fn read_be32(b: &[u8], at: usize) -> (r: u32)
    requires
        at + 4 <= b@.len(),
    ensures
        r == be_u32(b@.subrange(at as int, at + 4)),
{
    let s = Ghost(b@.subrange(at as int, at + 4));
    assert(s@[0] == b@[at as int] && s@[1] == b@[at + 1] && s@[2] == b@[at + 2] && s@[3] == b@[at + 3]);
    (b[at] as u32) * 0x1000000 + (b[at + 1] as u32) * 0x10000 + (b[at + 2] as u32) * 0x100 + (b[at + 3] as u32)
}

/// Appends the four big-endian bytes of `x` to `out`.
pub(crate) fn write_be32(out: &mut Vec<u8>, x: u32)
    ensures
        final(out)@ == old(out)@ + be32(x),
{
    out.push((x / 0x1000000) as u8);
    out.push((x / 0x10000 % 0x100) as u8);
    out.push((x / 0x100 % 0x100) as u8);
    out.push((x % 0x100) as u8);
    assert(final(out)@ =~= old(out)@ + be32(x));
}

/// Appends the bytes of `src` to `out`.
fn extend_from(out: &mut Vec<u8>, src: &[u8])
    ensures
        final(out)@ == old(out)@ + src@,
{
    let mut i: usize = 0;
    while i < src.len()
        invariant
            i <= src@.len(),
            out@ == old(out)@ + src@.subrange(0, i as int),
        decreases src@.len() - i,
    {
        out.push(src[i]);
        i = i + 1;
        assert(out@ =~= old(out)@ + src@.subrange(0, i as int));
    }
    assert(src@.subrange(0, i as int) =~= src@);
}

/// The CRC-32 of a tag followed by data.
fn tag_data_crc(tag: &ChunkType, data: &[u8]) -> (r: u32)
    ensures
        r == crc32_of(tag@ + data@),
{
    let mut input: Vec<u8> = Vec::new();
    let bytes = tag.bytes();
    extend_from(&mut input, bytes.as_slice());
    extend_from(&mut input, data);
    assert(input@ =~= tag@ + data@);
    crc32(input.as_slice())
}

impl Chunk {
    /// Builds a chunk from a tag and its data; the length and the CRC are derived.
    pub fn new(chunk_type: ChunkType, data: Vec<u8>) -> (r: Chunk)
        requires
            data@.len() <= u32::MAX,
        ensures
            r@ == (chunk_type@, data@),
    {
        let crc = tag_data_crc(&chunk_type, data.as_slice());
        Chunk { length: data.len() as u32, chunk_type, data, crc }
    }

    /// Reads the chunk that starts at `start` in `bytes`; bytes after it are left alone.
    pub fn parse_at(bytes: &[u8], start: usize) -> (r: Result<Chunk, ChunkError>)
        requires
            start <= bytes@.len(),
        ensures
            match r {
                Ok(c) => parse_chunk(bytes@.subrange(start as int, bytes@.len() as int)) == Ok::<
                    (Seq<u8>, Seq<u8>),
                    ChunkError,
                >(c@),
                Err(e) => parse_chunk(bytes@.subrange(start as int, bytes@.len() as int)) == Err::<
                    (Seq<u8>, Seq<u8>),
                    ChunkError,
                >(e),
            },
    {
        reveal(parse_chunk);
        let ghost b = bytes@.subrange(start as int, bytes@.len() as int);
        let n = bytes.len();
        if n - start < 4 {
            return Err(ChunkError::InsufficientData);
        }
        let length = read_be32(bytes, start);
        assert(b.subrange(0, 4) =~= bytes@.subrange(start as int, start + 4));
        if ((n - start) as u64) < (length as u64) + 12 {
            return Err(ChunkError::InsufficientData);
        }
        let len = length as usize;
        let tag_bytes: [u8; 4] = [bytes[start + 4], bytes[start + 5], bytes[start + 6], bytes[start + 7]];
        assert(tag_bytes@ =~= b.subrange(4, 8));
        let chunk_type = match ChunkType::try_from(tag_bytes) {
            Ok(t) => t,
            Err(e) => {
                return Err(ChunkError::InvalidChunkType(e));
            },
        };
        proof {
            lemma_first_bad(tag_bytes@);
        }
        let data_start = start + 8;
        let mut data: Vec<u8> = Vec::new();
        let mut i: usize = 0;
        while i < len
            invariant
                i <= len,
                n == bytes@.len(),
                data_start + len + 4 <= n,
                data@ == bytes@.subrange(data_start as int, data_start + i),
            decreases len - i,
        {
            data.push(bytes[data_start + i]);
            i = i + 1;
            assert(data@ =~= bytes@.subrange(data_start as int, data_start + i));
        }
        assert(data@ =~= b.subrange(8, 8 + len));
        let stored = read_be32(bytes, data_start + len);
        assert(b.subrange(8 + len, 12 + len) =~= bytes@.subrange(data_start + len, data_start + len + 4));
        let crc = tag_data_crc(&chunk_type, data.as_slice());
        if stored != crc {
            return Err(ChunkError::InvalidChecksum(stored, crc));
        }
        Ok(Chunk { length, chunk_type, data, crc })
    }

    /// Reads a chunk from the front of `bytes`.
    pub fn try_from(bytes: &[u8]) -> (r: Result<Chunk, ChunkError>)
        ensures
            match r {
                Ok(c) => parse_chunk(bytes@) == Ok::<(Seq<u8>, Seq<u8>), ChunkError>(c@),
                Err(e) => parse_chunk(bytes@) == Err::<(Seq<u8>, Seq<u8>), ChunkError>(e),
            },
    {
        assert(bytes@.subrange(0, bytes@.len() as int) =~= bytes@);
        Chunk::parse_at(bytes, 0)
    }

    /// The data's length in bytes.
    pub fn length(&self) -> (r: u32)
        ensures
            r as int == self@.1.len(),
    {
        proof {
            use_type_invariant(self);
        }
        self.length
    }

    /// The chunk's tag.
    pub fn chunk_type(&self) -> (r: &ChunkType)
        ensures
            r@ == self@.0,
    {
        &self.chunk_type
    }

    /// The chunk's data.
    pub fn data(&self) -> (r: &[u8])
        ensures
            r@ == self@.1,
    {
        self.data.as_slice()
    }

    /// The CRC-32 of the tag and the data.
    pub fn crc(&self) -> (r: u32)
        ensures
            r == crc32_of(self@.0 + self@.1),
    {
        proof {
            use_type_invariant(self);
        }
        self.crc
    }

    /// The data read as UTF-8 text.
    pub fn data_as_string(&self) -> (r: Result<String, ChunkError>)
        ensures
            r is Ok <==> valid_utf8(self@.1),
            r matches Ok(s) ==> s@ == decode_utf8(self@.1),
            r matches Err(e) ==> e == ChunkError::DataToStringError,
    {
        match utf8_to_string(self.data.as_slice()) {
            Some(text) => Ok(text),
            None => Err(ChunkError::DataToStringError),
        }
    }

    /// The chunk's wire form: length, tag, data and CRC.
    pub fn as_bytes(&self) -> (r: Vec<u8>)
        ensures
            r@ == chunk_bytes(self@.0, self@.1),
            chunk_model_ok(self@),
    {
        proof {
            use_type_invariant(self);
        }
        let mut out: Vec<u8> = Vec::new();
        write_be32(&mut out, self.length);
        let tag = self.chunk_type.bytes();
        extend_from(&mut out, tag.as_slice());
        extend_from(&mut out, self.data.as_slice());
        write_be32(&mut out, self.crc);
        out
    }
}

impl<'a> TryFrom<&'a [u8]> for Chunk {
    type Error = ChunkError;

    fn try_from(bytes: &'a [u8]) -> Result<Chunk, ChunkError> {
        Chunk::try_from(bytes)
    }
}

impl<'a> vstd::std_specs::convert::TryFromSpecImpl<&'a [u8]> for Chunk {
    open spec fn obeys_try_from_spec() -> bool {
        false
    }

    open spec fn try_from_spec(bytes: &'a [u8]) -> Result<Chunk, ChunkError> {
        arbitrary()
    }
}

} // verus!
