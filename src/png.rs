use vstd::prelude::*;
use vstd::string::StringSliceAdditionalSpecFns;

use crate::chunk::{
    chunk_bytes, chunk_model_ok, declared_len, lemma_parse_chunk_bytes, lemma_parse_chunk_len,
    lemma_parse_chunk_of_bytes, parse_chunk, Chunk,
    ChunkError,
};

verus! {

broadcast use crate::chunk_type::lemma_tag_len;

/// A chunk as the container sees it: its tag's bytes and its data.
pub type ChunkModel = (Seq<u8>, Seq<u8>);

/// The eight bytes that open every PNG file.
pub open spec fn png_signature() -> Seq<u8> {
    seq![137u8, 80u8, 78u8, 71u8, 13u8, 10u8, 26u8, 10u8]
}

/// The tag of the chunk that ends the stream: `IEND`.
pub open spec fn end_tag() -> Seq<u8> {
    seq![73u8, 69u8, 78u8, 68u8]
}

/// The chunks' wire forms, one after another.
pub open spec fn chunks_bytes(cs: Seq<ChunkModel>) -> Seq<u8>
    decreases cs.len(),
{
    if cs.len() == 0 {
        seq![]
    } else {
        chunk_bytes(cs[0].0, cs[0].1) + chunks_bytes(cs.drop_first())
    }
}

/// The wire form of a container: the signature, then its chunks.
pub open spec fn png_bytes(cs: Seq<ChunkModel>) -> Seq<u8> {
    png_signature() + chunks_bytes(cs)
}

/// What reading chunks back to back until `b` is used up gives.
pub open spec fn parse_chunks(b: Seq<u8>) -> Result<Seq<ChunkModel>, ChunkError>
    decreases b.len(),
    via parse_chunks_decreases
{
    if b.len() == 0 {
        Ok(seq![])
    } else {
        match parse_chunk(b) {
            Err(e) => Err(e),
            Ok(c) => match parse_chunks(b.subrange(12 + declared_len(b), b.len() as int)) {
                Err(e) => Err(e),
                Ok(rest) => Ok(seq![c] + rest),
            },
        }
    }
}

#[via_fn]
proof fn parse_chunks_decreases(b: Seq<u8>) {
    if b.len() != 0 && parse_chunk(b) is Ok {
        lemma_parse_chunk_len(b);
        assert(b.subrange(12 + declared_len(b), b.len() as int).len() < b.len());
    }
}

/// The chunk sequence ends with the end marker.
pub open spec fn ends_with_end(cs: Seq<ChunkModel>) -> bool {
    cs.len() > 0 && cs.last().0 == end_tag()
}

/// What reading a whole container from `b` gives: its chunks, or the error.
pub open spec fn parse_png(b: Seq<u8>) -> Result<Seq<ChunkModel>, PngError> {
    if b.len() < 8 || b.subrange(0, 8) != png_signature() {
        Err(PngError::BadSignature)
    } else {
        match parse_chunks(b.subrange(8, b.len() as int)) {
            Err(e) => Err(PngError::Chunk(e)),
            Ok(cs) => if ends_with_end(cs) {
                Ok(cs)
            } else {
                Err(PngError::MissingTerminator)
            },
        }
    }
}

/// `c` placed just before the last chunk (or as the only one, where there is none).
pub open spec fn insert_before_last(cs: Seq<ChunkModel>, c: ChunkModel) -> Seq<ChunkModel> {
    if cs.len() == 0 {
        seq![c]
    } else {
        cs.insert(cs.len() - 1, c)
    }
}

/// Some chunk of `cs` has the tag `key`.
pub open spec fn has_tag(cs: Seq<ChunkModel>, key: Seq<u8>) -> bool {
    exists|i: int| 0 <= i < cs.len() && #[trigger] cs[i].0 == key
}

/// `i` is the first position in `cs` of a chunk with the tag `key`.
pub open spec fn first_with_tag(cs: Seq<ChunkModel>, key: Seq<u8>, i: int) -> bool {
    &&& 0 <= i < cs.len()
    &&& cs[i].0 == key
    &&& forall|j: int| 0 <= j < i ==> #[trigger] cs[j].0 != key
}

/// Writing a chunk after others appends its wire form.
pub proof fn lemma_chunks_bytes_push(cs: Seq<ChunkModel>, c: ChunkModel)
    ensures
        chunks_bytes(cs.push(c)) == chunks_bytes(cs) + chunk_bytes(c.0, c.1),
    decreases cs.len(),
{
    if cs.len() == 0 {
        assert(cs.push(c).drop_first() =~= seq![]);
        assert(chunks_bytes(cs.push(c).drop_first()) == Seq::<u8>::empty());
        assert(chunks_bytes(cs.push(c)) =~= chunks_bytes(cs) + chunk_bytes(c.0, c.1));
    } else {
        lemma_chunks_bytes_push(cs.drop_first(), c);
        let first = chunk_bytes(cs[0].0, cs[0].1);
        assert(cs.push(c).drop_first() =~= cs.drop_first().push(c));
        assert(cs.push(c)[0] == cs[0]);
        assert(chunks_bytes(cs.push(c)) == first + chunks_bytes(cs.drop_first().push(c)));
        assert(chunks_bytes(cs) == first + chunks_bytes(cs.drop_first()));
        assert(chunks_bytes(cs.push(c)) =~= chunks_bytes(cs) + chunk_bytes(c.0, c.1));
    }
}

/// Chunks read from `b` are written back as exactly `b`.
pub proof fn lemma_parse_chunks_round_trip(b: Seq<u8>)
    requires
        parse_chunks(b) is Ok,
    ensures
        parse_chunks(b) matches Ok(cs) && chunks_bytes(cs) == b,
    decreases b.len(),
{
    if b.len() > 0 {
        lemma_parse_chunk_bytes(b);
        let n = 12 + declared_len(b);
        let rest = b.subrange(n, b.len() as int);
        let c = parse_chunk(b)->Ok_0;
        assert(parse_chunks(rest) is Ok);
        lemma_parse_chunks_round_trip(rest);
        let tail = parse_chunks(rest)->Ok_0;
        let cs = seq![c] + tail;
        assert(parse_chunks(b) == Ok::<Seq<ChunkModel>, ChunkError>(cs));
        assert(cs.drop_first() =~= tail);
        assert(chunk_bytes(c.0, c.1) == b.subrange(0, n));
        assert(chunks_bytes(cs) == chunk_bytes(c.0, c.1) + chunks_bytes(tail));
        assert(b =~= b.subrange(0, n) + rest);
    }
}

/// Round trip: a container read from `b` is written back as exactly `b`.
pub proof fn lemma_round_trip(b: Seq<u8>)
    requires
        parse_png(b) is Ok,
    ensures
        parse_png(b) matches Ok(cs) && png_bytes(cs) == b,
{
    lemma_parse_chunks_round_trip(b.subrange(8, b.len() as int));
    assert(b =~= b.subrange(0, 8) + b.subrange(8, b.len() as int));
}

/// How many bytes the last chunk of `cs` takes on the wire.
pub open spec fn last_chunk_size(cs: Seq<ChunkModel>) -> int {
    12 + cs.last().1.len() as int
}

/// Adding a chunk before the last one keeps every byte of the file read from `b`: the result is
/// `b` without its last chunk, then the new chunk's wire form, then that last chunk's bytes.
pub proof fn lemma_insert_keeps_bytes(b: Seq<u8>, c: ChunkModel)
    requires
        parse_png(b) is Ok,
    ensures
        parse_png(b) matches Ok(cs) && png_bytes(insert_before_last(cs, c)) == b.subrange(
            0,
            b.len() - last_chunk_size(cs),
        ) + chunk_bytes(c.0, c.1) + b.subrange(b.len() - last_chunk_size(cs), b.len() as int),
{
    lemma_round_trip(b);
    let cs = parse_png(b)->Ok_0;
    let n = cs.len();
    let init = cs.drop_last();
    let last = cs.last();
    assert(init.push(last) =~= cs);
    assert(insert_before_last(cs, c) =~= init.push(c).push(last));
    lemma_chunks_bytes_push(init, last);
    lemma_chunks_bytes_push(init, c);
    lemma_chunks_bytes_push(init.push(c), last);
    let head = png_signature() + chunks_bytes(init);
    let tail = chunk_bytes(last.0, last.1);
    assert(tail.len() == last_chunk_size(cs));
    assert(b =~= head + tail);
    assert(b.subrange(0, b.len() - last_chunk_size(cs)) =~= head);
    assert(b.subrange(b.len() - last_chunk_size(cs), b.len() as int) =~= tail);
    assert(png_bytes(insert_before_last(cs, c)) =~= head + chunk_bytes(c.0, c.1) + tail);
}

/// Every chunk of `cs` has a tag and data that a chunk can hold.
pub open spec fn chunks_ok(cs: Seq<ChunkModel>) -> bool {
    forall|i: int| 0 <= i < cs.len() ==> #[trigger] chunk_model_ok(cs[i])
}

/// Chunks written one after another read back as the same chunks.
pub proof fn lemma_parse_chunks_of_bytes(cs: Seq<ChunkModel>)
    requires
        chunks_ok(cs),
    ensures
        parse_chunks(chunks_bytes(cs)) == Ok::<Seq<ChunkModel>, ChunkError>(cs),
    decreases cs.len(),
{
    if cs.len() == 0 {
        assert(chunks_bytes(cs) =~= Seq::<u8>::empty());
        assert(parse_chunks(Seq::<u8>::empty()) == Ok::<Seq<ChunkModel>, ChunkError>(seq![]));
        assert(cs =~= seq![]);
    } else {
        let rest = cs.drop_first();
        assert(chunks_ok(rest)) by {
            assert forall|i: int| 0 <= i < rest.len() implies #[trigger] chunk_model_ok(rest[i]) by {
                assert(rest[i] == cs[i + 1]);
            }
        }
        lemma_parse_chunks_of_bytes(rest);
        assert(chunk_model_ok(cs[0]));
        let b = chunks_bytes(cs);
        let first = chunk_bytes(cs[0].0, cs[0].1);
        assert(b == first + chunks_bytes(rest));
        lemma_parse_chunk_of_bytes(cs[0].0, cs[0].1, chunks_bytes(rest));
        assert(b.subrange(12 + declared_len(b), b.len() as int) =~= chunks_bytes(rest));
        assert(seq![cs[0]] + rest =~= cs);
    }
}

/// A container written out reads back as the same chunks, wherever its chunks are ones a chunk
/// can hold and the last of them is the end marker.
pub proof fn lemma_parse_of_written(cs: Seq<ChunkModel>)
    requires
        chunks_ok(cs),
        ends_with_end(cs),
    ensures
        parse_png(png_bytes(cs)) == Ok::<Seq<ChunkModel>, PngError>(cs),
{
    let b = png_bytes(cs);
    lemma_parse_chunks_of_bytes(cs);
    assert(b.subrange(0, 8) =~= png_signature());
    assert(b.subrange(8, b.len() as int) =~= chunks_bytes(cs));
}

/// Why a container could not be read, or a chunk not removed from it.
#[derive(Debug)]
pub enum PngError {
    /// The first eight bytes are not the PNG signature.
    BadSignature,
    /// The last chunk is not the end marker, or there is no chunk.
    MissingTerminator,
    /// No chunk has the given tag.
    ChunkNotFound(String),
    /// A chunk could not be read.
    Chunk(ChunkError),
}

/// A PNG container: the signature, then a sequence of chunks.
pub struct Png {
    chunks: Vec<Chunk>,
}

impl View for Png {
    type V = Seq<ChunkModel>;

    closed spec fn view(&self) -> Seq<ChunkModel> {
        self.chunks@.map_values(|c: Chunk| c@)
    }
}

/// The eight signature bytes.
pub fn standard_header() -> (r: [u8; 8])
    ensures
        r@ == png_signature(),
{
    let r: [u8; 8] = [137, 80, 78, 71, 13, 10, 26, 10];
    assert(r@ =~= png_signature());
    r
}

/// Whether the tag bytes `t` equal the bytes of `key`.
fn same_tag(t: [u8; 4], key: &[u8]) -> (r: bool)
    ensures
        r == (t@ == key@),
{
    if key.len() != 4 {
        return false;
    }
    let r = t[0] == key[0] && t[1] == key[1] && t[2] == key[2] && t[3] == key[3];
    if r {
        assert(t@ =~= key@);
    }
    r
}

impl Png {
    /// The position of the first chunk whose tag is `key`.
    fn find(&self, key: &[u8]) -> (r: Option<usize>)
        ensures
            r is None <==> !has_tag(self@, key@),
            r matches Some(i) ==> first_with_tag(self@, key@, i as int),
    {
        let mut i: usize = 0;
        while i < self.chunks.len()
            invariant
                i <= self.chunks@.len(),
                self@.len() == self.chunks@.len(),
                forall|j: int| 0 <= j < i ==> #[trigger] self@[j].0 != key@,
            decreases self.chunks@.len() - i,
        {
            let t = self.chunks[i].chunk_type().bytes();
            if same_tag(t, key) {
                assert(self@[i as int] == self.chunks@[i as int]@);
                return Some(i);
            }
            i = i + 1;
        }
        None
    }

    /// Reads a container: the signature, then chunks until the bytes are used up,
    /// the last of which must be the end marker.
    pub fn try_from(bytes: &[u8]) -> (r: Result<Png, PngError>)
        ensures
            match r {
                Ok(p) => parse_png(bytes@) == Ok::<Seq<ChunkModel>, PngError>(p@),
                Err(e) => parse_png(bytes@) == Err::<Seq<ChunkModel>, PngError>(e),
            },
    {
        let n = bytes.len();
        if n < 8 {
            return Err(PngError::BadSignature);
        }
        let header = standard_header();
        let mut k: usize = 0;
        while k < 8
            invariant
                k <= 8,
                n == bytes@.len(),
                n >= 8,
                header@ == png_signature(),
                forall|j: int| 0 <= j < k ==> bytes@[j] == #[trigger] png_signature()[j],
            decreases 8 - k,
        {
            if bytes[k] != header[k] {
                assert(bytes@.subrange(0, 8)[k as int] != png_signature()[k as int]);
                return Err(PngError::BadSignature);
            }
            k = k + 1;
        }
        assert(bytes@.subrange(0, 8) =~= png_signature());
        let ghost body = bytes@.subrange(8, n as int);
        let mut chunks: Vec<Chunk> = Vec::new();
        let mut cursor: usize = 8;
        while cursor < n
            invariant
                8 <= cursor <= n,
                n == bytes@.len(),
                body == bytes@.subrange(8, n as int),
                bytes@.subrange(0, 8) == png_signature(),
                parse_chunks(body) == match parse_chunks(bytes@.subrange(cursor as int, n as int)) {
                    Ok(rest) => Ok(chunks@.map_values(|c: Chunk| c@) + rest),
                    Err(e) => Err::<Seq<ChunkModel>, ChunkError>(e),
                },
            decreases n - cursor,
        {
            let ghost sub = bytes@.subrange(cursor as int, n as int);
            match Chunk::parse_at(bytes, cursor) {
                Err(e) => {
                    assert(parse_chunks(sub) == Err::<Seq<ChunkModel>, ChunkError>(e));
                    assert(parse_chunks(body) == Err::<Seq<ChunkModel>, ChunkError>(e));
                    return Err(PngError::Chunk(e));
                },
                Ok(c) => {
                    proof {
                        lemma_parse_chunk_bytes(sub);
                    }
                    let len = c.length() as usize;
                    let ghost old_view = chunks@.map_values(|c: Chunk| c@);
                    let next = cursor + 12 + len;
                    assert(sub.subrange(12 + declared_len(sub), sub.len() as int) =~= bytes@.subrange(
                        next as int,
                        n as int,
                    ));
                    chunks.push(c);
                    assert(chunks@.map_values(|c: Chunk| c@) =~= old_view.push(c@));
                    proof {
                        match parse_chunks(bytes@.subrange(next as int, n as int)) {
                            Ok(rest) => {
                                assert(old_view + (seq![c@] + rest) =~= old_view.push(c@) + rest);
                            },
                            Err(_) => {},
                        }
                    }
                    cursor = next;
                },
            }
        }
        assert(bytes@.subrange(cursor as int, n as int) =~= Seq::<u8>::empty());
        assert(chunks@.map_values(|c: Chunk| c@) + Seq::<ChunkModel>::empty() =~= chunks@.map_values(
            |c: Chunk| c@,
        ));
        let png = Png { chunks };
        if png.chunks.len() == 0 {
            return Err(PngError::MissingTerminator);
        }
        let last = png.chunks[png.chunks.len() - 1].chunk_type().bytes();
        let end: [u8; 4] = [73, 69, 78, 68];
        assert(end@ =~= end_tag());
        if !same_tag(last, end.as_slice()) {
            return Err(PngError::MissingTerminator);
        }
        Ok(png)
    }

    /// The eight signature bytes.
    pub fn header(&self) -> (r: [u8; 8])
        ensures
            r@ == png_signature(),
    {
        standard_header()
    }

    /// The chunks, in order.
    pub fn chunks(&self) -> (r: &[Chunk])
        ensures
            r@.map_values(|c: Chunk| c@) == self@,
    {
        self.chunks.as_slice()
    }

    /// Places `chunk` just before the last chunk, the end marker.
    pub fn append_chunk(&mut self, chunk: Chunk)
        ensures
            final(self)@ == insert_before_last(old(self)@, chunk@),
            ends_with_end(old(self)@) ==> ends_with_end(final(self)@),
    {
        let ghost c = chunk@;
        let n = self.chunks.len();
        if n == 0 {
            self.chunks.push(chunk);
            assert(self@ =~= seq![c]);
        } else {
            self.chunks.insert(n - 1, chunk);
            assert(self@ =~= old(self)@.insert(n - 1, c));
        }
    }

    /// The first chunk whose tag is `chunk_type`, if any.
    pub fn chunk_by_type(&self, chunk_type: &str) -> (r: Option<&Chunk>)
        ensures
            r is Some <==> has_tag(self@, chunk_type.spec_bytes()),
            r matches Some(c) ==> exists|i: int|
                first_with_tag(self@, chunk_type.spec_bytes(), i) && c@ == #[trigger] self@[i],
    {
        match self.find(chunk_type.as_bytes()) {
            Some(i) => {
                assert(self.chunks@[i as int]@ == self@[i as int]);
                Some(&self.chunks[i])
            },
            None => None,
        }
    }

    /// Takes out the first chunk whose tag is `chunk_type` and returns it.
    /// Where there is none, nothing changes.
    pub fn remove_chunk(&mut self, chunk_type: &str) -> (r: Result<Chunk, PngError>)
        ensures
            r is Ok <==> has_tag(old(self)@, chunk_type.spec_bytes()),
            r matches Ok(c) ==> exists|i: int|
                first_with_tag(old(self)@, chunk_type.spec_bytes(), i) && c@ == #[trigger] old(self)@[i]
                    && final(self)@ == old(self)@.remove(i),
            r is Err ==> final(self)@ == old(self)@,
            r matches Err(e) ==> e matches PngError::ChunkNotFound(s) && s@ == chunk_type@,
    {
        match self.find(chunk_type.as_bytes()) {
            Some(i) => {
                let c = self.chunks.remove(i);
                assert(self@ =~= old(self)@.remove(i as int));
                assert(c@ == old(self)@[i as int]);
                Ok(c)
            },
            None => Err(PngError::ChunkNotFound(chunk_type.to_string())),
        }
    }

    /// The container's wire form: the signature, then each chunk's.
    pub fn as_bytes(&self) -> (r: Vec<u8>)
        ensures
            r@ == png_bytes(self@),
            chunks_ok(self@),
            ends_with_end(self@) ==> parse_png(r@) == Ok::<Seq<ChunkModel>, PngError>(self@),
    {
        let mut out: Vec<u8> = Vec::new();
        let header = standard_header();
        let mut k: usize = 0;
        while k < 8
            invariant
                k <= 8,
                header@ == png_signature(),
                out@ == png_signature().subrange(0, k as int),
            decreases 8 - k,
        {
            out.push(header[k]);
            k = k + 1;
            assert(out@ =~= png_signature().subrange(0, k as int));
        }
        assert(png_signature().subrange(0, 8) =~= png_signature());
        let mut i: usize = 0;
        while i < self.chunks.len()
            invariant
                i <= self.chunks@.len(),
                self@.len() == self.chunks@.len(),
                out@ == png_signature() + chunks_bytes(self@.subrange(0, i as int)),
                forall|j: int| 0 <= j < i ==> #[trigger] chunk_model_ok(self@[j]),
            decreases self.chunks@.len() - i,
        {
            let bytes = self.chunks[i].as_bytes();
            proof {
                lemma_chunks_bytes_push(self@.subrange(0, i as int), self@[i as int]);
                assert(self@.subrange(0, i as int).push(self@[i as int]) =~= self@.subrange(0, i + 1));
                assert(self.chunks@[i as int]@ == self@[i as int]);
            }
            let mut j: usize = 0;
            let ghost before = out@;
            while j < bytes.len()
                invariant
                    j <= bytes@.len(),
                    out@ == before + bytes@.subrange(0, j as int),
                decreases bytes@.len() - j,
            {
                out.push(bytes[j]);
                j = j + 1;
                assert(out@ =~= before + bytes@.subrange(0, j as int));
            }
            assert(bytes@.subrange(0, j as int) =~= bytes@);
            i = i + 1;
        }
        assert(self@.subrange(0, i as int) =~= self@);
        proof {
            if ends_with_end(self@) {
                lemma_parse_of_written(self@);
            }
        }
        out
    }
}

impl<'a> TryFrom<&'a [u8]> for Png {
    type Error = PngError;

    fn try_from(bytes: &'a [u8]) -> Result<Png, PngError> {
        Png::try_from(bytes)
    }
}

impl<'a> vstd::std_specs::convert::TryFromSpecImpl<&'a [u8]> for Png {
    open spec fn obeys_try_from_spec() -> bool {
        false
    }

    open spec fn try_from_spec(bytes: &'a [u8]) -> Result<Png, PngError> {
        arbitrary()
    }
}

} // verus!
