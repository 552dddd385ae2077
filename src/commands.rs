use vstd::prelude::*;
use vstd::string::StringSliceAdditionalSpecFns;
use vstd::utf8::{decode_utf8, valid_utf8};

use crate::chunk::{chunk_bytes, Chunk, ChunkError};
use crate::chunk_type::{tag_from_str, ChunkType, ChunkTypeDecodingError};
use crate::png::{
    end_tag, ends_with_end, first_with_tag, last_chunk_size, lemma_insert_keeps_bytes, has_tag, insert_before_last, parse_png, png_bytes, Png, PngError,
};

verus! {

/// Why an operation on a whole file failed.
#[derive(Debug)]
pub enum Error {
    /// The file is not a well-formed container.
    Png(PngError),
    /// The tag is not four ASCII letters.
    ChunkType(ChunkTypeDecodingError),
    /// The data cannot be read as text.
    Chunk(ChunkError),
    /// The message is longer than a chunk can hold (its length in bytes).
    MessageTooLong(usize),
}

/// What embedding `message` under the tag `key` in the file `file` gives:
/// the new file, or the error.
pub open spec fn encode_result(file: Seq<u8>, key: Seq<char>, message: Seq<u8>) -> Result<Seq<u8>, Error> {
    match parse_png(file) {
        Err(e) => Err(Error::Png(e)),
        Ok(cs) => match tag_from_str(key) {
            Err(e) => Err(Error::ChunkType(e)),
            Ok(tag) => if message.len() > u32::MAX {
                Err(Error::MessageTooLong(message.len() as usize))
            } else {
                Ok(png_bytes(insert_before_last(cs, (tag, message))))
            },
        },
    }
}

/// Embeds `message` in the file `file` as a chunk tagged `key`, placed just before the end marker.
pub fn encode(file: &[u8], key: &str, message: &str) -> (r: Result<Vec<u8>, Error>)
    ensures
        match r {
            Ok(out) => encode_result(file@, key@, message.spec_bytes()) == Ok::<Seq<u8>, Error>(out@),
            Err(e) => encode_result(file@, key@, message.spec_bytes()) == Err::<Seq<u8>, Error>(e),
        },
        r matches Ok(out) ==> out@ == file@.subrange(0, file@.len() - last_chunk_size(parse_png(file@)->Ok_0))
            + chunk_bytes(key.spec_bytes(), message.spec_bytes()) + file@.subrange(
            file@.len() - last_chunk_size(parse_png(file@)->Ok_0),
            file@.len() as int,
        ),
        r matches Ok(out) ==> parse_png(out@) == Ok::<Seq<crate::png::ChunkModel>, PngError>(
            insert_before_last(parse_png(file@)->Ok_0, (key.spec_bytes(), message.spec_bytes())),
        ),
{
    let mut png = match Png::try_from(file) {
        Ok(p) => p,
        Err(e) => {
            return Err(Error::Png(e));
        },
    };
    let chunk_type = match ChunkType::from_str(key) {
        Ok(t) => t,
        Err(e) => {
            return Err(Error::ChunkType(e));
        },
    };
    let data = vstd::slice::slice_to_vec(message.as_bytes());
    if data.len() as u64 > 0xFFFF_FFFF {
        return Err(Error::MessageTooLong(data.len()));
    }
    let chunk = Chunk::new(chunk_type, data);
    proof {
        lemma_insert_keeps_bytes(file@, chunk@);
    }
    png.append_chunk(chunk);
    Ok(png.as_bytes())
}

/// Reads as text the data of the first chunk tagged `key` in the file `file`;
/// `None` where no chunk has that tag.
pub fn decode(file: &[u8], key: &str) -> (r: Result<Option<String>, Error>)
    ensures
        parse_png(file@) matches Err(e) ==> r == Err::<Option<String>, Error>(Error::Png(e)),
        parse_png(file@) matches Ok(cs) ==> {
            &&& !has_tag(cs, key.spec_bytes()) ==> r == Ok::<Option<String>, Error>(None)
            &&& forall|i: int|
                #![trigger cs[i]]
                first_with_tag(cs, key.spec_bytes(), i) ==> if valid_utf8(cs[i].1) {
                    r matches Ok(Some(s)) && s@ == decode_utf8(cs[i].1)
                } else {
                    r == Err::<Option<String>, Error>(Error::Chunk(ChunkError::DataToStringError))
                }
        },
{
    let png = match Png::try_from(file) {
        Ok(p) => p,
        Err(e) => {
            return Err(Error::Png(e));
        },
    };
    match png.chunk_by_type(key) {
        None => Ok(None),
        Some(c) => match c.data_as_string() {
            Ok(s) => Ok(Some(s)),
            Err(e) => Err(Error::Chunk(e)),
        },
    }
}

/// Takes the first chunk tagged `key` out of the file `file` and gives the new file.
pub fn remove(file: &[u8], key: &str) -> (r: Result<Vec<u8>, Error>)
    ensures
        parse_png(file@) matches Err(e) ==> r == Err::<Vec<u8>, Error>(Error::Png(e)),
        parse_png(file@) matches Ok(cs) ==> {
            &&& !has_tag(cs, key.spec_bytes()) ==> (r matches Err(Error::Png(PngError::ChunkNotFound(s))) && s@
                == key@)
            &&& forall|i: int|
                #![trigger cs[i]]
                first_with_tag(cs, key.spec_bytes(), i) ==> (r matches Ok(out) && out@ == png_bytes(
                    cs.remove(i),
                ) && (key.spec_bytes() != end_tag() ==> parse_png(out@) == Ok::<
                    Seq<crate::png::ChunkModel>,
                    PngError,
                >(cs.remove(i))))
        },
{
    let mut png = match Png::try_from(file) {
        Ok(p) => p,
        Err(e) => {
            return Err(Error::Png(e));
        },
    };
    let ghost before = png@;
    match png.remove_chunk(key) {
        Ok(_chunk) => {
            proof {
                if key.spec_bytes() != end_tag() {
                    let i = choose|i: int|
                        first_with_tag(before, key.spec_bytes(), i) && png@ == before.remove(i);
                    assert(png@.last() == before.last());
                }
            }
            Ok(png.as_bytes())
        },
        Err(e) => Err(Error::Png(e)),
    }
}

} // verus!
