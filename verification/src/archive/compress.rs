//! Transparent compression of stored text.
//!
//! Each text is one zstd frame. Data that is no frame was stored as plain UTF-8 and is read as it
//! stands.

use crate::bytes::{text_of, utf8_round_trip, utf8_text};
use vstd::prelude::*;
use vstd::slice::slice_to_vec;
use vstd::utf8::encode_utf8;

verus! {

/// A dictionary prepared for compression.
#[verifier::external_type_specification]
#[verifier::external_body]
pub struct ExEncoderDictionary<'a>(zstd::dict::EncoderDictionary<'a>);

/// A dictionary prepared for decompression.
#[verifier::external_type_specification]
#[verifier::external_body]
pub struct ExDecoderDictionary<'a>(zstd::dict::DecoderDictionary<'a>);

/// The compression level of every frame.
pub const LEVEL: i32 = 3;

/// Why a text could not be stored or read back.
#[derive(Clone, Copy, PartialEq, Eq, Debug, Structural)]
pub enum CodecError {
    /// zstd refused to compress.
    Compress,
    /// The frame is damaged or longer than it may be.
    Decompress,
    /// The bytes are not UTF-8.
    NotUtf8,
    /// zstd cannot use the data as a dictionary.
    Dictionary,
}

/// The four bytes every zstd frame begins with.
pub open spec fn magic() -> Seq<u8> {
    seq![0x28u8, 0xb5u8, 0x2fu8, 0xfdu8]
}

/// Whether data begins like a zstd frame.
pub open spec fn is_frame(b: Seq<u8>) -> bool {
    magic().is_prefix_of(b)
}

/// What `zstd::bulk::compress` makes of data at a level.
pub uninterp spec fn compressed(data: Seq<u8>, level: i32) -> Option<Seq<u8>>;

/// What `zstd::bulk::decompress` makes of a frame with room for `cap` bytes.
pub uninterp spec fn decompressed(data: Seq<u8>, cap: nat) -> Option<Seq<u8>>;

/// The dictionary data that an encoder's dictionary holds.
pub uninterp spec fn encoder_contents(d: zstd::dict::EncoderDictionary<'static>) -> Seq<u8>;

/// The level that an encoder's dictionary was made with.
pub uninterp spec fn encoder_level(d: zstd::dict::EncoderDictionary<'static>) -> i32;

/// The dictionary data that a decoder's dictionary holds.
pub uninterp spec fn decoder_contents(d: zstd::dict::DecoderDictionary<'static>) -> Seq<u8>;

/// What `Compressor::compress` makes of data with a dictionary at a level.
pub uninterp spec fn compressed_with(dict: Seq<u8>, level: i32, data: Seq<u8>) -> Option<Seq<u8>>;

/// What `Decompressor::decompress` makes of a frame with a dictionary and room for `cap` bytes.
pub uninterp spec fn decompressed_with(dict: Seq<u8>, data: Seq<u8>, cap: nat) -> Option<Seq<u8>>;

/// `zstd::bulk::compress`: one frame, magic number first, that decompresses to the data given
/// room for it.
#[verifier::external_body]
fn zstd_compress(data: &[u8], level: i32) -> (r: Option<Vec<u8>>)
    ensures
        match r {
            Some(z) => compressed(data@, level) == Some(z@),
            None => compressed(data@, level) is None,
        },
        r matches Some(z) ==> is_frame(z@) && (forall|cap: nat|
            data@.len() <= cap ==> #[trigger] decompressed(z@, cap) == Some(data@)),
{
    zstd::bulk::compress(data, level).ok()
}

/// `zstd::bulk::decompress`: the outcome is a function of the frame and the room for it, which
/// it allocates at once.
#[verifier::external_body]
fn zstd_decompress(data: &[u8], cap: usize) -> (r: Option<Vec<u8>>)
    requires
        cap <= isize::MAX,
    ensures
        match r {
            Some(b) => decompressed(data@, cap as nat) == Some(b@),
            None => decompressed(data@, cap as nat) is None,
        },
{
    zstd::bulk::decompress(data, cap).ok()
}

/// `zstd::bulk::Compressor::compress` with a prepared dictionary: one frame, magic number first,
/// that decompresses with the same dictionary to the data given room for it.
#[verifier::external_body]
fn zstd_compress_with(data: &[u8], dict: &zstd::dict::EncoderDictionary<'static>) -> (r: Option<
    Vec<u8>,
>)
    ensures
        match r {
            Some(z) => compressed_with(encoder_contents(*dict), encoder_level(*dict), data@) == Some(
                z@,
            ),
            None => compressed_with(encoder_contents(*dict), encoder_level(*dict), data@) is None,
        },
        r matches Some(z) ==> is_frame(z@) && (forall|cap: nat|
            data@.len() <= cap ==> #[trigger] decompressed_with(encoder_contents(*dict), z@, cap)
                == Some(data@)),
{
    let mut c = zstd::bulk::Compressor::with_prepared_dictionary(dict).ok()?;
    c.compress(data).ok()
}

/// `zstd::bulk::Decompressor::decompress` with a prepared dictionary: the outcome is a function
/// of the dictionary, the frame and the room for it, which it allocates at once.
#[verifier::external_body]
fn zstd_decompress_with(
    data: &[u8],
    cap: usize,
    dict: &zstd::dict::DecoderDictionary<'static>,
) -> (r: Option<Vec<u8>>)
    requires
        cap <= isize::MAX,
    ensures
        match r {
            Some(b) => decompressed_with(decoder_contents(*dict), data@, cap as nat) == Some(b@),
            None => decompressed_with(decoder_contents(*dict), data@, cap as nat) is None,
        },
{
    let mut d = zstd::bulk::Decompressor::with_prepared_dictionary(dict).ok()?;
    d.decompress(data, cap).ok()
}

/// Whether zstd can use data as a dictionary for compression at a level.
pub uninterp spec fn encoder_takes(dict: Seq<u8>, level: i32) -> bool;

/// Whether zstd can use data as a dictionary for decompression.
pub uninterp spec fn decoder_takes(dict: Seq<u8>) -> bool;

/// `CDict::try_create` succeeds where zstd can use the data as a dictionary.
#[verifier::external_body]
fn try_encoder(dict: &[u8], level: i32) -> (r: bool)
    ensures
        r == encoder_takes(dict@, level),
{
    zstd::zstd_safe::CDict::try_create(dict, level).is_some()
}

/// `DDict::try_create` succeeds where zstd can use the data as a dictionary.
#[verifier::external_body]
fn try_decoder(dict: &[u8]) -> (r: bool)
    ensures
        r == decoder_takes(dict@),
{
    zstd::zstd_safe::DDict::try_create(dict).is_some()
}

/// `EncoderDictionary::copy` keeps the data and the level; it panics where zstd cannot use the
/// data as a dictionary.
#[verifier::external_body]
fn copy_encoder(dict: &[u8], level: i32) -> (r: zstd::dict::EncoderDictionary<'static>)
    requires
        encoder_takes(dict@, level),
    ensures
        encoder_contents(r) == dict@,
        encoder_level(r) == level,
{
    zstd::dict::EncoderDictionary::copy(dict, level)
}

/// `DecoderDictionary::copy` keeps the data; it panics where zstd cannot use the data as a
/// dictionary.
#[verifier::external_body]
fn copy_decoder(dict: &[u8]) -> (r: zstd::dict::DecoderDictionary<'static>)
    requires
        decoder_takes(dict@),
    ensures
        decoder_contents(r) == dict@,
{
    zstd::dict::DecoderDictionary::copy(dict)
}

/// Prepares a dictionary for compression at the level of every frame.
pub fn prepare_encoder(dict: &[u8]) -> (r: Result<
    zstd::dict::EncoderDictionary<'static>,
    CodecError,
>)
    ensures
        match r {
            Ok(d) => encoder_takes(dict@, LEVEL) && encoder_contents(d) == dict@ && encoder_level(d)
                == LEVEL,
            Err(e) => e == CodecError::Dictionary && !encoder_takes(dict@, LEVEL),
        },
{
    if try_encoder(dict, LEVEL) {
        Ok(copy_encoder(dict, LEVEL))
    } else {
        Err(CodecError::Dictionary)
    }
}

/// Prepares a dictionary for decompression.
pub fn prepare_decoder(dict: &[u8]) -> (r: Result<
    zstd::dict::DecoderDictionary<'static>,
    CodecError,
>)
    ensures
        match r {
            Ok(d) => decoder_takes(dict@) && decoder_contents(d) == dict@,
            Err(e) => e == CodecError::Dictionary && !decoder_takes(dict@),
        },
{
    if try_decoder(dict) {
        Ok(copy_decoder(dict))
    } else {
        Err(CodecError::Dictionary)
    }
}

/// How long a text may be whose frame has `n` bytes: 64 times as long, at least 64 KiB and at
/// most 32 MiB.
pub open spec fn text_limit(n: nat) -> nat {
    if n * 64 < 65536 {
        65536
    } else if n * 64 > 33554432 {
        33554432
    } else {
        n * 64
    }
}

/// How long a text may be whose frame has `compressed_len` bytes.
pub fn max_decompress_size(compressed_len: usize) -> (r: usize)
    ensures
        r == text_limit(compressed_len as nat),
{
    match compressed_len.checked_mul(64) {
        Some(n) => if n < 65536 {
            65536
        } else if n > 33554432 {
            33554432
        } else {
            n
        },
        None => 33554432,
    }
}

/// The text that decompressed data is.
pub open spec fn decoded_text(b: Option<Seq<u8>>) -> Result<Seq<char>, CodecError> {
    match b {
        None => Err(CodecError::Decompress),
        Some(b) => plain_text(b),
    }
}

/// The text that plain data is.
pub open spec fn plain_text(b: Seq<u8>) -> Result<Seq<char>, CodecError> {
    match utf8_text(b) {
        Some(s) => Ok(s),
        None => Err(CodecError::NotUtf8),
    }
}

/// The text that stored data is.
pub open spec fn decoded(b: Seq<u8>) -> Result<Seq<char>, CodecError> {
    if is_frame(b) {
        decoded_text(decompressed(b, text_limit(b.len())))
    } else {
        plain_text(b)
    }
}

/// The text that stored data is, with a dictionary.
pub open spec fn decoded_with(dict: Seq<u8>, b: Seq<u8>) -> Result<Seq<char>, CodecError> {
    if is_frame(b) {
        decoded_text(decompressed_with(dict, b, text_limit(b.len())))
    } else {
        plain_text(b)
    }
}

/// The character sequence of a result.
pub open spec fn res_text(r: Result<String, CodecError>) -> Result<Seq<char>, CodecError> {
    match r {
        Ok(s) => Ok(s@),
        Err(e) => Err(e),
    }
}

/// Compresses a text. What comes out reads back as the text, as long as the text is no longer
/// than `text_limit` of its frame.
pub fn encode_str(s: &str) -> (r: Result<Vec<u8>, CodecError>)
    ensures
        match r {
            Ok(z) => compressed(encode_utf8(s@), LEVEL) == Some(z@),
            Err(e) => e == CodecError::Compress && compressed(encode_utf8(s@), LEVEL) is None,
        },
        r matches Ok(z) ==> is_frame(z@) && (encode_utf8(s@).len() <= text_limit(z@.len())
            ==> decoded(z@) == Ok::<Seq<char>, CodecError>(s@)),
{
    match zstd_compress(s.as_bytes(), LEVEL) {
        Some(z) => {
            proof {
                utf8_round_trip(s@);
            }
            Ok(z)
        },
        None => Err(CodecError::Compress),
    }
}

/// Whether data begins like a zstd frame.
fn begins_like_frame(b: &[u8]) -> (r: bool)
    ensures
        r == is_frame(b@),
{
    if b.len() < 4 {
        return false;
    }
    let r: bool = b[0] == 0x28 && b[1] == 0xb5 && b[2] == 0x2f && b[3] == 0xfd;
    proof {
        let p = b@.subrange(0, 4);
        if r {
            assert(magic() =~= p);
        } else if magic() == p {
            assert(p[0] == magic()[0] && p[1] == magic()[1] && p[2] == magic()[2] && p[3]
                == magic()[3]);
        }
    }
    r
}

/// The text that decompressed data is.
pub fn text_of_bytes(b: Option<Vec<u8>>) -> (r: Result<String, CodecError>)
    ensures
        res_text(r) == decoded_text(
            match b {
                Some(v) => Some(v@),
                None => None,
            },
        ),
{
    match b {
        None => Err(CodecError::Decompress),
        Some(v) => match text_of(v) {
            Some(s) => Ok(s),
            None => Err(CodecError::NotUtf8),
        },
    }
}

/// The text that stored data is.
pub fn decode_blob_to_string(b: &[u8]) -> (r: Result<String, CodecError>)
    ensures
        res_text(r) == decoded(b@),
{
    if begins_like_frame(b) {
        let cap: usize = max_decompress_size(b.len());
        text_of_bytes(zstd_decompress(b, cap))
    } else {
        text_of_bytes(Some(slice_to_vec(b)))
    }
}

/// Compresses a text with a dictionary. What comes out reads back, with the same dictionary, as
/// the text, as long as the text is no longer than `text_limit` of its frame.
pub fn encode_str_with_dict(s: &str, dict: &zstd::dict::EncoderDictionary<'static>) -> (r: Result<
    Vec<u8>,
    CodecError,
>)
    ensures
        match r {
            Ok(z) => compressed_with(
                encoder_contents(*dict),
                encoder_level(*dict),
                encode_utf8(s@),
            ) == Some(z@),
            Err(e) => e == CodecError::Compress && compressed_with(
                encoder_contents(*dict),
                encoder_level(*dict),
                encode_utf8(s@),
            ) is None,
        },
        r matches Ok(z) ==> is_frame(z@) && (encode_utf8(s@).len() <= text_limit(z@.len())
            ==> decoded_with(encoder_contents(*dict), z@) == Ok::<Seq<char>, CodecError>(s@)),
{
    match zstd_compress_with(s.as_bytes(), dict) {
        Some(z) => {
            proof {
                utf8_round_trip(s@);
            }
            Ok(z)
        },
        None => Err(CodecError::Compress),
    }
}

/// The text that stored data is, with a dictionary.
pub fn decode_blob_to_string_with_dict(
    b: &[u8],
    dict: &zstd::dict::DecoderDictionary<'static>,
) -> (r: Result<String, CodecError>)
    ensures
        res_text(r) == decoded_with(decoder_contents(*dict), b@),
{
    if begins_like_frame(b) {
        let cap: usize = max_decompress_size(b.len());
        text_of_bytes(zstd_decompress_with(b, cap, dict))
    } else {
        text_of_bytes(Some(slice_to_vec(b)))
    }
}

/// Bytes that are no frame are the text that they encode, so that what was stored before anything was
/// compressed is still read; what is a frame is told by its first four bytes.
pub proof fn plain_bytes_are_their_text(s: Seq<char>, dict: Seq<u8>, b: Seq<u8>)
    ensures
        is_frame(b) <==> b.len() >= 4 && b[0] == 0x28 && b[1] == 0xb5 && b[2] == 0x2f && b[3]
            == 0xfd,
        !is_frame(encode_utf8(s)) ==> decoded(encode_utf8(s)) == Ok::<Seq<char>, CodecError>(s)
            && decoded_with(dict, encode_utf8(s)) == Ok::<Seq<char>, CodecError>(s),
        !is_frame(b) && utf8_text(b) is None ==> decoded(b) == Err::<Seq<char>, CodecError>(
            CodecError::NotUtf8,
        ),
{
    utf8_round_trip(s);
    if is_frame(b) {
        assert(b.subrange(0, 4) == magic());
        assert(b.subrange(0, 4)[0] == b[0]);
        assert(b.subrange(0, 4)[1] == b[1]);
        assert(b.subrange(0, 4)[2] == b[2]);
        assert(b.subrange(0, 4)[3] == b[3]);
    }
    if b.len() >= 4 && b[0] == 0x28 && b[1] == 0xb5 && b[2] == 0x2f && b[3] == 0xfd {
        assert(b.subrange(0, 4) =~= magic());
    }
}

/// What a frame decompresses to is the text, where it is within the limit and one.
pub proof fn frame_is_the_text_in_it(b: Seq<u8>, dict: Seq<u8>, data: Seq<u8>)
    requires
        is_frame(b),
    ensures
        decompressed(b, text_limit(b.len())) == Some(data) ==> (utf8_text(data) matches Some(s)
            ==> decoded(b) == Ok::<Seq<char>, CodecError>(s)),
        decompressed_with(dict, b, text_limit(b.len())) == Some(data) ==> (utf8_text(data) matches Some(
            s,
        ) ==> decoded_with(dict, b) == Ok::<Seq<char>, CodecError>(s)),
        decompressed(b, text_limit(b.len())) is None ==> decoded(b) == Err::<
            Seq<char>,
            CodecError,
        >(CodecError::Decompress),
{
}

/// The limit on what a frame may decompress to is 64 times its size, but never below 64 KiB nor above
/// 32 MiB.
pub proof fn limit_grows_with_the_frame(n: nat)
    ensures
        65536 <= text_limit(n) <= 33554432,
        65536 <= 64 * n <= 33554432 ==> text_limit(n) == 64 * n,
        64 * n <= 65536 ==> text_limit(n) == 65536,
        64 * n >= 33554432 ==> text_limit(n) == 33554432,
        text_limit(n) <= text_limit(n + 1),
{
}

} // verus!
