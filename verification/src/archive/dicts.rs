//! Shared dictionaries: one for each kind of stored text, trained on what is stored, with
//! everything compressed anew when it changes.

use crate::archive::compress::{
    compressed_with, decode_blob_to_string, decode_blob_to_string_with_dict, decoded, decoded_with,
    decoder_contents, decoder_takes, encode_str_with_dict, encoder_contents, encoder_level, encoder_takes,
    prepare_decoder, prepare_encoder, res_text, text_limit, CodecError, LEVEL,
};
use crate::text::{copy, same};
use crate::bytes::byte_views;
use vstd::prelude::*;
use vstd::utf8::encode_utf8;

verus! {

/// The kind of the rows of transcripts.
pub const KIND_RAW: &'static str = "raw";

/// The kind of the payloads of events.
pub const KIND_PAYLOAD: &'static str = "payload";

/// What training a dictionary took and gave.
#[derive(Clone, Copy, Debug)]
pub struct TrainedDict {
    pub blob_len: usize,
    pub sample_count: usize,
    pub sample_bytes: usize,
}

/// How far compressing anew has come.
#[derive(Clone, Copy, Debug)]
pub struct RecompressProgress {
    pub processed: usize,
    pub total: usize,
    pub bytes_before: u64,
    pub bytes_after: u64,
}

/// What compressing anew did.
#[derive(Clone, Copy, Debug)]
pub struct RecompressStats {
    pub processed: usize,
    pub bytes_before: u64,
    pub bytes_after: u64,
}

/// What training a dictionary and compressing anew did.
#[derive(Clone, Copy, Debug)]
pub struct RetrainStats {
    pub trained: TrainedDict,
    pub recompress: RecompressStats,
}

/// A stored dictionary, for display.
pub struct DictRow {
    pub kind: String,
    pub blob_len: i64,
    pub capacity: Option<i64>,
    pub sample_count: Option<i64>,
    pub sample_bytes: Option<i64>,
    pub created_at: i64,
}

/// Why a dictionary could not be trained or used.
#[derive(Clone, Copy, PartialEq, Eq, Debug, Structural)]
pub enum DictError {
    /// No dictionary is kept for this kind.
    UnknownKind,
    /// There is nothing to train on.
    NoSamples,
    /// zstd could not train.
    Train,
    /// A stored text could not be read or compressed.
    Codec(CodecError),
}

/// The table and the column that hold a kind's texts.
pub open spec fn table_of(kind: Seq<char>) -> Option<(Seq<char>, Seq<char>)> {
    if kind == "raw"@ {
        Some(("messages"@, "raw_zstd"@))
    } else if kind == "payload"@ {
        Some(("events"@, "payload_zstd"@))
    } else {
        None
    }
}

/// The table and the column that hold a kind's texts.
pub fn table_for(kind: &str) -> (r: Result<(String, String), DictError>)
    ensures
        match r {
            Ok(p) => table_of(kind@) == Some((p.0@, p.1@)),
            Err(e) => e == DictError::UnknownKind && table_of(kind@) is None,
        },
{
    if same(kind, "raw") {
        Ok((copy("messages"), copy("raw_zstd")))
    } else if same(kind, "payload") {
        Ok((copy("events"), copy("payload_zstd")))
    } else {
        Err(DictError::UnknownKind)
    }
}

// ---------------------------------------------------------------- prepared dictionaries

/// A dictionary kept ready for a kind.
pub struct Prepared {
    pub kind: String,
    pub encoder: zstd::dict::EncoderDictionary<'static>,
    pub decoder: zstd::dict::DecoderDictionary<'static>,
}

/// Whether a dictionary is kept ready for a kind.
pub open spec fn is_cached(cache: Seq<Prepared>, kind: Seq<char>) -> bool {
    exists|i: int| 0 <= i < cache.len() && (#[trigger] cache[i]).kind@ == kind
}

/// The dictionaries kept ready, but for one kind.
pub open spec fn without(cache: Seq<Prepared>, kind: Seq<char>) -> Seq<Prepared>
    decreases cache.len(),
{
    if cache.len() == 0 {
        seq![]
    } else if cache.last().kind@ == kind {
        without(cache.drop_last(), kind)
    } else {
        without(cache.drop_last(), kind).push(cache.last())
    }
}

/// Drops what is kept ready for a kind, so that its new dictionary is loaded next time.
pub fn invalidate_cache(cache: Vec<Prepared>, kind: &str) -> (r: Vec<Prepared>)
    ensures
        r@ == without(cache@, kind@),
        !is_cached(r@, kind@),
{
    let ghost all = cache@;
    let mut rest: Vec<Prepared> = crate::order::reversed(cache);
    let mut out: Vec<Prepared> = Vec::new();
    let ghost mut n: int = 0;
    assert(all.skip(0) =~= all);
    while rest.len() > 0
        invariant
            0 <= n <= all.len(),
            rest@ == all.skip(n).reverse(),
            out@ == without(all.take(n), kind@),
            !is_cached(out@, kind@),
        decreases rest@.len(),
    {
        if let Some(p) = rest.pop() {
            proof {
                assert(p == all[n]);
                assert(all.take(n + 1).drop_last() =~= all.take(n));
                assert(all.take(n + 1).last() == p);
                assert(rest@ =~= all.skip(n + 1).reverse());
                n = n + 1;
            }
            let ghost before = out@;
            if !same(p.kind.as_str(), kind) {
                out.push(p);
                proof {
                    if is_cached(out@, kind@) {
                        let i = choose|i: int|
                            0 <= i < out@.len() && (#[trigger] out@[i]).kind@ == kind@;
                        assert(before[i].kind@ == kind@);
                    }
                }
            }
        }
    }
    assert(all.take(n) =~= all);
    out
}

/// Prepares the dictionary stored for a kind.
pub fn prepare(kind: &str, blob: &[u8]) -> (r: Result<Prepared, DictError>)
    ensures
        match r {
            Ok(p) => {
                &&& encoder_takes(blob@, LEVEL)
                &&& decoder_takes(blob@)
                &&& p.kind@ == kind@
                &&& encoder_contents(p.encoder) == blob@
                &&& encoder_level(p.encoder) == LEVEL
                &&& decoder_contents(p.decoder) == blob@
            },
            Err(e) => e == DictError::Codec(CodecError::Dictionary) && !(encoder_takes(blob@, LEVEL)
                && decoder_takes(blob@)),
        },
{
    match prepare_encoder(blob) {
        Ok(encoder) => match prepare_decoder(blob) {
            Ok(decoder) => Ok(Prepared { kind: copy(kind), encoder, decoder }),
            Err(e) => Err(DictError::Codec(e)),
        },
        Err(e) => Err(DictError::Codec(e)),
    }
}

// ---------------------------------------------------------------- training

/// The dictionary that `zstd::dict::from_samples` trains on samples, at most `capacity` bytes.
pub uninterp spec fn trained(samples: Seq<Seq<u8>>, capacity: nat) -> Option<Seq<u8>>;

/// `zstd::dict::from_samples`: the outcome is a function of the samples and the size asked for,
/// which it allocates at once.
#[verifier::external_body]
fn zstd_train(samples: &Vec<Vec<u8>>, capacity: usize) -> (r: Option<Vec<u8>>)
    requires
        capacity <= isize::MAX,
    ensures
        match r {
            Some(d) => trained(byte_views(samples@), capacity as nat) == Some(d@),
            None => trained(byte_views(samples@), capacity as nat) is None,
        },
{
    zstd::dict::from_samples(samples, capacity).ok()
}

/// How many bytes the samples hold together.
pub open spec fn total_bytes(v: Seq<Vec<u8>>) -> nat
    decreases v.len(),
{
    if v.len() == 0 {
        0
    } else {
        total_bytes(v.drop_last()) + v.last()@.len()
    }
}

/// A trained dictionary, ready to compress with.
pub struct Trained {
    pub blob: Vec<u8>,
    pub encoder: zstd::dict::EncoderDictionary<'static>,
    pub summary: TrainedDict,
}

/// Trains a dictionary on samples.
pub fn train(samples: &Vec<Vec<u8>>, capacity: usize) -> (r: Result<Trained, DictError>)
    requires
        capacity <= isize::MAX,
        total_bytes(samples@) <= usize::MAX,
    ensures
        ({
            let t = trained(byte_views(samples@), capacity as nat);
            match r {
                Ok(d) => {
                    &&& samples@.len() > 0
                    &&& t == Some(d.blob@)
                    &&& encoder_takes(d.blob@, LEVEL)
                    &&& encoder_contents(d.encoder) == d.blob@
                    &&& encoder_level(d.encoder) == LEVEL
                    &&& d.summary.blob_len == d.blob@.len()
                    &&& d.summary.sample_count == samples@.len()
                    &&& d.summary.sample_bytes == total_bytes(samples@)
                },
                Err(e) => {
                    ||| e == DictError::NoSamples && samples@.len() == 0
                    ||| e == DictError::Train && samples@.len() > 0 && t is None
                    ||| e == DictError::Codec(CodecError::Dictionary) && samples@.len() > 0 && t
                        is Some && !encoder_takes(t->0, LEVEL)
                },
            }
        }),
{
    if samples.len() == 0 {
        return Err(DictError::NoSamples);
    }
    let blob: Vec<u8> = match zstd_train(samples, capacity) {
        Some(b) => b,
        None => {
            return Err(DictError::Train);
        },
    };
    let mut bytes: usize = 0;
    let mut i: usize = 0;
    while i < samples.len()
        invariant
            i <= samples@.len(),
            bytes == total_bytes(samples@.take(i as int)),
            total_bytes(samples@) <= usize::MAX,
        decreases samples@.len() - i,
    {
        proof {
            assert(samples@.take(i + 1).drop_last() =~= samples@.take(i as int));
            lemma_total_bytes(samples@, i + 1);
        }
        bytes = bytes + samples[i].len();
        i += 1;
    }
    assert(samples@.take(samples@.len() as int) =~= samples@);
    match prepare_encoder(blob.as_slice()) {
        Ok(encoder) => {
            let summary: TrainedDict = TrainedDict {
                blob_len: blob.len(),
                sample_count: samples.len(),
                sample_bytes: bytes,
            };
            Ok(Trained { blob, encoder, summary })
        },
        Err(e) => Err(DictError::Codec(e)),
    }
}

proof fn lemma_total_bytes(v: Seq<Vec<u8>>, n: int)
    requires
        0 <= n <= v.len(),
    ensures
        total_bytes(v.take(n)) <= total_bytes(v),
    decreases v.len(),
{
    if n < v.len() {
        lemma_total_bytes(v.drop_last(), n);
        assert(v.drop_last().take(n) =~= v.take(n));
    } else {
        assert(v.take(n) =~= v);
    }
}

// ---------------------------------------------------------------- compressing anew

/// What a stored text reads as, with the dictionary it was compressed with, if any.
pub open spec fn read_as(dict: Option<Seq<u8>>, z: Seq<u8>) -> Result<Seq<char>, CodecError> {
    match dict {
        Some(d) => decoded_with(d, z),
        None => decoded(z),
    }
}

/// The data of an optional dictionary.
pub open spec fn decoder_data(dict: Option<&zstd::dict::DecoderDictionary<'static>>) -> Option<
    Seq<u8>,
> {
    match dict {
        Some(d) => Some(decoder_contents(*d)),
        None => None,
    }
}

/// What a stored text reads as.
pub fn read_stored(z: &[u8], dict: Option<&zstd::dict::DecoderDictionary<'static>>) -> (r: Result<
    String,
    CodecError,
>)
    ensures
        res_text(r) == read_as(decoder_data(dict), z@),
{
    match dict {
        Some(d) => decode_blob_to_string_with_dict(z, d),
        None => decode_blob_to_string(z),
    }
}

/// The frame that a stored text becomes with a new dictionary.
pub open spec fn anew(old: Option<Seq<u8>>, new: Seq<u8>, level: i32, z: Seq<u8>) -> Result<
    Seq<u8>,
    CodecError,
> {
    match read_as(old, z) {
        Err(e) => Err(e),
        Ok(s) => match compressed_with(new, level, encode_utf8(s)) {
            Some(y) => Ok(y),
            None => Err(CodecError::Compress),
        },
    }
}

/// Whether what `z` reads as with the old dictionary, `y` reads as with the new one, as long as
/// the text is no longer than the limit of its new frame.
pub open spec fn still_reads(old: Option<Seq<u8>>, new: Seq<u8>, z: Seq<u8>, y: Seq<u8>) -> bool {
    read_as(old, z) is Ok && (encode_utf8(read_as(old, z)->Ok_0).len() <= text_limit(y.len())
        ==> read_as(Some(new), y) == read_as(old, z))
}

/// Compresses a stored text anew. It still reads as the same text, with the new dictionary, as
/// long as it is no longer than the limit of its new frame.
pub fn recompress(
    z: &[u8],
    old: Option<&zstd::dict::DecoderDictionary<'static>>,
    new: &zstd::dict::EncoderDictionary<'static>,
) -> (r: Result<Vec<u8>, CodecError>)
    ensures
        match r {
            Ok(y) => anew(decoder_data(old), encoder_contents(*new), encoder_level(*new), z@)
                == Ok::<Seq<u8>, CodecError>(y@),
            Err(e) => anew(decoder_data(old), encoder_contents(*new), encoder_level(*new), z@)
                == Err::<Seq<u8>, CodecError>(e),
        },
        r matches Ok(y) ==> still_reads(decoder_data(old), encoder_contents(*new), z@, y@),
{
    match read_stored(z, old) {
        Ok(s) => encode_str_with_dict(s.as_str(), new),
        Err(e) => Err(e),
    }
}

/// A stored text and its number.
pub struct Stored {
    pub id: i64,
    pub blob: Vec<u8>,
}

/// The sizes of the first `n` blobs together.
pub open spec fn blob_bytes(rows: Seq<Stored>, n: int) -> nat
    decreases n,
{
    if n <= 0 {
        0
    } else {
        blob_bytes(rows, n - 1) + rows[n - 1].blob@.len()
    }
}

/// The batch compressed anew, and the counts with it added.
pub struct Recompressed {
    pub rows: Vec<Stored>,
    pub stats: RecompressStats,
}

proof fn lemma_blob_bytes(rows: Seq<Stored>, n: int)
    requires
        0 <= n <= rows.len(),
    ensures
        blob_bytes(rows, n) <= blob_bytes(rows, rows.len() as int),
    decreases rows.len() - n,
{
    if n < rows.len() {
        lemma_blob_bytes_step(rows, n, rows.len() as int);
    }
}

proof fn lemma_blob_bytes_step(rows: Seq<Stored>, a: int, b: int)
    requires
        a <= b,
    ensures
        blob_bytes(rows, a) <= blob_bytes(rows, b),
    decreases b - a,
{
    if a < b {
        lemma_blob_bytes_step(rows, a, b - 1);
    }
}

/// Compresses a batch of stored texts anew, with the counts of the batches before it. The first
/// text that cannot be read or compressed stops it.
pub fn recompress_all_with_new_dict(
    rows: &Vec<Stored>,
    old: Option<&zstd::dict::DecoderDictionary<'static>>,
    new: &zstd::dict::EncoderDictionary<'static>,
    before: RecompressStats,
) -> (r: Result<Recompressed, CodecError>)
    requires
        before.processed + rows@.len() <= usize::MAX,
        before.bytes_before + blob_bytes(rows@, rows@.len() as int) <= u64::MAX,
    ensures
        ({
            let d = decoder_data(old);
            let e = encoder_contents(*new);
            let l = encoder_level(*new);
            match r {
                Ok(b) => {
                    &&& b.rows@.len() == rows@.len()
                    &&& forall|i: int|
                        0 <= i < rows@.len() ==> (#[trigger] b.rows@[i]).id == rows@[i].id && anew(
                            d,
                            e,
                            l,
                            rows@[i].blob@,
                        ) == Ok::<Seq<u8>, CodecError>(b.rows@[i].blob@) && still_reads(
                            d,
                            e,
                            rows@[i].blob@,
                            b.rows@[i].blob@,
                        )
                    &&& b.stats.processed == before.processed + rows@.len()
                    &&& b.stats.bytes_before == before.bytes_before + blob_bytes(
                        rows@,
                        rows@.len() as int,
                    )
                    &&& b.stats.bytes_after == if before.bytes_after + blob_bytes(
                        b.rows@,
                        rows@.len() as int,
                    ) > u64::MAX {
                        u64::MAX as int
                    } else {
                        before.bytes_after + blob_bytes(b.rows@, rows@.len() as int)
                    }
                },
                Err(x) => exists|i: int|
                    0 <= i < rows@.len() && anew(d, e, l, (#[trigger] rows@[i]).blob@) == Err::<
                        Seq<u8>,
                        CodecError,
                    >(x) && (forall|k: int|
                        0 <= k < i ==> anew(d, e, l, (#[trigger] rows@[k]).blob@) is Ok),
            }
        }),
{
    let mut out: Vec<Stored> = Vec::new();
    let mut bytes_before: u64 = before.bytes_before;
    let mut bytes_after: u64 = before.bytes_after;
    let mut i: usize = 0;
    while i < rows.len()
        invariant
            i <= rows@.len(),
            out@.len() == i,
            before.bytes_before + blob_bytes(rows@, rows@.len() as int) <= u64::MAX,
            bytes_before == before.bytes_before + blob_bytes(rows@, i as int),
            bytes_after == if before.bytes_after + blob_bytes(out@, i as int) > u64::MAX {
                u64::MAX as int
            } else {
                before.bytes_after + blob_bytes(out@, i as int)
            },
            forall|k: int|
                0 <= k < i ==> (#[trigger] out@[k]).id == rows@[k].id && anew(
                    decoder_data(old),
                    encoder_contents(*new),
                    encoder_level(*new),
                    rows@[k].blob@,
                ) == Ok::<Seq<u8>, CodecError>(out@[k].blob@) && still_reads(
                    decoder_data(old),
                    encoder_contents(*new),
                    rows@[k].blob@,
                    out@[k].blob@,
                ),
        decreases rows@.len() - i,
    {
        proof {
            lemma_blob_bytes(rows@, i + 1);
        }
        match recompress(rows[i].blob.as_slice(), old, new) {
            Ok(y) => {
                bytes_before = bytes_before + rows[i].blob.len() as u64;
                bytes_after = bytes_after.saturating_add(y.len() as u64);
                let ghost done = out@;
                out.push(Stored { id: rows[i].id, blob: y });
                proof {
                    lemma_blob_prefix(done, out@, i as int);
                }
            },
            Err(e) => {
                assert forall|k: int| 0 <= k < i implies anew(
                    decoder_data(old),
                    encoder_contents(*new),
                    encoder_level(*new),
                    (#[trigger] rows@[k]).blob@,
                ) is Ok by {
                    assert(out@[k].id == rows@[k].id);
                }
                return Err(e);
            },
        }
        i += 1;
    }
    let stats: RecompressStats = RecompressStats {
        processed: before.processed + rows.len(),
        bytes_before,
        bytes_after,
    };
    Ok(Recompressed { rows: out, stats })
}

proof fn lemma_blob_prefix(a: Seq<Stored>, b: Seq<Stored>, n: int)
    requires
        0 <= n <= a.len() <= b.len(),
        forall|k: int| 0 <= k < n ==> #[trigger] a[k] == b[k],
    ensures
        blob_bytes(a, n) == blob_bytes(b, n),
    decreases n,
{
    if n > 0 {
        lemma_blob_prefix(a, b, n - 1);
        assert(a[n - 1] == b[n - 1]);
    }
}

/// A kind's new dictionary, and its stored texts compressed with it.
pub struct Retrained {
    /// The table and the column that hold the texts.
    pub table: String,
    pub column: String,
    pub blob: Vec<u8>,
    pub rows: Vec<Stored>,
    pub stats: RetrainStats,
}

/// Trains a kind's dictionary and compresses the kind's stored texts anew: each is read with the
/// old dictionary, if there is one. The dictionary is stored after the texts.
pub fn retrain_kind(
    kind: &str,
    samples: &Vec<Vec<u8>>,
    capacity: usize,
    old: Option<&zstd::dict::DecoderDictionary<'static>>,
    rows: &Vec<Stored>,
) -> (r: Result<Retrained, DictError>)
    requires
        capacity <= isize::MAX,
        total_bytes(samples@) <= usize::MAX,
        blob_bytes(rows@, rows@.len() as int) <= u64::MAX,
    ensures
        ({
            let t = trained(byte_views(samples@), capacity as nat);
            let d = decoder_data(old);
            match r {
                Ok(n) => {
                    &&& samples@.len() > 0
                    &&& table_of(kind@) == Some((n.table@, n.column@))
                    &&& t == Some(n.blob@)
                    &&& encoder_takes(n.blob@, LEVEL)
                    &&& n.rows@.len() == rows@.len()
                    &&& forall|i: int|
                        0 <= i < rows@.len() ==> (#[trigger] n.rows@[i]).id == rows@[i].id && anew(
                            d,
                            n.blob@,
                            LEVEL,
                            rows@[i].blob@,
                        ) == Ok::<Seq<u8>, CodecError>(n.rows@[i].blob@) && still_reads(
                            d,
                            n.blob@,
                            rows@[i].blob@,
                            n.rows@[i].blob@,
                        )
                    &&& n.stats.trained.blob_len == n.blob@.len()
                    &&& n.stats.trained.sample_count == samples@.len()
                    &&& n.stats.trained.sample_bytes == total_bytes(samples@)
                    &&& n.stats.recompress.processed == rows@.len()
                    &&& n.stats.recompress.bytes_before == blob_bytes(rows@, rows@.len() as int)
                    &&& n.stats.recompress.bytes_after == if blob_bytes(
                        n.rows@,
                        rows@.len() as int,
                    ) > u64::MAX {
                        u64::MAX as nat
                    } else {
                        blob_bytes(n.rows@, rows@.len() as int)
                    }
                },
                Err(DictError::NoSamples) => samples@.len() == 0,
                Err(DictError::Train) => samples@.len() > 0 && t is None,
                Err(DictError::UnknownKind) => samples@.len() > 0 && t is Some && encoder_takes(
                    t->0,
                    LEVEL,
                ) && table_of(kind@) is None,
                Err(DictError::Codec(x)) => samples@.len() > 0 && t is Some && if encoder_takes(
                    t->0,
                    LEVEL,
                ) {
                    table_of(kind@) is Some && exists|i: int|
                        0 <= i < rows@.len() && anew(d, t->0, LEVEL, (#[trigger] rows@[i]).blob@)
                            == Err::<Seq<u8>, CodecError>(x) && (forall|k: int|
                            0 <= k < i ==> anew(d, t->0, LEVEL, (#[trigger] rows@[k]).blob@) is Ok)
                } else {
                    x == CodecError::Dictionary
                },
            }
        }),
{
    let new: Trained = match train(samples, capacity) {
        Ok(t) => t,
        Err(e) => {
            return Err(e);
        },
    };
    let (table, column): (String, String) = match table_for(kind) {
        Ok(p) => p,
        Err(e) => {
            return Err(e);
        },
    };
    let n: usize = rows.len();
    assert(n == rows@.len());
    let none: RecompressStats = RecompressStats { processed: 0, bytes_before: 0, bytes_after: 0 };
    match recompress_all_with_new_dict(rows, old, &new.encoder, none) {
        Ok(b) => Ok(
            Retrained {
                table,
                column,
                blob: new.blob,
                rows: b.rows,
                stats: RetrainStats { trained: new.summary, recompress: b.stats },
            },
        ),
        Err(e) => Err(DictError::Codec(e)),
    }
}

/// The texts that can be read, as samples to train on.
pub open spec fn readable(dict: Option<Seq<u8>>, v: Seq<Seq<u8>>) -> Seq<Seq<u8>>
    decreases v.len(),
{
    if v.len() == 0 {
        seq![]
    } else {
        match read_as(dict, v.last()) {
            Ok(s) => readable(dict, v.drop_last()).push(encode_utf8(s)),
            Err(_) => readable(dict, v.drop_last()),
        }
    }
}

/// The texts of stored frames, as samples to train on; what cannot be read is left out.
pub fn collect_training_samples(
    blobs: &Vec<Vec<u8>>,
    dict: Option<&zstd::dict::DecoderDictionary<'static>>,
) -> (r: Vec<Vec<u8>>)
    ensures
        byte_views(r@) == readable(decoder_data(dict), byte_views(blobs@)),
{
    let mut out: Vec<Vec<u8>> = Vec::new();
    let mut i: usize = 0;
    while i < blobs.len()
        invariant
            i <= blobs@.len(),
            byte_views(out@) == readable(decoder_data(dict), byte_views(blobs@).take(i as int)),
        decreases blobs@.len() - i,
    {
        proof {
            let t = byte_views(blobs@).take(i + 1);
            assert(t.drop_last() =~= byte_views(blobs@).take(i as int));
            assert(t.last() == blobs@[i as int]@);
        }
        let ghost before = out@;
        if let Ok(s) = read_stored(blobs[i].as_slice(), dict) {
            let b: Vec<u8> = s.as_str().as_bytes_vec();
            out.push(b);
            assert(byte_views(out@) =~= byte_views(before).push(b@));
        }
        i += 1;
    }
    assert(byte_views(blobs@).take(blobs@.len() as int) =~= byte_views(blobs@));
    out
}

// ---------------------------------------------------------------- what a dictionary promises

/// Each kind of text lies in a table of its own: transcript rows with the messages, payloads with the
/// events; there is no other kind.
pub proof fn each_kind_has_its_table(kind: Seq<char>)
    ensures
        table_of("raw"@) == Some(("messages"@, "raw_zstd"@)),
        table_of("payload"@) == Some(("events"@, "payload_zstd"@)),
        kind != "raw"@ && kind != "payload"@ ==> table_of(kind) is None,
{
    reveal_strlit("raw");
    reveal_strlit("payload");
    assert("raw"@.len() != "payload"@.len());
}

/// A stored text is read with the dictionary in use, and without one where there is none; what is
/// compressed anew is the text that was read, by the new dictionary.
pub proof fn text_is_compressed_anew(
    old: Seq<u8>,
    new: Seq<u8>,
    level: i32,
    z: Seq<u8>,
    s: Seq<char>,
)
    ensures
        read_as(None, z) == decoded(z),
        read_as(Some(old), z) == decoded_with(old, z),
        decoded_with(old, z) == Ok::<Seq<char>, CodecError>(s) ==> match compressed_with(
            new,
            level,
            encode_utf8(s),
        ) {
            Some(y) => anew(Some(old), new, level, z) == Ok::<Seq<u8>, CodecError>(y),
            None => anew(Some(old), new, level, z) == Err::<Seq<u8>, CodecError>(
                CodecError::Compress,
            ),
        },
        decoded(z) == Ok::<Seq<char>, CodecError>(s) ==> match compressed_with(
            new,
            level,
            encode_utf8(s),
        ) {
            Some(y) => anew(None, new, level, z) == Ok::<Seq<u8>, CodecError>(y),
            None => anew(None, new, level, z) == Err::<Seq<u8>, CodecError>(CodecError::Compress),
        },
        decoded_with(old, z) matches Err(e) ==> anew(Some(old), new, level, z) == Err::<
            Seq<u8>,
            CodecError,
        >(e),
{
}

/// What is trained on is the text of every row that can be read, in order; a row that cannot be read
/// is left out and stops nothing.
pub proof fn samples_are_the_readable_texts(
    dict: Option<Seq<u8>>,
    a: Seq<Seq<u8>>,
    z: Seq<u8>,
    s: Seq<char>,
)
    ensures
        read_as(dict, z) == Ok::<Seq<char>, CodecError>(s) ==> readable(dict, a.push(z)) == readable(
            dict,
            a,
        ).push(encode_utf8(s)),
        read_as(dict, z) is Err ==> readable(dict, a.push(z)) == readable(dict, a),
        readable(dict, Seq::empty()) == Seq::<Seq<u8>>::empty(),
{
    assert(a.push(z).drop_last() =~= a);
}

/// Dropping a kind from the cache drops all of it and nothing else.
pub proof fn dropping_a_kind_keeps_the_others(cache: Seq<Prepared>, kind: Seq<char>, p: Prepared)
    ensures
        without(cache, kind).contains(p) <==> cache.contains(p) && p.kind@ != kind,
    decreases cache.len(),
{
    if cache.len() > 0 {
        let d = cache.drop_last();
        dropping_a_kind_keeps_the_others(d, kind, p);
        let w = without(cache, kind);
        let v = without(d, kind);
        if cache.contains(p) {
            let i = choose|i: int| 0 <= i < cache.len() && cache[i] == p;
            if i < d.len() {
                assert(d[i] == p);
            }
        }
        if d.contains(p) {
            let i = choose|i: int| 0 <= i < d.len() && d[i] == p;
            assert(cache[i] == p);
        }
        if v.contains(p) {
            let i = choose|i: int| 0 <= i < v.len() && v[i] == p;
            assert(w[i] == p);
        }
        if w.len() > v.len() {
            assert(w[w.len() - 1] == cache.last());
            assert(cache[cache.len() - 1] == cache.last());
        }
        if w.contains(p) {
            let i = choose|i: int| 0 <= i < w.len() && w[i] == p;
            if i < v.len() {
                assert(v[i] == p);
            }
        }
    }
}

/// The bytes of a list are those of each of its members.
pub proof fn bytes_are_counted_one_by_one(v: Seq<Vec<u8>>, b: Vec<u8>, rows: Seq<Stored>, n: int)
    requires
        0 <= n < rows.len(),
    ensures
        total_bytes(v.push(b)) == total_bytes(v) + b@.len(),
        total_bytes(Seq::empty()) == 0,
        blob_bytes(rows, n + 1) == blob_bytes(rows, n) + rows[n].blob@.len(),
        blob_bytes(rows, 0) == 0,
{
    assert(v.push(b).drop_last() =~= v);
}

} // verus!
