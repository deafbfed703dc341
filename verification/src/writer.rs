//! The digest-and-compress write path: a writer that accumulates the
//! uncompressed logical stream (header, then payload) and, once closed,
//! yields both the compressed record bytes for the sink and the 20-byte
//! digest of the uncompressed stream; and the matching raw read path.

use vstd::prelude::*;

use crate::codec::{
    decode_record, decoded_view, encode_header, lemma_record_round_trip, spec_decode_record,
    spec_record, StoreError,
};
use crate::kind::Kind;

verus! {

/// The SHA-1 digest of a byte sequence. The digest of given bytes is the
/// same in every process and on every machine.
pub uninterp spec fn sha1_of(b: Seq<u8>) -> Seq<u8>;

/// The zlib compression of a byte sequence at the default level. For a fixed
/// compressor the output is a function of the input bytes alone.
pub uninterp spec fn zlib_deflate(b: Seq<u8>) -> Seq<u8>;

/// The zlib decompression of a byte sequence: the decompressed bytes, or
/// nothing when the bytes are not a well-formed compressed stream.
pub uninterp spec fn zlib_inflate(b: Seq<u8>) -> Option<Seq<u8>>;

/// Relies on sha1::Sha1 (through the Digest trait): the 20-byte SHA-1 digest
/// of the input bytes, a function of those bytes alone.
#[verifier::external_body]
fn sha1_bytes(data: &[u8]) -> (r: [u8; 20])
    ensures
        r@ == sha1_of(data@),
{
    let digest = <sha1::Sha1 as sha1::Digest>::digest(data);
    digest.into()
}

/// Relies on flate2's ZlibEncoder at the default compression level: the
/// output is a function of the input bytes alone, and ZlibDecoder inverts it.
#[verifier::external_body]
fn compress_bytes(data: &[u8]) -> (r: Vec<u8>)
    ensures
        r@ == zlib_deflate(data@),
        zlib_inflate(r@) == Some(data@),
{
    let mut enc = flate2::write::ZlibEncoder::new(Vec::new(), flate2::Compression::default());
    std::io::Write::write_all(&mut enc, data).expect("an in-memory sink accepts every byte");
    enc.finish().expect("an in-memory zlib stream always finishes")
}

/// Relies on flate2's ZlibDecoder: decompression of given bytes always
/// yields the same result, and fails exactly on malformed streams.
#[verifier::external_body]
fn decompress_bytes(data: &[u8]) -> (r: Option<Vec<u8>>)
    ensures
        match r {
            Some(v) => zlib_inflate(data@) == Some(v@),
            None => zlib_inflate(data@) is None,
        },
{
    let mut out = Vec::new();
    let mut dec = flate2::read::ZlibDecoder::new(data);
    match std::io::Read::read_to_end(&mut dec, &mut out) {
        Ok(_) => Some(out),
        Err(_) => None,
    }
}

/// Appends every byte of `src` to `dst`.
pub fn append_bytes(dst: &mut Vec<u8>, src: &[u8])
    ensures
        final(dst)@ == old(dst)@ + src@,
{
    let mut i: usize = 0;
    while i < src.len()
        invariant
            0 <= i <= src@.len(),
            dst@ =~= old(dst)@ + src@.take(i as int),
        decreases src@.len() - i,
    {
        dst.push(src[i]);
        proof {
            assert(dst@ =~= old(dst)@ + src@.take(i + 1));
        }
        i += 1;
    }
    proof {
        assert(dst@ =~= old(dst)@ + src@);
    }
}

/// A writer wrapping a downstream byte sink. Every byte written is part of
/// the uncompressed logical stream; bytes the writer did not accept are never
/// part of it. Closing the writer compresses the accepted stream for the
/// sink and reads the digest out of the hash accumulator.
pub struct HashWriter {
    fed: Vec<u8>,
}

impl View for HashWriter {
    type V = Seq<u8>;

    /// The uncompressed bytes accepted so far.
    closed spec fn view(&self) -> Seq<u8> {
        self.fed@
    }
}

impl HashWriter {
    /// A writer that has accepted nothing yet.
    pub fn new() -> (r: HashWriter)
        ensures
            r@ == Seq::<u8>::empty(),
    {
        HashWriter { fed: Vec::new() }
    }

    /// Accepts every byte of `buf` into the logical stream. The digest
    /// reflects exactly the accepted bytes, in order.
    pub fn write(&mut self, buf: &[u8])
        ensures
            final(self)@ == old(self)@ + buf@,
    {
        append_bytes(&mut self.fed, buf);
    }

    /// Forwards a flush to the sink. The logical stream, and so the digest,
    /// is unchanged: only `write` feeds the hash accumulator.
    pub fn flush(&mut self)
        ensures
            final(self)@ == old(self)@,
    {
    }

    /// Finalizes the stream: the compressed bytes destined for the sink, and
    /// the 20-byte digest of the uncompressed stream.
    pub fn finish(self) -> (r: (Vec<u8>, [u8; 20]))
        ensures
            r.0@ == zlib_deflate(self@),
            r.1@ == sha1_of(self@),
            zlib_inflate(zlib_deflate(self@)) == Some(self@),
    {
        let compressed = compress_bytes(self.fed.as_slice());
        let digest = sha1_bytes(self.fed.as_slice());
        (compressed, digest)
    }
}

/// Streams `header || payload` through a digest-and-compress writer into
/// `sink` and returns the digest of the uncompressed stream. The header
/// carries the declared `size` as given: the store does not check it against
/// the payload actually supplied, so a mismatched declaration produces a
/// record whose header lies about its size.
pub fn write_to_sink(kind: Kind, size: u64, payload: &[u8], sink: &mut Vec<u8>) -> (digest: [u8;
    20])
    ensures
        final(sink)@ == old(sink)@ + zlib_deflate(spec_record(kind, size, payload@)),
        digest@ == sha1_of(spec_record(kind, size, payload@)),
        zlib_inflate(zlib_deflate(spec_record(kind, size, payload@))) == Some(
            spec_record(kind, size, payload@),
        ),
{
    let mut w = HashWriter::new();
    let header = encode_header(kind, size);
    w.write(header.as_slice());
    w.write(payload);
    proof {
        assert(w@ =~= spec_record(kind, size, payload@));
    }
    let (compressed, digest) = w.finish();
    append_bytes(sink, compressed.as_slice());
    digest
}

/// What reading raw record bytes yields: decompression, then record
/// decoding; a stream the decompressor rejects is corrupt.
pub open spec fn spec_read_bytes(b: Seq<u8>) -> Result<(Kind, u64, Seq<u8>), StoreError> {
    match zlib_inflate(b) {
        None => Err(StoreError::CorruptStream),
        Some(v) => spec_decode_record(v),
    }
}

/// Reads a record back from raw compressed bytes, bypassing storage:
/// decompresses them and parses the header, returning the kind, the declared
/// size, and the payload bounded to that size.
pub fn read_record(b: &[u8]) -> (r: Result<(Kind, u64, Vec<u8>), StoreError>)
    ensures
        decoded_view(r) == spec_read_bytes(b@),
{
    match decompress_bytes(b) {
        None => Err(StoreError::CorruptStream),
        Some(v) => decode_record(v.as_slice()),
    }
}

/// Determinism: the bytes a write of `(kind, size, payload)` hands the sink
/// decode straight back to that same kind, size and payload. The second
/// premise — that decompression inverts the compression of this record — is
/// exactly what `write_to_sink` ensures about the bytes it produced.
pub proof fn lemma_sink_round_trip(kind: Kind, size: u64, payload: Seq<u8>)
    requires
        payload.len() == size,
        zlib_inflate(zlib_deflate(spec_record(kind, size, payload))) == Some(
            spec_record(kind, size, payload),
        ),
    ensures
        spec_read_bytes(zlib_deflate(spec_record(kind, size, payload))) == Ok::<
            (Kind, u64, Seq<u8>),
            StoreError,
        >((kind, size, payload)),
{
    lemma_record_round_trip(kind, size, payload);
}

/// Digest stability: two independent writes of the same (kind, size,
/// payload) triple report identical digests, because each write's digest is
/// pinned to the hash of the same record bytes.
pub proof fn lemma_digest_stable(
    kind: Kind,
    size: u64,
    payload: Seq<u8>,
    d1: Seq<u8>,
    d2: Seq<u8>,
)
    requires
        d1 == sha1_of(spec_record(kind, size, payload)),
        d2 == sha1_of(spec_record(kind, size, payload)),
    ensures
        d1 == d2,
{
}

} // verus!
