//! The persisted snapshot: a header, then the encoded index, raw or
//! DEFLATE-compressed.
//!
//! The header is the four bytes `SPST`, the format version, and a
//! compression flag: 0 for raw, 1 for DEFLATE.
use vstd::prelude::*;
use crate::compression::{fold_spec, index_wf, lemma_fold_wf, CompressedEndStreamWithKindContainer, IndexView};
use crate::end_stream::EndStream;
use crate::index_format::{
    decode, decode_index, encode, encode_index, index_fits, lemma_index_round_trip,
};

verus! {

/// The version of the format that this library writes and reads.
pub const FORMAT_VERSION: u8 = 1;

/// The DEFLATE level used when compressing.
pub const COMPRESSION_LEVEL: u32 = 9;

pub const FLAG_RAW: u8 = 0;

pub const FLAG_DEFLATE: u8 = 1;

#[verifier::external_type_specification]
#[verifier::external_body]
pub struct ExIoError(std::io::Error);

/// Why a snapshot could not be written or read.
#[derive(Debug, Clone, Copy, PartialEq, Eq, Structural, Hash)]
pub enum CodecError {
    /// Fewer bytes than a header.
    TooShort,
    /// The bytes do not start with `SPST`.
    BadMagic,
    /// A format version that this library does not read.
    UnsupportedVersion(u8),
    /// A compression flag other than 0 or 1.
    UnknownCompression(u8),
    /// The compressor failed.
    Compression,
    /// The compressed payload could not be decompressed.
    Decompression,
    /// The payload is not the encoding of a well-formed index.
    Malformed,
}

/// The header of a snapshot.
pub open spec fn header(compressed: bool) -> Seq<u8> {
    seq![0x53u8, 0x50u8, 0x53u8, 0x54u8, FORMAT_VERSION, if compressed { FLAG_DEFLATE } else { FLAG_RAW }]
}

/// The raw DEFLATE stream that flate2 makes of some bytes at a level.
pub uninterp spec fn deflated(b: Seq<u8>, level: u32) -> Seq<u8>;

/// The snapshot of an index.
pub open spec fn stored_bytes(x: IndexView, compressed: bool) -> Seq<u8> {
    if compressed {
        header(true) + deflated(encode_index(x), COMPRESSION_LEVEL)
    } else {
        header(false) + encode_index(x)
    }
}

/// What is wrong with a snapshot's header, if anything.
pub open spec fn header_error(b: Seq<u8>) -> Option<CodecError> {
    if b.len() < 6 {
        Some(CodecError::TooShort)
    } else if b[0] != 0x53u8 || b[1] != 0x50u8 || b[2] != 0x53u8 || b[3] != 0x54u8 {
        Some(CodecError::BadMagic)
    } else if b[4] != FORMAT_VERSION {
        Some(CodecError::UnsupportedVersion(b[4]))
    } else if b[5] != FLAG_RAW && b[5] != FLAG_DEFLATE {
        Some(CodecError::UnknownCompression(b[5]))
    } else {
        None
    }
}

/// Relies on flate2's `write::DeflateEncoder` at the given level: what it
/// writes for the same bytes and level is always the same stream.
#[verifier::external_body]
fn deflate(b: &[u8], level: u32) -> (r: Result<Vec<u8>, std::io::Error>)
    requires
        level <= 9,
    ensures
        r matches Ok(v) ==> v@ == deflated(b@, level),
{
    let mut encoder = flate2::write::DeflateEncoder::new(Vec::new(), flate2::Compression::new(level));
    match std::io::Write::write_all(&mut encoder, b) {
        Ok(()) => encoder.finish(),
        Err(e) => Err(e),
    }
}

/// Decompressing `input` gave `out`, and `input` was made by the
/// compressor from some bytes: then `out` is those bytes.
pub open spec fn undoes_deflate(input: Seq<u8>, out: Result<Vec<u8>, std::io::Error>) -> bool {
    forall|x: Seq<u8>, level: u32|
        level <= 9 && #[trigger] deflated(x, level) == input ==> (out matches Ok(v) && v@ == x)
}

/// Relies on flate2's `write::DeflateDecoder`: DEFLATE is lossless, so a
/// stream that the encoder made decodes back to the bytes it was made from.
#[verifier::external_body]
fn inflate(b: &[u8]) -> (r: Result<Vec<u8>, std::io::Error>)
    ensures
        undoes_deflate(b@, r),
{
    let mut decoder = flate2::write::DeflateDecoder::new(Vec::new());
    match std::io::Write::write_all(&mut decoder, b) {
        Ok(()) => decoder.finish(),
        Err(e) => Err(e),
    }
}

fn push_header(out: &mut Vec<u8>, compressed: bool)
    requires
        old(out)@.len() == 0,
    ensures
        final(out)@ == header(compressed),
{
    out.push(0x53u8);
    out.push(0x50u8);
    out.push(0x53u8);
    out.push(0x54u8);
    out.push(FORMAT_VERSION);
    out.push(if compressed { FLAG_DEFLATE } else { FLAG_RAW });
    assert(out@ =~= header(compressed));
}

fn append(out: &mut Vec<u8>, b: &[u8])
    ensures
        final(out)@ == old(out)@ + b@,
{
    let ghost start = out@;
    let mut i: usize = 0;
    while i < b.len()
        invariant
            i <= b@.len(),
            out@ == start + b@.take(i as int),
        decreases b@.len() - i,
    {
        out.push(b[i]);
        assert(b@.take(i + 1) =~= b@.take(i as int).push(b@[i as int]));
        i += 1;
    }
    assert(b@.take(i as int) =~= b@);
}

impl CompressedEndStreamWithKindContainer {
    /// The snapshot of this index, DEFLATE-compressed when `compress`.
    /// Without compression it always succeeds; with it, it fails only when
    /// the compressor does.
    pub fn to_bytes(&self, compress: bool) -> (r: Result<Vec<u8>, CodecError>)
        ensures
            index_fits(self@),
            r matches Ok(b) ==> b@ == stored_bytes(self@, compress),
            !compress ==> r is Ok,
            r matches Err(e) ==> e == CodecError::Compression,
    {
        let payload = encode(self);
        let mut out: Vec<u8> = Vec::new();
        push_header(&mut out, compress);
        if compress {
            match deflate(payload.as_slice(), COMPRESSION_LEVEL) {
                Ok(c) => append(&mut out, c.as_slice()),
                Err(_) => return Err(CodecError::Compression),
            }
        } else {
            append(&mut out, payload.as_slice());
        }
        Ok(out)
    }

    /// Reads a snapshot. Header errors come first; a raw payload gives its
    /// index exactly when it is the encoding of a well-formed index; the
    /// snapshot of any well-formed index, raw or compressed, gives that index
    /// back.
    pub fn from_bytes(bytes: &[u8]) -> (r: Result<Self, CodecError>)
        ensures
            header_error(bytes@) matches Some(e) ==> r == Err::<Self, CodecError>(e),
            header_error(bytes@) is None && bytes@[5] == FLAG_RAW ==> match decode_index(
                bytes@.skip(6),
            ) {
                Some(x) => r matches Ok(idx) && idx@ == x,
                None => r == Err::<Self, CodecError>(CodecError::Malformed),
            },
            r matches Ok(idx) ==> idx.wf(),
            r matches Err(e) ==> header_error(bytes@) == Some(e) || e == CodecError::Malformed
                || e == CodecError::Decompression,
            forall|x: IndexView|
                index_wf(x) && index_fits(x) && #[trigger] stored_bytes(x, false) == bytes@ ==> (
                r matches Ok(idx) && idx@ == x),
            forall|x: IndexView|
                index_wf(x) && index_fits(x) && #[trigger] stored_bytes(x, true) == bytes@ ==> (
                r matches Ok(idx) && idx@ == x),
    {
        if bytes.len() < 6 {
            return Err(CodecError::TooShort);
        }
        if bytes[0] != 0x53u8 || bytes[1] != 0x50u8 || bytes[2] != 0x53u8 || bytes[3] != 0x54u8 {
            return Err(CodecError::BadMagic);
        }
        if bytes[4] != FORMAT_VERSION {
            return Err(CodecError::UnsupportedVersion(bytes[4]));
        }
        let flag = bytes[5];
        if flag != FLAG_RAW && flag != FLAG_DEFLATE {
            return Err(CodecError::UnknownCompression(flag));
        }
        let mut payload: Vec<u8> = Vec::new();
        let mut i: usize = 6;
        while i < bytes.len()
            invariant
                6 <= i <= bytes@.len(),
                payload@ == bytes@.subrange(6, i as int),
            decreases bytes@.len() - i,
        {
            payload.push(bytes[i]);
            assert(bytes@.subrange(6, i + 1) =~= bytes@.subrange(6, i as int).push(bytes@[i as int]));
            i += 1;
        }
        assert(payload@ =~= bytes@.skip(6));
        proof {
            assert forall|x: IndexView, c: bool| #[trigger] stored_bytes(x, c) == bytes@ implies (c
                == (flag == FLAG_DEFLATE)) && (if c {
                deflated(encode_index(x), COMPRESSION_LEVEL)
            } else {
                encode_index(x)
            }) == payload@ by {
                let h = header(c);
                assert(stored_bytes(x, c)[5] == h[5]);
                assert(bytes@.skip(6) =~= stored_bytes(x, c).skip(6));
                if c {
                    assert(stored_bytes(x, c).skip(6) =~= deflated(encode_index(x), COMPRESSION_LEVEL));
                } else {
                    assert(stored_bytes(x, c).skip(6) =~= encode_index(x));
                }
            }
        }
        let raw = if flag == FLAG_DEFLATE {
            match inflate(payload.as_slice()) {
                Ok(v) => v,
                Err(_) => return Err(CodecError::Decompression),
            }
        } else {
            payload
        };
        match decode(raw.as_slice()) {
            Some(idx) => {
                proof {
                    assert forall|x: IndexView, c: bool|
                        index_wf(x) && index_fits(x) && #[trigger] stored_bytes(x, c) == bytes@ implies idx@
                        == x by {
                        lemma_index_round_trip(x);
                    }
                }
                Ok(idx)
            },
            None => {
                proof {
                    assert forall|x: IndexView, c: bool|
                        index_wf(x) && index_fits(x) && #[trigger] stored_bytes(x, c) == bytes@ implies false by {
                        lemma_index_round_trip(x);
                    }
                }
                Err(CodecError::Malformed)
            },
        }
    }
}

/// Building an index from records and then saving and loading it gives the
/// index that was built: the encoding of any index that folding produces
/// decodes back to it.
pub proof fn lemma_reload_idempotent(recs: Seq<EndStream>)
    requires
        fold_spec(recs) is Ok,
        index_fits(fold_spec(recs).unwrap()),
    ensures
        decode_index(encode_index(fold_spec(recs).unwrap())) == Some(fold_spec(recs).unwrap()),
{
    lemma_fold_wf(recs);
    lemma_index_round_trip(fold_spec(recs).unwrap());
}

/// What reading the snapshot file gave.
pub enum SnapshotFile {
    /// There is no snapshot file.
    NotFound,
    /// The file is there but could not be read.
    Unreadable,
    /// The file's contents.
    Contents(Vec<u8>),
}

/// Why no index could be loaded from the snapshot file.
#[derive(Debug, Clone, Copy, PartialEq, Eq, Structural, Hash)]
pub enum LoadError {
    /// There is no snapshot: build the index from the source records.
    NotFound,
    /// The snapshot could not be read.
    Unreadable,
    /// The snapshot was read but is not a valid snapshot.
    Corrupt(CodecError),
}

/// Loads an index from what reading the snapshot file gave, keeping a
/// missing file, an unreadable one and a corrupt one apart.
pub fn load_snapshot(file: SnapshotFile) -> (r: Result<CompressedEndStreamWithKindContainer, LoadError>)
    ensures
        file is NotFound ==> r == Err::<CompressedEndStreamWithKindContainer, LoadError>(LoadError::NotFound),
        file is Unreadable ==> r == Err::<CompressedEndStreamWithKindContainer, LoadError>(LoadError::Unreadable),
        file is Contents ==> (r matches Ok(i) ==> i.wf()),
        file is Contents ==> (r matches Err(e) ==> e is Corrupt),
        file matches SnapshotFile::Contents(b) ==> (header_error(b@) matches Some(e) ==> r == Err::<
            CompressedEndStreamWithKindContainer,
            LoadError,
        >(LoadError::Corrupt(e))),
        forall|x: IndexView, c: bool|
            index_wf(x) && index_fits(x) && (file matches SnapshotFile::Contents(b) && #[trigger] stored_bytes(x, c) == b@) ==> (
            r matches Ok(i) && i@ == x),
{
    match file {
        SnapshotFile::NotFound => Err(LoadError::NotFound),
        SnapshotFile::Unreadable => Err(LoadError::Unreadable),
        SnapshotFile::Contents(b) => match CompressedEndStreamWithKindContainer::from_bytes(b.as_slice()) {
            Ok(idx) => Ok(idx),
            Err(e) => Err(LoadError::Corrupt(e)),
        },
    }
}

} // verus!
