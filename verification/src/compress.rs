//! General-purpose compression of byte strings by zstd and by xz.
use crate::bijection::Bijection;
use vstd::prelude::*;

verus! {

/// The frame that zstd's `encode_all` produces for `data` at `level`.
pub uninterp spec fn zstd_encoded(data: Seq<u8>, level: int) -> Seq<u8>;

/// What zstd's `decode_all` gives back for `frame`; `None` where it fails.
pub uninterp spec fn zstd_decoded(frame: Seq<u8>) -> Option<Seq<u8>>;

/// `frame` is an xz stream that liblzma's preset encoder (`lzma::compress`)
/// wrote. Its bytes depend on the liblzma that is linked; that every
/// liblzma decodes it, and to what, does not.
pub uninterp spec fn xz_stream(frame: Seq<u8>) -> bool;

/// The data that the xz stream `frame` was written for.
pub uninterp spec fn xz_data(frame: Seq<u8>) -> Seq<u8>;

/// `frame` is an xz stream that `lzma::compress` wrote with `preset`.
pub uninterp spec fn xz_stream_with(frame: Seq<u8>, preset: u32) -> bool;

/// Calls `zstd::encode_all` on the bytes of `data` at `level`, a level that
/// zstd accepts. Claims that it succeeds: the zstd library is bundled and
/// built with the crate, a byte slice is read without error, and the only
/// other failure is running out of memory, which aborts. Claims that the
/// frame is `zstd_encoded(data, level)` and that `decode_all` gives `data`
/// back from it (zstd is lossless).
#[verifier::external_body]
fn zstd_encode_all(data: &[u8], level: i32) -> (out: Vec<u8>)
    requires
        1 <= level <= 22,
    ensures
        out@ == zstd_encoded(data@, level as int),
        zstd_decoded(out@) == Some(data@),
{
    zstd::encode_all(data, level).unwrap()
}

/// Calls `zstd::decode_all` on the bytes of `frame`. Claims that the result is
/// `zstd_decoded(frame)`, with `None` for its error.
#[verifier::external_body]
fn zstd_decode_all(frame: &[u8]) -> (out: Option<Vec<u8>>)
    ensures
        out matches Some(v) ==> zstd_decoded(frame@) == Some(v@),
        out is None ==> zstd_decoded(frame@) is None,
{
    match zstd::decode_all(frame) {
        Ok(v) => Some(v),
        Err(_) => None,
    }
}

/// Calls `lzma::compress` on the bytes of `data` with `preset`. Claims only
/// that, where it succeeds, the result is an xz stream written for `data`
/// with that preset;
/// the bytes themselves depend on the liblzma that is linked and are not
/// stated. Whether liblzma succeeds is not stated: `None` stands for its
/// error.
#[verifier::external_body]
fn xz_compress(data: &[u8], preset: u32) -> (out: Option<Vec<u8>>)
    ensures
        out matches Some(v) ==> xz_stream(v@) && xz_stream_with(v@, preset) && xz_data(v@) == data@,
{
    match lzma::compress(data, preset) {
        Ok(v) => Some(v),
        Err(_) => None,
    }
}

/// Calls `lzma::decompress` on the bytes of `frame`. Claims only that an xz
/// stream written for some data decodes to that data (xz is lossless). What
/// comes of other bytes depends on the liblzma that is linked and is not
/// stated.
#[verifier::external_body]
fn xz_decompress(frame: &[u8]) -> (out: Option<Vec<u8>>)
    ensures
        out is Some || !xz_stream(frame@),
        out matches Some(v) ==> (xz_stream(frame@) ==> v@ == xz_data(frame@)),
{
    match lzma::decompress(frame) {
        Ok(v) => Some(v),
        Err(_) => None,
    }
}

/// The compression level used throughout.
pub const ZSTD_LEVEL: i32 = 22;

/// The xz preset used: level 9 with the extreme flag.
pub const XZ_PRESET: u32 = 0x8000_0009;

/// What the compressor gives for `source`: the frame at the level used,
/// which decompresses to `source`.
pub open spec fn zstd_output(source: Seq<u8>, out: Seq<u8>) -> bool {
    out == zstd_encoded(source, ZSTD_LEVEL as int) && zstd_decoded(out) == Some(source)
}

/// zstd at its highest level.
pub struct ZStdBijection;

impl ZStdBijection {
    /// Decompresses `source`, or gives `None` where it is no zstd frame.
    pub fn try_revert(&self, source: Vec<u8>) -> (out: Option<Vec<u8>>)
        ensures
            out matches Some(v) ==> zstd_decoded(source@) == Some(v@),
            out is None ==> zstd_decoded(source@) is None,
    {
        zstd_decode_all(source.as_slice())
    }
}

impl Bijection<Vec<u8>, Vec<u8>> for ZStdBijection {
    open spec fn applies_to(&self, source: Vec<u8>) -> bool {
        true
    }

    open spec fn reverts(&self, source: Vec<u8>) -> bool {
        zstd_decoded(source@) is Some
    }

    /// The frame at the level used, which decompresses to `source`.
    fn apply(&self, source: Vec<u8>) -> (out: Vec<u8>)
        ensures
            zstd_output(source@, out@),
    {
        zstd_encode_all(source.as_slice(), ZSTD_LEVEL)
    }

    fn revert(&self, source: Vec<u8>) -> (out: Vec<u8>)
        ensures
            zstd_decoded(source@) == Some(out@),
    {
        match zstd_decode_all(source.as_slice()) {
            Some(v) => v,
            None => Vec::new(),
        }
    }
}

/// xz at preset 9, extreme.
pub struct LzmaBijection;

impl LzmaBijection {
    /// Decompresses `source`; a stream written for some data gives that data,
    /// and `None` stands for liblzma's error.
    pub fn try_revert(&self, source: Vec<u8>) -> (out: Option<Vec<u8>>)
        ensures
            xz_stream(source@) ==> (out matches Some(v) && v@ == xz_data(source@)),
    {
        xz_decompress(source.as_slice())
    }
}

impl Bijection<Vec<u8>, Vec<u8>> for LzmaBijection {
    open spec fn applies_to(&self, source: Vec<u8>) -> bool {
        true
    }

    open spec fn reverts(&self, source: Vec<u8>) -> bool {
        xz_stream(source@)
    }

    /// The stream that liblzma writes for `source` at preset 9, extreme;
    /// where liblzma fails, nothing comes out.
    fn apply(&self, source: Vec<u8>) -> (out: Vec<u8>)
        ensures
            out@.len() == 0 || (xz_stream(out@) && xz_stream_with(out@, XZ_PRESET) && xz_data(out@)
                == source@),
    {
        match xz_compress(source.as_slice(), XZ_PRESET) {
            Some(v) => v,
            None => Vec::new(),
        }
    }

    /// The data that the stream was written for.
    fn revert(&self, source: Vec<u8>) -> (out: Vec<u8>)
        ensures
            out@ == xz_data(source@),
    {
        match xz_decompress(source.as_slice()) {
            Some(v) => v,
            None => Vec::new(),
        }
    }
}

} // verus!
