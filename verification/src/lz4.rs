//! Trusted boundary to the LZ4 block compression used on whole messages.

use vstd::prelude::*;

verus! {

/// The bytes that LZ4 block compression (with the uncompressed size
/// prepended) produces for a given input; a function of the input alone.
pub uninterp spec fn lz4_block(data: Seq<u8>) -> Seq<u8>;

/// Relies on lz4_flex::compress_prepend_size: its result depends only on
/// the input bytes, and begins with the four-byte little-endian
/// uncompressed size.
#[verifier::external_body]
pub(crate) fn lz4_compress(data: &[u8]) -> (r: Vec<u8>)
    requires
        data@.len() < 0x100000000,
    ensures
        r@ == lz4_block(data@),
        r@.len() >= 4,
{
    lz4_flex::compress_prepend_size(data)
}

/// Relies on lz4_flex::decompress_size_prepended: it returns `Ok` with
/// exactly the original bytes on any output of
/// `compress_prepend_size`.
#[verifier::external_body]
pub(crate) fn lz4_decompress(data: &[u8]) -> (r: Option<Vec<u8>>)
    ensures
        match r {
            Some(v) => forall|d: Seq<u8>|
                d.len() < 0x100000000 && data@ == lz4_block(d) ==> v@ == d,
            None => forall|d: Seq<u8>| d.len() < 0x100000000 ==> data@ != lz4_block(d),
        },
{
    lz4_flex::decompress_size_prepended(data).ok()
}

} // verus!
