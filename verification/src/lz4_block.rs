//! Block compression, done by the `lz4` crate.

use vstd::prelude::*;

verus! {

/// The bytes that `lz4::block::compress` returns for `src` in its
/// high-compression mode at `level`, with the length of `src` in front.
pub uninterp spec fn lz4_block_compressed(src: Seq<u8>, level: int) -> Seq<u8>;

/// What `lz4::block::decompress` returns for `src` when it takes the length
/// of the result from the first four bytes of `src`; `None` where it returns
/// an error.
pub uninterp spec fn lz4_block_decompressed(src: Seq<u8>) -> Option<Seq<u8>>;

/// The longest input that the compressor takes.
pub const LZ4_MAX_INPUT_SIZE: usize = 0x7E00_0000;

/// Calls `lz4::block::compress` on `src`, in high-compression mode at
/// `level`, and has it put the length of `src` in front.
///
/// Not proved, but taken from the `lz4` crate and from the C library under
/// it: at a level from 1 to 12 the call fails only for an input longer than
/// `LZ4_MAX_INPUT_SIZE`; the same input and level always give the same
/// bytes; and `lz4::block::decompress` makes the input of them again.
#[verifier::external_body]
pub(crate) fn compress_block(src: &Vec<u8>, level: i32) -> (out: Option<Vec<u8>>)
    requires
        1 <= level <= 12,
    ensures
        src@.len() <= LZ4_MAX_INPUT_SIZE ==> out is Some,
        out matches Some(packed) ==> packed@ == lz4_block_compressed(src@, level as int),
        out matches Some(packed) ==> lz4_block_decompressed(packed@) == Some(src@),
{
    let mode = lz4::block::CompressionMode::HIGHCOMPRESSION(level);
    lz4::block::compress(src, Some(mode), true).ok()
}

/// Calls `lz4::block::decompress` on `src`, and has it take the length of
/// the result from the first four bytes of `src`.
///
/// Not proved, but taken from the `lz4` crate: the same input always gives
/// the same result, an error included.
#[verifier::external_body]
pub(crate) fn decompress_block(src: &Vec<u8>) -> (out: Option<Vec<u8>>)
    ensures
        out is Some == lz4_block_decompressed(src@) is Some,
        out matches Some(raw) ==> lz4_block_decompressed(src@) == Some(raw@),
{
    lz4::block::decompress(src, None).ok()
}

} // verus!
