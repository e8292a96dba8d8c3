//! Compressed tile data, as carried by tile and background messages.
//!
//! The data is either four bytes of color (a tile filled with that color),
//! or a 32 bit big endian length followed by the zlib compressed pixels;
//! the length must be that of one tile's pixels (4 bytes each).
use crate::paint::tile::{TileData, TILE_LENGTH};
use crate::paint::UserID;
use crate::protocol::serialization::{dec_u32, read_u32};
use vstd::prelude::*;

verus! {

/// Length of one tile's pixels in bytes
pub const TILE_BYTES: usize = 16384;

/// What `inflate::inflate_bytes_zlib` returns for the given bytes: the
/// decompressed bytes, or `None` for an error
pub uninterp spec fn zlib_inflate(data: Seq<u8>) -> Option<Seq<u8>>;

/// `inflate::inflate_bytes_zlib`: decompress zlib wrapped DEFLATE data. Its
/// result depends on the input bytes alone and is named `zlib_inflate`;
/// the error message is dropped. The crate's source decodes with internal
/// `unwrap`s; that it returns on every input is not stated.
#[verifier::external_body]
fn inflate_zlib(data: &[u8]) -> (r: Option<Vec<u8>>)
    ensures
        match zlib_inflate(data@) {
            Some(b) => r matches Some(v) && v@ == b,
            None => r is None,
        },
{
    match inflate::inflate_bytes_zlib(data) {
        Ok(v) => Some(v),
        Err(_) => None,
    }
}

/// The content of compressed tile data
#[derive(Debug, PartialEq)]
pub enum TileContent {
    /// A tile filled with one color (32 bit ARGB, not premultiplied)
    Solid(u32),
    /// A tile's pixels, four bytes each (blue, green, red, alpha)
    Pixels(Vec<u8>),
}

/// The content of compressed data with the given length prefix, given what
/// decompressing the rest gave: the pixels when the prefix is the length of
/// a tile's pixels and decompression gave that many bytes
pub open spec fn content_of(prefix: u32, inflated: Option<Seq<u8>>) -> Option<Seq<u8>> {
    if prefix == TILE_BYTES {
        match inflated {
            Some(b) => if b.len() == TILE_BYTES {
                Some(b)
            } else {
                None
            },
            None => None,
        }
    } else {
        None
    }
}

/// Check decompressed tile pixels against the length prefix
pub fn check_inflated(prefix: u32, inflated: Option<Vec<u8>>) -> (r: Option<Vec<u8>>)
    ensures
        match content_of(prefix, match inflated {
            Some(v) => Some(v@),
            None => None,
        }) {
            Some(b) => r matches Some(v) && v@ == b,
            None => r is None,
        },
{
    if prefix as usize != TILE_BYTES {
        return None;
    }
    match inflated {
        Some(v) => if v.len() == TILE_BYTES {
            Some(v)
        } else {
            None
        },
        None => None,
    }
}

/// The content of compressed tile data: a solid color for four bytes, the
/// decompressed pixels otherwise; `None` when the data is shorter than four
/// bytes, the length prefix is not that of a tile's pixels, or
/// decompression fails or gives another length. Decompression is done by
/// the `inflate` crate, whose decoder holds assertions and `unwrap`s: that
/// it returns, rather than panics, on every malformed stream is not claimed.
pub fn tile_content(data: &[u8]) -> (r: Option<TileContent>)
    ensures
        data@.len() < 4 ==> r is None,
        data@.len() == 4 ==> r == Some(TileContent::Solid(dec_u32(data@, 0))),
        data@.len() > 4 ==> match content_of(
            dec_u32(data@, 0),
            zlib_inflate(data@.subrange(4, data@.len() as int)),
        ) {
            Some(b) => r matches Some(TileContent::Pixels(v)) && v@ == b,
            None => r is None,
        },
{
    if data.len() < 4 {
        return None;
    }
    let prefix = read_u32(data, 0);
    if data.len() == 4 {
        return Some(TileContent::Solid(prefix));
    }
    if prefix as usize != TILE_BYTES {
        return None;
    }
    let rest = vstd::slice::slice_subrange(data, 4, data.len());
    match check_inflated(prefix, inflate_zlib(rest)) {
        Some(v) => Some(TileContent::Pixels(v)),
        None => None,
    }
}

/// The 32 bit pixel values of pixel bytes (blue, green, red, alpha each)
pub open spec fn pixel_values(b: Seq<u8>) -> Seq<u32> {
    Seq::new(
        b.len() / 4,
        |i: int|
            (b[4 * i] + b[4 * i + 1] * 0x100 + b[4 * i + 2] * 0x1_0000 + b[4 * i + 3]
                * 0x100_0000) as u32,
    )
}

/// Tile data holding the given pixel bytes
pub fn tile_from_bytes(bytes: &[u8], user: UserID) -> (t: TileData)
    requires
        bytes@.len() == TILE_BYTES,
    ensures
        t.wf(),
        t.pixels@ == pixel_values(bytes@),
        t.last_touched_by == user,
{
    let mut pixels: Vec<u32> = Vec::with_capacity(TILE_LENGTH);
    let mut i: usize = 0;
    while i < TILE_LENGTH
        invariant
            i <= TILE_LENGTH,
            bytes@.len() == TILE_BYTES,
            pixels@ == pixel_values(bytes@).subrange(0, i as int),
        decreases TILE_LENGTH - i,
    {
        let p = bytes[4 * i] as u32 + bytes[4 * i + 1] as u32 * 0x100 + bytes[4 * i + 2] as u32
            * 0x1_0000 + bytes[4 * i + 3] as u32 * 0x100_0000;
        pixels.push(p);
        i += 1;
        assert(pixels@ =~= pixel_values(bytes@).subrange(0, i as int));
    }
    assert(pixel_values(bytes@).subrange(0, TILE_LENGTH as int) =~= pixel_values(bytes@));
    TileData { pixels, last_touched_by: user }
}

} // verus!
