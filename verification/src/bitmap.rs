//! Plain-value model of a bitmap header.
//!
//! The header parser is an outside collaborator; the library keeps only
//! what the pixel transform reads out of a parsed header: where the pixel
//! data starts, how long it is, the bit depth, the compression tag and the
//! optional per-channel bit masks.

use vstd::prelude::*;
use tinybmp::CompressionMethod as Cm;

verus! {

/// Compression tag of a parsed bitmap header.
#[derive(Clone, Copy, Debug, PartialEq, Eq, Structural)]
pub enum BmpCompression {
    /// Uncompressed, no color masks.
    Rgb,
    /// Uncompressed, with explicit color masks.
    Bitfields,
    /// Pixel-level run-length compression, 8 bits per pixel.
    Rle8,
    /// Pixel-level run-length compression, 4 bits per pixel.
    Rle4,
}

/// What the pixel transform reads out of a bitmap header, as plain values.
#[derive(Clone, Copy, Debug, PartialEq, Eq)]
pub struct BmpInfo {
    /// Byte offset where pixel data starts, from the start of the file.
    pub image_data_start: usize,
    /// Length in bytes of the pixel data as the header declares it; zero
    /// means it must be computed from the image dimensions.
    pub image_data_len: u32,
    /// Width in pixels.
    pub width: u32,
    /// Height in pixels.
    pub height: u32,
    /// Bits per pixel.
    pub bpp_bits: u16,
    /// Compression tag.
    pub compression: BmpCompression,
    /// Red, green and blue channel bit masks, when the header carries
    /// explicit masks.
    pub channel_masks: Option<(u32, u32, u32)>,
}

impl BmpInfo {
    /// Whether the header declares a pixel-level run-length compression,
    /// which the transform does not support.
    pub open spec fn spec_is_rle(self) -> bool {
        self.compression == BmpCompression::Rle8 || self.compression == BmpCompression::Rle4
    }

    /// Whether the header declares a pixel-level run-length compression.
    pub fn is_rle(&self) -> (r: bool)
        ensures
            r == self.spec_is_rle(),
    {
        self.compression == BmpCompression::Rle8 || self.compression == BmpCompression::Rle4
    }
}

/// What the outside bitmap parser makes of a byte sequence: `None` when
/// the bytes are not a well-formed bitmap, otherwise the header fields the
/// transform needs. The result depends on the bytes alone.
pub uninterp spec fn spec_parse_bmp(data: Seq<u8>) -> Option<BmpInfo>;

/// Relies on tinybmp::RawBmp::from_slice: parses a bitmap header out of a
/// byte slice; the result depends on the bytes alone.
#[verifier::external_body]
pub(crate) fn parse_bmp(data: &[u8]) -> (r: Option<BmpInfo>)
    ensures
        r == spec_parse_bmp(data@),
{
    let h = match tinybmp::RawBmp::from_slice(data) {
        Ok(b) => b.header().clone(),
        Err(_) => return None,
    };
    let compression = match h.compression_method {
        Cm::Rgb => BmpCompression::Rgb, Cm::Bitfields => BmpCompression::Bitfields,
        Cm::Rle8 => BmpCompression::Rle8, Cm::Rle4 => BmpCompression::Rle4,
    };
    Some(BmpInfo {
        image_data_start: h.image_data_start, image_data_len: h.image_data_len,
        width: h.image_size.width, height: h.image_size.height,
        bpp_bits: h.bpp.bits(), compression,
        channel_masks: h.channel_masks.map(|m| (m.red, m.green, m.blue)),
    })
}

} // verus!
