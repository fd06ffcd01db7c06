//! How a capture is encoded to WebP for a given quality setting.

use vstd::prelude::*;

verus! {

/// The WebP encoding used for a capture.
#[derive(Clone, Copy, PartialEq, Eq, Structural, Debug)]
pub enum Encoding {
    /// Lossless encoding.
    Lossless,
    /// Lossy encoding at this quality (0 to 99).
    Lossy(u8),
}

/// The encoding for a quality setting: 100 and above is lossless, below
/// that lossy at that quality.
pub fn encoding_for(quality: u8) -> (r: Encoding)
    ensures
        quality >= 100 ==> r == Encoding::Lossless,
        quality < 100 ==> r == Encoding::Lossy(quality),
{
    if quality >= 100 {
        Encoding::Lossless
    } else {
        Encoding::Lossy(quality)
    }
}

} // verus!
