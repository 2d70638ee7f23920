//! A QR code generator: Reed-Solomon error correction over GF(2^8), the
//! layout rules of the QR standard, mode optimization of the message, and
//! monochrome bitmaps.

use vstd::prelude::*;

pub mod image;
pub mod image_type;
pub mod qr_standard;
pub mod rdsm;
pub mod wikiv;
pub mod zigzag;
pub mod bitmask;
pub mod demo;

pub use qr_standard::badstream::QRInput;
pub use qr_standard::bitstream::Mode;

verus! {

} // verus!
