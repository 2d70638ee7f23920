//! The record of how a QR code was made, kept for an interactive demo: the
//! bitmaps of each stage, one byte per module, and the choices made.

pub mod info;
pub mod ops;
