//! Monochrome images in two byte layouts: `Img` packs all pixels into one
//! continuous run of bits, `ImgRowAligned` starts every row on a new byte.
//! Both can be read from and written as XBM.

pub mod xbm;
pub mod rowaligned;
pub mod continuous;

use vstd::prelude::*;

verus! {

/// The bytes of an image and where its pixels lie in them.
pub trait BitmapDebug {
    /// The bytes that hold the pixels.
    spec fn debug_view(&self) -> Seq<u8>;

    /// Where pixel `(x, y)` lies: bit `i` of byte `n`, if it has a place.
    spec fn debug_index(&self, x: nat, y: nat) -> Option<(nat, nat)>;

    /// The pixel that bit `i` of byte `n` holds, if it holds one.
    spec fn debug_pixel(&self, n: nat, i: nat) -> Option<(nat, nat)>;

    /// The place of pixel `(x, y)` can be computed in machine integers.
    spec fn debug_index_ok(&self, x: nat, y: nat) -> bool;

    /// The pixel of bit `i` of byte `n` can be computed in machine integers.
    spec fn debug_pixel_ok(&self, n: nat, i: nat) -> bool;

    fn debug_bytes(&self) -> (r: &Vec<u8>)
        ensures
            r@ == self.debug_view();

    fn debug_xy_to_index(&self, x: usize, y: usize) -> (r: Option<(usize, u8)>)
        requires
            self.debug_index_ok(x as nat, y as nat),
        ensures
            match self.debug_index(x as nat, y as nat) {
                Some((n, i)) => r == Some((n as usize, i as u8)),
                None => r is None,
            };

    fn debug_index_to_xy(&self, vec_index: usize, bit_index: u8) -> (r: Option<(usize, usize)>)
        requires
            self.debug_pixel_ok(vec_index as nat, bit_index as nat),
        ensures
            match self.debug_pixel(vec_index as nat, bit_index as nat) {
                Some((x, y)) => r == Some((x as usize, y as usize)),
                None => r is None,
            };
}

} // verus!
