//! The operations of the demo on its record.
use vstd::prelude::*;
use vstd::string::StringSliceAdditionalSpecFns;
use vstd::utf8::encode_utf8;
use crate::demo::info::{BmpArray, Info, MAX_SIZE, blank_bmp};
use crate::image::{byte_bit, Bitmap};
use crate::qr_standard::bitstream::Mode;
use crate::qr_standard::bitstream::segs_view;

verus! {

/// Returns the recorded mask; records `mask` in its place where one is given.
pub fn mask(info: &mut Info, choice: Option<usize>) -> (r: usize)
    ensures
        r == old(info).mask,
        *final(info) == (match choice {
            Some(m) => Info { mask: m, ..*old(info) },
            None => *old(info),
        }),
{
    if let Some(mask) = choice {
        let old = info.mask;
        info.mask = mask;
        old
    } else {
        info.mask
    }
}

/// Which of the recorded bitmaps to set.
#[derive(Clone, Copy, Debug, PartialEq, Eq, Structural)]
pub enum BmpChoice {
    Fcode,
    NoMask,
    Final,
    Badstream,
    Base,
    /// The bitmap of one of the eight masks.
    Mask(usize),
}

/// `after` is the record `before` with bitmap `choice` replaced by `a`.
pub open spec fn bmp_replaced(before: Info, after: Info, choice: BmpChoice, a: BmpArray) -> bool {
    match choice {
        BmpChoice::Fcode => after == Info { bitmap_fcode: a, ..before },
        BmpChoice::NoMask => after == Info { bitmap_nomask: a, ..before },
        BmpChoice::Final => after == Info { bitmap: a, ..before },
        BmpChoice::Badstream => after == Info { bitmap_badstream: a, ..before },
        BmpChoice::Base => after == Info { bitmap_base: a, ..before },
        BmpChoice::Mask(k) => after == Info { bitmap_masks: after.bitmap_masks, ..before }
            && after.bitmap_masks@ == before.bitmap_masks@.update(k as int, a),
    }
}

/// One byte per pixel of the image bytes `bytes`, eight to a byte, the
/// highest bit first: 1 for a clear bit, 0 for a set one; then zeros.
pub open spec fn pixel_bytes(bytes: Seq<u8>, p: int) -> u8 {
    if p < 8 * bytes.len() && !byte_bit(bytes[p / 8], 7 - p % 8) {
        1
    } else {
        0
    }
}

/// Records the pixels of `bitmap`, one byte each (see `pixel_bytes`), as
/// the bitmap `choice`.
pub fn set_bitmap(info: &mut Info, bitmap: &Bitmap, choice: BmpChoice)
    requires
        8 * bitmap.bytes().len() <= MAX_SIZE,
        choice matches BmpChoice::Mask(k) ==> k < 8,
    ensures
        exists|a: BmpArray| bmp_replaced(*old(info), *final(info), choice, a)
            && forall|p: int| 0 <= p < MAX_SIZE ==> #[trigger] a@[p] == pixel_bytes(bitmap.bytes(), p),
{
    let bits = bitmap.debug_bits();
    let mut bytes: Vec<u8> = Vec::new();
    let mut n: usize = 0;
    while n < bits.len()
        invariant
            bits@ == bitmap.bytes(),
            8 * bits@.len() <= MAX_SIZE,
            n <= bits@.len(),
            bytes@.len() == 8 * n,
            forall|p: int| 0 <= p < 8 * n ==> #[trigger] bytes@[p] == pixel_bytes(bits@, p),
        decreases bits@.len() - n,
    {
        let x = bits[n];
        let mut z: u8 = 0;
        while z < 8
            invariant
                bits@ == bitmap.bytes(),
                8 * bits@.len() <= MAX_SIZE,
                n < bits@.len(),
                x == bits@[n as int],
                z <= 8,
                bytes@.len() == 8 * n + z,
                forall|p: int| 0 <= p < 8 * n + z ==> #[trigger] bytes@[p] == pixel_bytes(bits@, p),
            decreases 8 - z,
        {
            let clear = x & (1u8 << (7 - z)) == 0;
            proof {
                let p = 8 * n + z;
                assert(p / 8 == n && p % 8 == z);
                let j = (7 - z) as u8;
                assert((x & (1u8 << j) == 0u8) == !((x >> j) & 1u8 == 1u8)) by (bit_vector)
                    requires j < 8;
            }
            bytes.push(if clear { 1 } else { 0 });
            z = z + 1;
        }
        n = n + 1;
    }
    let mut array = blank_bmp();
    let mut p: usize = 0;
    while p < bytes.len()
        invariant
            bytes@.len() == 8 * bits@.len() <= MAX_SIZE,
            p <= bytes@.len(),
            forall|q: int| 0 <= q < p ==> #[trigger] array@[q] == bytes@[q],
            forall|q: int| p <= q < MAX_SIZE ==> #[trigger] array@[q] == 0,
        decreases bytes@.len() - p,
    {
        array[p] = bytes[p];
        p = p + 1;
    }
    match choice {
        BmpChoice::Fcode => info.bitmap_fcode = array,
        BmpChoice::NoMask => info.bitmap_nomask = array,
        BmpChoice::Final => info.bitmap = array,
        BmpChoice::Badstream => info.bitmap_badstream = array,
        BmpChoice::Base => info.bitmap_base = array,
        BmpChoice::Mask(k) => info.bitmap_masks[k] = array,
    }
    proof {
        assert(forall|q: int| 0 <= q < MAX_SIZE ==> #[trigger] array@[q] == pixel_bytes(bitmap.bytes(), q));
        assert(bmp_replaced(*old(info), *info, choice, array));
    }
}

/// The number that stands for a mode in the demo.
pub open spec fn demo_mode(m: Mode) -> u8 {
    match m {
        Mode::Numeric => 0,
        Mode::AlphaNum => 1,
        _ => 2,
    }
}

/// Each byte of a segment after the number of its mode.
pub open spec fn mode_pairs(segs: Seq<(Mode, Seq<char>)>) -> Seq<u8>
    decreases segs.len(),
{
    if segs.len() == 0 {
        Seq::empty()
    } else {
        let last = segs.last();
        mode_pairs(segs.drop_last()) + Seq::new(2 * encode_utf8(last.1).len(),
            |p: int| if p % 2 == 0 { demo_mode(last.0) } else { encode_utf8(last.1)[p / 2] })
    }
}

/// Records the segments of the message: each byte of a segment after the
/// number of its mode.
pub fn set_modes(info: &mut Info, modes: &Vec<(Mode, String)>)
    requires
        forall|i: int| 0 <= i < modes@.len() ==> (#[trigger] modes@[i]).0 != Mode::Kanji,
    ensures
        *final(info) == (Info { modes: final(info).modes, ..*old(info) }),
        final(info).modes@ == mode_pairs(segs_view(modes@)),
{
    info.modes.clear();
    let mut i: usize = 0;
    while i < modes.len()
        invariant
            i <= modes@.len(),
            *info == (Info { modes: info.modes, ..*old(info) }),
            info.modes@ == mode_pairs(segs_view(modes@.subrange(0, i as int))),
        decreases modes@.len() - i,
    {
        let m: u8 = match modes[i].0 {
            Mode::Numeric => 0,
            Mode::AlphaNum => 1,
            _ => 2,
        };
        let bytes = modes[i].1.as_str().as_bytes();
        let ghost before = info.modes@;
        let mut k: usize = 0;
        while k < bytes.len()
            invariant
                k <= bytes@.len(),
                *info == (Info { modes: info.modes, ..*old(info) }),
                info.modes@ == before + Seq::new(2 * k as nat,
                    |p: int| if p % 2 == 0 { m } else { bytes@[p / 2] }),
            decreases bytes@.len() - k,
        {
            info.modes.push(m);
            info.modes.push(bytes[k]);
            proof {
                assert(info.modes@ =~= before + Seq::new(2 * (k + 1) as nat,
                    |p: int| if p % 2 == 0 { m } else { bytes@[p / 2] }));
            }
            k = k + 1;
        }
        proof {
            let segs = segs_view(modes@.subrange(0, i + 1));
            assert(segs.drop_last() =~= segs_view(modes@.subrange(0, i as int)));
            assert(segs.last() == (modes@[i as int].0, modes@[i as int].1@));
            assert(bytes@ == encode_utf8(modes@[i as int].1@));
            assert(m == demo_mode(modes@[i as int].0));
            assert(info.modes@ =~= mode_pairs(segs));
        }
        i = i + 1;
    }
    assert(modes@.subrange(0, modes@.len() as int) =~= modes@);
}

/// Forgets everything recorded, the penalties included.
pub fn reset_all(info: &mut Info)
    ensures
        final(info).blank(),
{
    info.clear();
}

} // verus!
