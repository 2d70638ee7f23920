//! Images whose rows each start on a new byte, leftmost pixel in the highest bit.
use vstd::prelude::*;
use crate::image::{
    byte_bit, decimal, hex_digit, lemma_byte_set, pixel_at, xbm_data, xbm_piece, xbm_text, push_all, push_decimal, push_seq, reverse_byte,
    row_bytes, string_from_chars, char_from_digit,
};
use crate::image_type::BitmapDebug;
use crate::image_type::continuous::{shift_in, Img, bit128, lemma_shift_in_bit, pattern_value};
use crate::qr_standard::{lemma_shift_in, lemma_xor_bit, mask_formula};
use crate::image_type::xbm::{
    read_xbm, scan_xbm, reverse_bits, XbmFault, XbmOutcome, XbmRead, ByteScan, scan_bytes, scan_from,
    scan_step, read_token, read_bytes, trim, trim_start, trim_end, is_space, is_word_char, split_once,
    next_line, define_word, starts_with, read_dimension, last_word, last_run, parse_unsigned,
    lemma_scan_concat, lemma_scan_separators, lemma_scan_word, lemma_trim_plain, lemma_find_first,
    lemma_last_run, lemma_hex_digit, lemma_hex_byte, lemma_decimal, lemma_reverse_twice,
};

verus! {

/// Where pixel `(x, y)` lies in an image `w` wide and `h` high: bit `i` of
/// byte `n`; none for coordinates out of bounds.
pub open spec fn pixel_index(x: nat, y: nat, w: nat, h: nat) -> Option<(nat, nat)> {
    if x >= w || y >= h {
        None
    } else {
        Some(((y * row_bytes(w) + x / 8) as nat, (7 - x % 8) as nat))
    }
}

/// Converts pixel coordinates to byte and bit indices (see `pixel_index`).
pub fn xy_to_index(x: usize, y: usize, w: usize, h: usize) -> (r: Option<(usize, u8)>)
    requires
        x >= w || y >= h || y * row_bytes(w as nat) + x / 8 <= usize::MAX,
    ensures
        match pixel_index(x as nat, y as nat, w as nat, h as nat) {
            Some((n, i)) => r == Some((n as usize, i as u8)),
            None => r is None,
        },
{
    if x >= w || y >= h {
        return None;
    }
    let row_bytes = if w % 8 == 0 { w / 8 } else { w / 8 + 1 };
    assert(row_bytes == crate::image::row_bytes(w as nat));
    let n = y * row_bytes + x / 8;
    let i = (7 - (x % 8)) as u8;
    Some((n, i))
}

/// A sample XBM file: a 16 by 16 image with a diagonal line.
pub const XBM_EXAMPLE: &'static str = "#define test_width 16
#define test_height 16
static unsigned char test_bits[] = {
   0x01, 0x00, 0x02, 0x00, 0x04, 0x00, 0x08, 0x00, 0x10, 0x00, 0x20, 0x00,
   0x40, 0x00, 0x80, 0x00, 0xfe, 0xff, 0xfd, 0xff, 0xfb, 0xff, 0xf7, 0xff,
   0xef, 0xff, 0xdf, 0xff, 0xbf, 0xff, 0x7f, 0xff };
";

/// Whether masking pattern `pattern` flips bit `j` of byte `n` of a `w` by
/// `h` image whose rows start on new bytes: the bit holds a pixel, and the
/// pattern is zero there.
pub open spec fn aligned_mask_bit(pattern: int, w: nat, h: nat, n: nat, j: nat) -> bool {
    match crate::image::spec_index_to_xy(n, j, w, h) {
        Some((x, y)) => mask_formula(pattern, x as int, y as int) == 0,
        None => false,
    }
}

/// A monochrome image whose rows each start on a new byte.
pub struct ImgRowAligned {
    width: usize,
    height: usize,
    bits: Vec<u8>,
}

impl ImgRowAligned {
    pub closed spec fn spec_width(&self) -> nat {
        self.width as nat
    }

    pub closed spec fn spec_height(&self) -> nat {
        self.height as nat
    }

    /// The bytes that hold the pixels, row by row.
    pub closed spec fn bytes(&self) -> Seq<u8> {
        self.bits@
    }

    /// The image has a pixel and exactly the bytes its rows need.
    pub open spec fn wf(&self) -> bool {
        &&& self.spec_width() >= 1
        &&& self.spec_height() >= 1
        &&& self.bytes().len() == self.spec_height() * row_bytes(self.spec_width())
    }

    /// The colour of pixel `(x, y)`.
    pub open spec fn pixel(&self, x: nat, y: nat) -> bool {
        pixel_at(self.bytes(), self.spec_width(), x, y)
    }

    /// An image of the given size and bytes.
    pub(crate) fn from_parts(width: usize, height: usize, bits: Vec<u8>) -> (r: Self)
        ensures
            r.spec_width() == width,
            r.spec_height() == height,
            r.bytes() == bits@,
    {
        ImgRowAligned { width, height, bits }
    }

    /// A blank image `w` pixels wide and `h` high.
    pub fn new(w: usize, h: usize) -> (r: Self)
        requires
            w >= 1,
            h >= 1,
            h * row_bytes(w as nat) <= usize::MAX,
        ensures
            r.wf(),
            r.spec_width() == w,
            r.spec_height() == h,
            forall|n: int| 0 <= n < r.bytes().len() ==> r.bytes()[n] == 0,
    {
        let rb: usize = w / 8 + if w % 8 == 0 { 0 } else { 1 };
        assert(rb == row_bytes(w as nat));
        assert((h - 1) * rb + (w - 1) / 8 + 1 == h * rb) by (nonlinear_arith)
            requires rb == (w + 7) / 8, w >= 1, h >= 1;
        let (n, _) = xy_to_index(w - 1, h - 1, w, h).unwrap();
        let mut vec: Vec<u8> = Vec::new();
        while vec.len() < n + 1
            invariant
                n + 1 == h * rb,
                h * rb <= usize::MAX,
                vec@.len() <= n + 1,
                forall|k: int| 0 <= k < vec@.len() ==> vec@[k] == 0,
            decreases n + 1 - vec@.len(),
        {
            vec.push(0);
        }
        ImgRowAligned { width: w, height: h, bits: vec }
    }

    /// The width and the height.
    pub fn dims(&self) -> (r: (usize, usize))
        ensures
            r.0 == self.spec_width(),
            r.1 == self.spec_height(),
    {
        (self.width, self.height)
    }

    /// A copy of the bytes that hold the pixels.
    pub fn debug_bits(&self) -> (r: Vec<u8>)
        ensures
            r@ == self.bytes(),
    {
        self.bits.clone()
    }

    /// The byte and bit of pixel `(x, y)` (see `pixel_index`).
    pub fn debug_indices(&self, x: usize, y: usize) -> (r: Option<(usize, u8)>)
        requires
            x >= self.spec_width() || y >= self.spec_height()
                || y * row_bytes(self.spec_width()) + x / 8 <= usize::MAX,
        ensures
            match pixel_index(x as nat, y as nat, self.spec_width(), self.spec_height()) {
                Some((n, i)) => r == Some((n as usize, i as u8)),
                None => r is None,
            },
    {
        xy_to_index(x, y, self.width, self.height)
    }

    /// Sets the bit of pixel `(x, y)` to `bit`; returns whether `(x, y)` has
    /// a bit (see `pixel_index`).
    pub fn set_bit(&mut self, x: usize, y: usize, bit: bool) -> (r: bool)
        requires
            pixel_index(x as nat, y as nat, old(self).spec_width(), old(self).spec_height())
                matches Some((n, _)) ==> n < old(self).bytes().len(),
        ensures
            final(self).spec_width() == old(self).spec_width(),
            final(self).spec_height() == old(self).spec_height(),
            r == (x < old(self).spec_width() && y < old(self).spec_height()),
            final(self).bytes() == match pixel_index(x as nat, y as nat, old(self).spec_width(), old(self).spec_height()) {
                Some((n, i)) => old(self).bytes().update(n as int,
                    if bit { old(self).bytes()[n as int] | (1u8 << (i as u8)) }
                    else { old(self).bytes()[n as int] & !(1u8 << (i as u8)) }),
                None => old(self).bytes(),
            },
            old(self).wf() ==> final(self).wf(),
            old(self).wf() && x < old(self).spec_width() && y < old(self).spec_height() ==>
                forall|a: nat, b: nat| a < final(self).spec_width() && b < final(self).spec_height()
                    ==> #[trigger] final(self).pixel(a, b) == (if a == x && b == y { bit } else { old(self).pixel(a, b) }),
    {
        let len = self.bits.len();
        let ghost before = self.bits@;
        match xy_to_index(x, y, self.width, self.height) {
            Some((n, i)) => {
                if bit {
                    let v = self.bits[n] | (1u8 << i);
                    self.bits.set(n, v);
                } else {
                    let v = self.bits[n] & !(1u8 << i);
                    self.bits.set(n, v);
                }
                proof {
                    let w = self.width as nat;
                    let h = self.height as nat;
                    let rb = row_bytes(w);
                    if before.len() == h * rb && w >= 1 && x < w && y < h {
                        assert forall|a: nat, b: nat| a < w && b < h implies
                            #[trigger] self.pixel(a, b) == (if a == x && b == y { bit } else { pixel_at(before, w, a, b) }) by {
                            crate::image::lemma_index_in_bounds(a, b, w, h);
                            let m = b * rb + a / 8;
                            let j = (7 - a % 8) as u8;
                            lemma_byte_set(before[n as int], i, j);
                            if m == n {
                                assert(b == y && a / 8 == x / 8) by (nonlinear_arith)
                                    requires m == b * rb + a / 8, m == y * rb + x / 8, a / 8 < rb, x / 8 < rb;
                                if j == i {
                                    assert(a == x);
                                }
                            }
                        }
                    }
                }
                true
            },
            None => false,
        }
    }

    /// The bit of pixel `(x, y)`, if it has one (see `pixel_index`).
    pub fn get_bit(&self, x: usize, y: usize) -> (r: Option<bool>)
        requires
            pixel_index(x as nat, y as nat, self.spec_width(), self.spec_height())
                matches Some((n, _)) ==> n < self.bytes().len(),
        ensures
            r == match pixel_index(x as nat, y as nat, self.spec_width(), self.spec_height()) {
                Some((n, i)) => Some(byte_bit(self.bytes()[n as int], i as int)),
                None => None,
            },
    {
        let len = self.bits.len();
        match xy_to_index(x, y, self.width, self.height) {
            Some((n, i)) => {
                proof {
                    assert(((self.bits@[n as int] >> i) & 1u8 == 1u8) == byte_bit(self.bits@[n as int], i as int));
                }
                Some(((self.bits[n] >> i) & 1) == 1)
            },
            None => None,
        }
    }

    /// Applies (xors) masking pattern `pattern` to every pixel; the unused
    /// bits at the row ends stay as they are.
    pub fn qr_mask_xor(&mut self, pattern: u8)
        requires
            old(self).wf(),
            pattern < 8,
            old(self).spec_width() * old(self).spec_height() + 2 <= usize::MAX,
            old(self).spec_width() + 7 <= usize::MAX,
        ensures
            final(self).wf(),
            final(self).spec_width() == old(self).spec_width(),
            final(self).spec_height() == old(self).spec_height(),
            forall|n: int, j: int| 0 <= n < final(self).bytes().len() && 0 <= j < 8 ==>
                #[trigger] byte_bit(final(self).bytes()[n], j) == (byte_bit(old(self).bytes()[n], j)
                    != aligned_mask_bit(pattern as int, old(self).spec_width(), old(self).spec_height(), n as nat, j as nat)),
            forall|a: nat, b: nat| a < final(self).spec_width() && b < final(self).spec_height() ==>
                #[trigger] final(self).pixel(a, b) == (old(self).pixel(a, b)
                    != (mask_formula(pattern as int, a as int, b as int) == 0)),
    {
        let w = self.width;
        let h = self.height;
        let ghost start = self.bits@;
        let len = self.bits.len();
        let mut vec_index: usize = 0;
        while vec_index < len
            invariant
                self.wf(),
                pattern < 8,
                w == self.spec_width(),
                h == self.spec_height(),
                w * h + 2 <= usize::MAX,
                w + 7 <= usize::MAX,
                len == start.len() == self.bits@.len(),
                vec_index <= len,
                forall|n: int| vec_index <= n < len ==> self.bits@[n] == start[n],
                forall|n: int, j: int| 0 <= n < vec_index && 0 <= j < 8 ==>
                    #[trigger] byte_bit(self.bits@[n], j) == (byte_bit(start[n], j)
                        != aligned_mask_bit(pattern as int, w as nat, h as nat, n as nat, j as nat)),
            decreases len - vec_index,
        {
            let mut mask_byte = 0u8;
            let mut bit_index: u8 = 8;
            while bit_index > 0
                invariant
                    pattern < 8,
                    w >= 1,
                    w * h + 2 <= usize::MAX,
                    w + 7 <= usize::MAX,
                    bit_index <= 8,
                    forall|j: int| bit_index <= j < 8 ==>
                        #[trigger] byte_bit(mask_byte, j - bit_index) == aligned_mask_bit(pattern as int, w as nat, h as nat, vec_index as nat, j as nat),
                    bit_index == 8 ==> mask_byte == 0,
                decreases bit_index,
            {
                let ghost old_bi = bit_index;
                bit_index = bit_index - 1;
                let ghost prev = mask_byte;
                let mut flip = false;
                match crate::image::index_to_xy(vec_index, bit_index, w, h) {
                    Some((x, y)) => {
                        proof {
                            assert(x < w && y < h);
                            assert(x * y + x + y + 2 <= w * h + 2) by (nonlinear_arith)
                                requires x < w, y < h;
                        }
                        flip = pattern_value(pattern, x, y) == 0;
                    },
                    None => {},
                }
                mask_byte = (mask_byte << 1) | if flip { 1u8 } else { 0u8 };
                proof {
                    assert(flip == aligned_mask_bit(pattern as int, w as nat, h as nat, vec_index as nat, bit_index as nat));
                    assert forall|j: int| bit_index <= j < 8 implies
                        #[trigger] byte_bit(mask_byte, j - bit_index) == aligned_mask_bit(pattern as int, w as nat, h as nat, vec_index as nat, j as nat) by {
                        if j == bit_index {
                            lemma_shift_in(prev, flip, 0);
                        } else {
                            let t = (j - bit_index - 1) as u8;
                            assert(t as int == j - old_bi);
                            assert(byte_bit(prev, j - old_bi) == aligned_mask_bit(pattern as int, w as nat, h as nat, vec_index as nat, j as nat));
                            lemma_shift_in(prev, flip, t);
                            assert(t as int + 1 == j - bit_index);
                        }
                    }
                }
            }
            let ghost before = self.bits@;
            let nv = self.bits[vec_index] ^ mask_byte;
            self.bits.set(vec_index, nv);
            proof {
                assert forall|n: int, j: int| 0 <= n < vec_index + 1 && 0 <= j < 8 implies
                    #[trigger] byte_bit(self.bits@[n], j) == (byte_bit(start[n], j)
                        != aligned_mask_bit(pattern as int, w as nat, h as nat, n as nat, j as nat)) by {
                    if n == vec_index {
                        lemma_xor_bit(start[n], mask_byte, j as u8);
                        assert(byte_bit(mask_byte, j - 0) == aligned_mask_bit(pattern as int, w as nat, h as nat, n as nat, j as nat));
                        assert(j as u8 as int == j);
                    } else {
                        assert(self.bits@[n] == before[n]);
                    }
                }
            }
            vec_index = vec_index + 1;
        }
        proof {
            assert forall|a: nat, b: nat| a < w && b < h implies
                #[trigger] self.pixel(a, b) == (pixel_at(start, w as nat, a, b)
                    != (mask_formula(pattern as int, a as int, b as int) == 0)) by {
                crate::image::lemma_xy_index_roundtrip(a, b, w as nat, h as nat);
                let (n, j) = crate::image::spec_xy_to_index(a, b, w as nat, h as nat).unwrap();
                crate::image::lemma_index_in_bounds(a, b, w as nat, h as nat);
                assert(byte_bit(self.bits@[n as int], j as int) == (byte_bit(start[n as int], j as int)
                    != aligned_mask_bit(pattern as int, w as nat, h as nat, n as nat, j as nat)));
            }
        }
    }

    /// Flips every bit, the unused bits at the row ends too.
    pub fn invert(&mut self)
        ensures
            final(self).spec_width() == old(self).spec_width(),
            final(self).spec_height() == old(self).spec_height(),
            final(self).bytes().len() == old(self).bytes().len(),
            forall|k: int| 0 <= k < old(self).bytes().len()
                ==> #[trigger] final(self).bytes()[k] == old(self).bytes()[k] ^ 0xffu8,
    {
        let ghost before = self.bits@;
        let ghost dims = (self.width, self.height);
        let mut i: usize = 0;
        while i < self.bits.len()
            invariant
                (self.width, self.height) == dims,
                i <= self.bits@.len() == before.len(),
                forall|k: int| 0 <= k < i ==> #[trigger] self.bits@[k] == before[k] ^ 0xffu8,
                forall|k: int| i <= k < before.len() ==> #[trigger] self.bits@[k] == before[k],
            decreases before.len() - i,
        {
            let v = self.bits[i] ^ 0xff;
            self.bits.set(i, v);
            i = i + 1;
        }
    }

    /// Takes the bits of `pattern` where `mask` is clear and keeps its own
    /// where `mask` is set.
    pub fn mask_set(&mut self, pattern: &ImgRowAligned, mask: &ImgRowAligned)
        requires
            pattern.spec_width() == old(self).spec_width(),
            pattern.spec_height() == old(self).spec_height(),
            mask.spec_width() == old(self).spec_width(),
            mask.spec_height() == old(self).spec_height(),
            pattern.bytes().len() >= old(self).bytes().len(),
            mask.bytes().len() >= old(self).bytes().len(),
        ensures
            final(self).spec_width() == old(self).spec_width(),
            final(self).spec_height() == old(self).spec_height(),
            final(self).bytes().len() == old(self).bytes().len(),
            forall|k: int| 0 <= k < old(self).bytes().len() ==> #[trigger] final(self).bytes()[k]
                == (pattern.bytes()[k] & !mask.bytes()[k]) | (old(self).bytes()[k] & mask.bytes()[k]),
    {
        // images of different sizes cannot be combined
        assert(self.width == pattern.width && self.height == pattern.height);
        assert(self.width == mask.width && self.height == mask.height);
        let ghost before = self.bits@;
        let ghost dims = (self.width, self.height);
        let mut i: usize = 0;
        while i < self.bits.len()
            invariant
                (self.width, self.height) == dims,
                i <= self.bits@.len() == before.len(),
                pattern.bits@.len() >= before.len(),
                mask.bits@.len() >= before.len(),
                forall|k: int| 0 <= k < i ==> #[trigger] self.bits@[k]
                    == (pattern.bits@[k] & !mask.bits@[k]) | (before[k] & mask.bits@[k]),
                forall|k: int| i <= k < before.len() ==> #[trigger] self.bits@[k] == before[k],
            decreases before.len() - i,
        {
            let v = (pattern.bits[i] & !mask.bits[i]) | (self.bits[i] & mask.bits[i]);
            self.bits.set(i, v);
            i = i + 1;
        }
    }
}

/// Row `y` of an image `w` pixels wide as a number, its last pixel in the
/// lowest bit: the bytes of the row one after another (the bits pushed past
/// 128 are lost), shifted right past the unused bits of the last byte.
/// Nothing for a row outside the image.
pub open spec fn aligned_row(bytes: Seq<u8>, w: nat, h: nat, y: nat) -> Option<u128> {
    if y >= h {
        None
    } else {
        let n0 = y * row_bytes(w);
        let n1 = y * row_bytes(w) + (w - 1) / 8;
        Some(shift_in(0, bytes, n0 as int, n1 + 1) >> ((7 - (w - 1) % 8) as u128))
    }
}

proof fn lemma_shift_add(x: u128, b: u8)
    ensures
        (x << 8u128) + (b as u128) <= u128::MAX,
        ((x << 8u128) + (b as u128)) as u128 == (x << 8u128) | (b as u128),
{
    let c = b as u128;
    assert(c < 256);
    assert((x << 8u128) + c <= 0xffff_ffff_ffff_ffff_ffff_ffff_ffff_ffffu128
        && ((x << 8u128) + c) as u128 == (x << 8u128) | c) by (bit_vector)
        requires c < 256;
}

/// Bit `w - 1 - a` of row `y`, as `aligned_row` gives it, is pixel `(a, y)`
/// for a row of at most 128 pixels.
#[verifier::spinoff_prover]
#[verifier::rlimit(50)]
pub proof fn lemma_aligned_row_bit(bytes: Seq<u8>, w: nat, h: nat, y: nat, a: nat)
    requires
        1 <= w <= 128,
        y < h,
        a < w,
        bytes.len() >= h * row_bytes(w),
    ensures
        ((aligned_row(bytes, w, h, y)->0 >> ((w - (a + 1)) as usize)) & 1u128 == 1u128) == pixel_at(bytes, w, a, y),
{
    let rb = row_bytes(w);
    let m = ((w - 1) / 8) as int;
    let j = (a / 8) as int;
    let t = (a % 8) as int;
    assert(rb == m + 1);
    let n0 = y * rb;
    let n1 = y * rb + m;
    crate::image::lemma_index_in_bounds(a, y, w, h);
    crate::image::lemma_index_in_bounds((w - 1) as nat, y, w, h);
    let v = shift_in(0, bytes, n0 as int, n1 + 1);
    let be = (7 - (w - 1) % 8) as u128;
    let k = (w - (a + 1)) as usize;
    let q = k + be;
    assert(q == 8 * (m - j) + (7 - t));
    assert(q / 8 == m - j && q % 8 == 7 - t);
    assert(q < 128);
    assert(((v >> be) >> k) & 1u128 == (v >> ((k as u128 + be) as u128)) & 1u128) by (bit_vector)
        requires (k as u128) + be < 128, be < 8;
    lemma_shift_in_bit(0, bytes, n0 as int, n1 + 1, q as int);
    assert(n1 + 1 - 1 - q / 8 == y * rb + a / 8);
}

impl ImgRowAligned {
    /// Row `y` as a number (see `aligned_row`).
    pub fn get_row(&self, y: usize) -> (r: Option<u128>)
        requires
            self.wf(),
        ensures
            r == aligned_row(self.bytes(), self.spec_width(), self.spec_height(), y as nat),
    {
        if y >= self.height {
            return None;
        }
        let ghost w = self.width as nat;
        let ghost rb = row_bytes(w);
        proof {
            crate::image::lemma_index_in_bounds(0, y as nat, w, self.height as nat);
            crate::image::lemma_index_in_bounds((w - 1) as nat, y as nat, w, self.height as nat);
        }
        let len = self.bits.len();
        let mut output: u128 = 0;
        let (start, _) = xy_to_index(0, y, self.width, self.height).unwrap();
        let (end, shift) = xy_to_index(self.width - 1, y, self.width, self.height).unwrap();
        let mut i = start;
        while i <= end
            invariant
                start <= i <= end + 1,
                end < self.bits@.len() == len,
                output == shift_in(0, self.bits@, start as int, i as int),
            decreases end + 1 - i,
        {
            proof { lemma_shift_add(output, self.bits@[i as int]); }
            output <<= 8;
            output += self.bits[i] as u128;
            i = i + 1;
        }
        output >>= shift as u128;
        Some(output)
    }

    /// The same image with its pixels packed into one continuous run of bits.
    pub fn make_continuous(self) -> (r: Img)
        requires
            self.wf(),
            self.spec_width() % 8 == 0 || self.spec_width() <= 128,
            self.spec_width() * self.spec_height() <= usize::MAX,
        ensures
            r.wf(),
            r.spec_width() == self.spec_width(),
            r.spec_height() == self.spec_height(),
            self.spec_width() % 8 == 0 ==> r.bytes() == self.bytes(),
            self.spec_width() % 8 == 0 ==> forall|a: nat, b: nat| a < self.spec_width() && b < self.spec_height()
                ==> #[trigger] r.pixel(a, b) == self.pixel(a, b),
            self.spec_width() % 8 != 0 ==> forall|a: nat, b: nat| a < self.spec_width() && b < self.spec_height()
                ==> #[trigger] r.pixel(a, b) == ((aligned_row(self.bytes(), self.spec_width(), self.spec_height(), b)->0
                    >> ((self.spec_width() - (a + 1)) as usize)) & 1u128 == 1u128),
            forall|a: nat, b: nat| a < self.spec_width() && b < self.spec_height()
                ==> #[trigger] r.pixel(a, b) == self.pixel(a, b),
    {
        let (width, height) = self.dims();
        let ghost w = width as nat;
        let ghost h = height as nat;
        if self.width % 8 == 0 {
            proof {
                let k = w / 8;
                assert(row_bytes(w) == k);
                assert(w * h >= 8) by (nonlinear_arith) requires w >= 8, h >= 1;
                assert((w * h - 1) / 8 + 1 == h * k) by (nonlinear_arith) requires w == 8 * k, h >= 1, k >= 1;
                assert forall|a: nat, b: nat| a < w && b < h implies
                    #[trigger] crate::image_type::continuous::stream_bit(self.bits@, a + w * b) == self.pixel(a, b) by {
                    assert((a + w * b) / 8 == b * k + a / 8 && (a + w * b) % 8 == a % 8) by (nonlinear_arith)
                        requires w == 8 * k;
                }
            }
            return Img::from_parts(width, height, self.bits);
        }
        assert(h * row_bytes(w) <= w * h) by (nonlinear_arith) requires w >= 1, h >= 1;
        let mut output = Img::new(width, height);
        let mut y: usize = 0;
        while y < height
            invariant
                self.wf(),
                width == self.spec_width(),
                height == self.spec_height(),
                w == width,
                h == height,
                width <= 128,
                output.wf(),
                output.spec_width() == width,
                output.spec_height() == height,
                y <= height,
                forall|a: nat, b: nat| a < width && b < y ==> #[trigger] output.pixel(a, b)
                    == ((aligned_row(self.bytes(), w, h, b)->0 >> ((w - (a + 1)) as usize)) & 1u128 == 1u128),
            decreases height - y,
        {
            let row_read = self.get_row(y);
            let row = row_read.unwrap();
            let mut x: usize = 0;
            while x < width
                invariant
                    width == self.spec_width(),
                    height == self.spec_height(),
                    w == width,
                    h == height,
                    width <= 128,
                    y < height,
                    row == aligned_row(self.bytes(), w, h, y as nat)->0,
                    output.wf(),
                    output.spec_width() == width,
                    output.spec_height() == height,
                    x <= width,
                    forall|a: nat, b: nat| a < width && (b < y || (b == y && a < x)) ==> #[trigger] output.pixel(a, b)
                        == ((aligned_row(self.bytes(), w, h, b)->0 >> ((w - (a + 1)) as usize)) & 1u128 == 1u128),
                decreases width - x,
            {
                output.set_bit(x, y, (row >> (width - (x + 1))) & 1 == 1);
                x = x + 1;
            }
            y = y + 1;
        }
        proof {
            assert forall|a: nat, b: nat| a < w && b < h implies #[trigger] output.pixel(a, b) == self.pixel(a, b) by {
                lemma_aligned_row_bit(self.bytes(), w, h, b, a);
            }
        }
        output
    }
}

impl BitmapDebug for ImgRowAligned {
    open spec fn debug_view(&self) -> Seq<u8> {
        self.bytes()
    }

    open spec fn debug_index(&self, x: nat, y: nat) -> Option<(nat, nat)> {
        pixel_index(x, y, self.spec_width(), self.spec_height())
    }

    open spec fn debug_pixel(&self, n: nat, i: nat) -> Option<(nat, nat)> {
        crate::image::spec_index_to_xy(n, i, self.spec_width(), self.spec_height())
    }

    open spec fn debug_index_ok(&self, x: nat, y: nat) -> bool {
        x >= self.spec_width() || y >= self.spec_height() || y * row_bytes(self.spec_width()) + x / 8 <= usize::MAX
    }

    open spec fn debug_pixel_ok(&self, n: nat, i: nat) -> bool {
        i < 8 && self.spec_width() >= 1 && self.spec_width() + 7 <= usize::MAX
    }

    fn debug_bytes(&self) -> (r: &Vec<u8>) {
        &self.bits
    }

    fn debug_xy_to_index(&self, x: usize, y: usize) -> (r: Option<(usize, u8)>) {
        xy_to_index(x, y, self.width, self.height)
    }

    fn debug_index_to_xy(&self, vec_index: usize, bit_index: u8) -> (r: Option<(usize, usize)>) {
        crate::image::index_to_xy(vec_index, bit_index, self.width, self.height)
    }
}

impl Clone for ImgRowAligned {
    /// A copy, the unused bits included.
    fn clone(&self) -> (r: Self)
        ensures
            r.spec_width() == self.spec_width(),
            r.spec_height() == self.spec_height(),
            r.bytes() == self.bytes(),
    {
        ImgRowAligned { width: self.width, height: self.height, bits: self.bits.clone() }
    }
}

/// The message that reading an XBM file gives for each fault.
pub open spec fn fault_message(f: XbmFault) -> &'static str {
    match f {
        XbmFault::NoBrace => "could not split at {{",
        XbmFault::NoWidth => "width failed to parse",
        XbmFault::NoHeight => "height failed to parse",
        XbmFault::NotDefine => "dimension lines not starting with #define",
        XbmFault::NoWord => "something messed up??",
        XbmFault::BadNumber => "parse error",
        XbmFault::BadByte => "wuh",
    }
}

fn fault_text(f: XbmFault) -> (r: &'static str)
    ensures
        r@ == fault_message(f)@,
{
    match f {
        XbmFault::NoBrace => "could not split at {{",
        XbmFault::NoWidth => "width failed to parse",
        XbmFault::NoHeight => "height failed to parse",
        XbmFault::NotDefine => "dimension lines not starting with #define",
        XbmFault::NoWord => "something messed up??",
        XbmFault::BadNumber => "parse error",
        XbmFault::BadByte => "wuh",
    }
}

/// The text of byte `n` of the image data in this type's XBM output: a
/// line break and indent before every twelfth byte, the bit-reversed byte
/// in hexadecimal, then a comma, or the closing brace after the last byte.
pub open spec fn aligned_xbm_piece(bytes: Seq<u8>, n: int) -> Seq<char> {
    let v = reverse_byte(bytes[n]);
    (if n % 12 == 0 { seq!['\n', ' ', ' '] } else { Seq::empty() })
        + seq![' ', '0', 'x', hex_digit((v / 16) as int), hex_digit((v % 16) as int)]
        + (if n < bytes.len() - 1 { seq![','] } else { seq![' ', '}', ';', '\n'] })
}

/// The XBM text of the first `n` bytes of the image data.
pub open spec fn aligned_xbm_data(bytes: Seq<u8>, n: int) -> Seq<char>
    decreases n,
{
    if n <= 0 {
        Seq::empty()
    } else {
        aligned_xbm_data(bytes, n - 1) + aligned_xbm_piece(bytes, n - 1)
    }
}

/// The XBM file of an image named `name`, as `ImgRowAligned::as_xbm` writes it.
pub open spec fn aligned_xbm_text(name: Seq<char>, w: nat, h: nat, bytes: Seq<u8>) -> Seq<char> {
    seq!['#', 'd', 'e', 'f', 'i', 'n', 'e', ' '] + name + seq!['_', 'w', 'i', 'd', 't', 'h', ' '] + decimal(w) + seq!['\n']
        + seq!['#', 'd', 'e', 'f', 'i', 'n', 'e', ' '] + name + seq!['_', 'h', 'e', 'i', 'g', 'h', 't', ' '] + decimal(h) + seq!['\n']
        + seq!['s', 't', 'a', 't', 'i', 'c', ' ', 'u', 'n', 's', 'i', 'g', 'n', 'e', 'd', ' ', 'c', 'h', 'a', 'r', ' '] + name
        + seq!['_', 'b', 'i', 't', 's', '[', ']', ' ', '=', ' ', '{']
        + aligned_xbm_data(bytes, bytes.len() as int)
}

impl ImgRowAligned {
    /// Reads an XBM file. Every word of the image data must hold an `x`;
    /// `try_from_xbm` takes any text.
    pub fn from_xbm(input: &str) -> (r: Result<Self, &'static str>)
        requires
            !(read_xbm(input@) is Stuck),
        ensures
            match read_xbm(input@) {
                XbmRead::Image(w, h, b) => r matches Ok(img) && img.spec_width() == w
                    && img.spec_height() == h && img.bytes() == b,
                XbmRead::Fault(f) => r matches Err(m) && m@ == fault_message(f)@,
                XbmRead::Stuck => false,
            },
    {
        match scan_xbm(input) {
            XbmOutcome::Image(w, h, b) => Ok(ImgRowAligned { width: w, height: h, bits: b }),
            XbmOutcome::Fault(f) => Err(fault_text(f)),
            XbmOutcome::Stuck => {
                proof { assert(false); }
                Err(fault_text(XbmFault::BadByte))
            },
        }
    }

    /// Reads an XBM file as `from_xbm` does; nothing where a word of the
    /// image data has no `x`.
    pub fn try_from_xbm(input: &str) -> (r: Option<Result<Self, &'static str>>)
        ensures
            match read_xbm(input@) {
                XbmRead::Image(w, h, b) => r matches Some(Ok(img)) && img.spec_width() == w
                    && img.spec_height() == h && img.bytes() == b,
                XbmRead::Fault(f) => r matches Some(Err(m)) && m@ == fault_message(f)@,
                XbmRead::Stuck => r is None,
            },
    {
        match scan_xbm(input) {
            XbmOutcome::Stuck => None,
            _ => Some(Self::from_xbm(input)),
        }
    }

    /// The sample image of `XBM_EXAMPLE`, read as `from_xbm` reads it;
    /// nothing if the sample were not an image.
    pub fn from_xbm_debug() -> (r: Option<Self>)
        ensures
            match read_xbm(XBM_EXAMPLE@) {
                XbmRead::Image(w, h, b) => r matches Some(img) && img.spec_width() == w
                    && img.spec_height() == h && img.bytes() == b,
                _ => r is None,
            },
    {
        match Self::try_from_xbm(XBM_EXAMPLE) {
            Some(Ok(img)) => Some(img),
            _ => None,
        }
    }

    /// The image as an XBM file whose variables are named after `name`.
    pub fn as_xbm(&self, name: &str) -> (r: String)
        ensures
            r@ == aligned_xbm_text(name@, self.spec_width(), self.spec_height(), self.bytes()),
    {
        let mut out: Vec<char> = Vec::new();
        push_seq(&mut out, &['#', 'd', 'e', 'f', 'i', 'n', 'e', ' ']);
        push_all(&mut out, name);
        push_seq(&mut out, &['_', 'w', 'i', 'd', 't', 'h', ' ']);
        push_decimal(&mut out, self.width);
        push_seq(&mut out, &['\n', '#', 'd', 'e', 'f', 'i', 'n', 'e', ' ']);
        push_all(&mut out, name);
        push_seq(&mut out, &['_', 'h', 'e', 'i', 'g', 'h', 't', ' ']);
        push_decimal(&mut out, self.height);
        push_seq(&mut out, &['\n', 's', 't', 'a', 't', 'i', 'c', ' ', 'u', 'n', 's', 'i', 'g', 'n', 'e', 'd', ' ', 'c', 'h', 'a', 'r', ' ']);
        push_all(&mut out, name);
        push_seq(&mut out, &['_', 'b', 'i', 't', 's', '[', ']', ' ', '=', ' ', '{']);
        let ghost head = out@;
        let len = self.bits.len();
        let mut n: usize = 0;
        while n < len
            invariant
                len == self.bytes().len(),
                n <= len,
                out@ == head + aligned_xbm_data(self.bytes(), n as int),
            decreases len - n,
        {
            let ghost before = out@;
            let v = reverse_bits(self.bits[n]);
            if n % 12 == 0 {
                push_seq(&mut out, &['\n', ' ', ' ']);
            }
            push_seq(&mut out, &[' ', '0', 'x']);
            out.push(char_from_digit((v / 16) as u32));
            out.push(char_from_digit((v % 16) as u32));
            if n < len - 1 {
                out.push(',');
            } else {
                push_seq(&mut out, &[' ', '}', ';', '\n']);
            }
            proof {
                assert(out@ =~= before + aligned_xbm_piece(self.bytes(), n as int));
            }
            n = n + 1;
        }
        proof {
            assert(out@ =~= aligned_xbm_text(name@, self.spec_width(), self.spec_height(), self.bytes()));
        }
        string_from_chars(&out)
    }
}

/// Reading the first `n` bytes of the image data, as `as_xbm` writes them,
/// gives those bytes, with no word under way.
#[verifier::spinoff_prover]
#[verifier::rlimit(50)]
proof fn lemma_aligned_data_scan(bytes: Seq<u8>, n: int)
    requires
        0 <= n <= bytes.len(),
    ensures
        scan_bytes(aligned_xbm_data(bytes, n)) == (ByteScan::Bytes(bytes.subrange(0, n)), Seq::<char>::empty()),
    decreases n,
{
    let init = (ByteScan::Bytes(Seq::<u8>::empty()), Seq::<char>::empty());
    if n == 0 {
        assert(bytes.subrange(0, 0) =~= Seq::<u8>::empty());
    } else {
        lemma_aligned_data_scan(bytes, n - 1);
        let prev = aligned_xbm_data(bytes, n - 1);
        let v = reverse_byte(bytes[n - 1]);
        let pre: Seq<char> = if (n - 1) % 12 == 0 { seq!['\n', ' ', ' '] } else { Seq::empty() };
        let a = pre + seq![' '];
        let word = seq!['0', 'x', hex_digit((v / 16) as int), hex_digit((v % 16) as int)];
        let c0 = if n - 1 < bytes.len() - 1 { ',' } else { ' ' };
        let rest: Seq<char> = if n - 1 < bytes.len() - 1 { Seq::empty() } else { seq!['}', ';', '\n'] };
        let post = seq![c0] + rest;
        assert(aligned_xbm_piece(bytes, n - 1) =~= a + word + post);
        let st = scan_from(init, prev);
        assert(st == (ByteScan::Bytes(bytes.subrange(0, n - 1)), Seq::<char>::empty()));
        lemma_scan_concat(init, prev, a + word + post);
        lemma_scan_concat(st, a + word, post);
        lemma_scan_concat(st, a, word);
        lemma_scan_separators(st, a);
        lemma_hex_digit((v / 16) as int);
        lemma_hex_digit((v % 16) as int);
        lemma_scan_word(st, word);
        assert(st.1 + word =~= word);
        let st2 = (st.0, word);
        lemma_scan_concat(st2, seq![c0], rest);
        assert(seq![c0].drop_last() =~= Seq::<char>::empty());
        assert(seq![c0].last() == c0);
        assert(scan_from(st2, Seq::<char>::empty()) == st2);
        assert(scan_from(st2, seq![c0]) == scan_step(st2, c0));
        let st3 = (read_token(st2.0, word), Seq::<char>::empty());
        assert(scan_from(st2, seq![c0]) == st3);
        lemma_scan_separators(st3, rest);
        // the word reads as the byte
        lemma_trim_plain(word);
        assert(word =~= seq!['0'] + seq!['x'] + seq![hex_digit((v / 16) as int), hex_digit((v % 16) as int)]);
        lemma_find_first(seq!['0'], 'x', seq![hex_digit((v / 16) as int), hex_digit((v % 16) as int)]);
        lemma_hex_byte(v);
        lemma_reverse_twice(bytes[n - 1]);
        assert(bytes.subrange(0, n - 1).push(bytes[n - 1]) =~= bytes.subrange(0, n));
        assert(read_token(st2.0, word) == ByteScan::Bytes(bytes.subrange(0, n)));
        assert(prev + (a + word + post) =~= aligned_xbm_data(bytes, n));
    }
}

/// The image data as `as_xbm` writes it starts with a line break, three
/// spaces and `0`.
proof fn lemma_aligned_data_start(bytes: Seq<u8>, n: int)
    requires
        1 <= n <= bytes.len(),
    ensures
        aligned_xbm_data(bytes, n).len() >= 5,
        aligned_xbm_data(bytes, n).subrange(0, 5) == seq!['\n', ' ', ' ', ' ', '0'],
    decreases n,
{
    if n == 1 {
        assert(aligned_xbm_data(bytes, 0) =~= Seq::<char>::empty());
        assert(aligned_xbm_data(bytes, 1).subrange(0, 5) =~= seq!['\n', ' ', ' ', ' ', '0']);
    } else {
        lemma_aligned_data_start(bytes, n - 1);
        assert(aligned_xbm_data(bytes, n).subrange(0, 5) =~= aligned_xbm_data(bytes, n - 1).subrange(0, 5));
    }
}

/// A dimension line `head + " " + n`, where `head` starts with `#define`,
/// gives `n`.
proof fn lemma_dimension_line(head: Seq<char>, n: nat)
    requires
        n <= usize::MAX,
        head.len() >= 7,
        head.subrange(0, 7) == define_word(),
    ensures
        read_dimension(head + seq![' '] + decimal(n)) == Ok::<nat, XbmFault>(n),
{
    let d = decimal(n);
    let line = head + seq![' '] + d;
    lemma_decimal(n);
    assert forall|i: int| 0 <= i < d.len() implies !is_space(#[trigger] d[i]) by {
        assert(48 <= (d[i] as u32) <= 57);
    }
    assert(line.subrange(0, 7) =~= head.subrange(0, 7));
    assert(line[0] == head.subrange(0, 7)[0]);
    assert(line[line.len() - 1] == d[d.len() - 1]);
    lemma_trim_plain(line);
    assert(trim_end(line) == line);
    lemma_last_run(head, d);
}

/// Reading the image data that `as_xbm` writes gives the bytes.
#[verifier::spinoff_prover]
#[verifier::rlimit(50)]
proof fn lemma_aligned_data_read(bytes: Seq<u8>)
    ensures
        read_bytes(trim(aligned_xbm_data(bytes, bytes.len() as int))) == ByteScan::Bytes(bytes),
{
    let data = aligned_xbm_data(bytes, bytes.len() as int);
    let init = (ByteScan::Bytes(Seq::<u8>::empty()), Seq::<char>::empty());
    lemma_aligned_data_scan(bytes, bytes.len() as int);
    assert(bytes.subrange(0, bytes.len() as int) =~= bytes);
    if bytes.len() == 0 {
        assert(data =~= Seq::<char>::empty());
        assert(trim(data) =~= Seq::<char>::empty()) by {
            assert(trim_start(data) == data);
        }
        assert(scan_bytes(Seq::<char>::empty()) == init);
    } else {
        lemma_aligned_data_start(bytes, bytes.len() as int);
        let n = data.len();
        let last = bytes.len() - 1;
        let v = reverse_byte(bytes[last]);
        let pre: Seq<char> = if last % 12 == 0 { seq!['\n', ' ', ' '] } else { Seq::empty() };
        let piece = aligned_xbm_piece(bytes, last);
        assert(piece =~= pre + seq![' ', '0', 'x', hex_digit((v / 16) as int), hex_digit((v % 16) as int)]
            + seq![' ', '}', ';', '\n']);
        assert(data == aligned_xbm_data(bytes, last) + piece);
        assert(data[n - 1] == '\n');
        assert(data[n - 2] == ';');
        let t = data.subrange(4, n - 1);
        assert(data.subrange(0, 5)[0] == data[0]);
        assert(data.subrange(0, 5)[1] == data[1]);
        assert(data.subrange(0, 5)[2] == data[2]);
        assert(data.subrange(0, 5)[3] == data[3]);
        assert(data.subrange(0, 5)[4] == data[4]);
        assert(n >= 6);
        assert(data[0] == '\n' && data[1] == ' ' && data[2] == ' ' && data[3] == ' ' && data[4] == '0');
        let d1 = data.subrange(1, n as int);
        let d2 = data.subrange(2, n as int);
        let d3 = data.subrange(3, n as int);
        let d4 = data.subrange(4, n as int);
        assert(data.drop_first() =~= d1);
        assert(d1.drop_first() =~= d2);
        assert(d2.drop_first() =~= d3);
        assert(d3.drop_first() =~= d4);
        assert(d1[0] == data[1] && d2[0] == data[2] && d3[0] == data[3] && d4[0] == data[4]);
        assert(trim_start(d4) == d4);
        assert(trim_start(d3) == trim_start(d4));
        assert(trim_start(d2) == trim_start(d3));
        assert(trim_start(d1) == trim_start(d2));
        assert(trim_start(data) == trim_start(d1));
        assert(d4.drop_last() =~= t);
        assert(d4.last() == data[n - 1]);
        assert(t.last() == data[n - 2]);
        assert(trim_end(t) == t);
        assert(trim_end(d4) == t);
        let h4 = seq!['\n', ' ', ' ', ' '];
        assert(data =~= h4 + t + seq!['\n']);
        lemma_scan_separators(init, h4);
        lemma_scan_concat(init, h4, t);
        assert(Seq::<char>::empty() + t =~= t);
        lemma_scan_concat(init, Seq::<char>::empty(), t);
        assert((h4 + t + seq!['\n']).drop_last() =~= h4 + t);
        assert(scan_bytes(data) == scan_step(scan_bytes(h4 + t), '\n'));
    }
}

/// The lines of an XBM file before the `{` that opens the image data.
pub open spec fn xbm_head(name: Seq<char>, w: nat, h: nat) -> Seq<char> {
    seq!['#', 'd', 'e', 'f', 'i', 'n', 'e', ' '] + name + seq!['_', 'w', 'i', 'd', 't', 'h', ' '] + decimal(w) + seq!['\n']
        + seq!['#', 'd', 'e', 'f', 'i', 'n', 'e', ' '] + name + seq!['_', 'h', 'e', 'i', 'g', 'h', 't', ' '] + decimal(h) + seq!['\n']
        + seq!['s', 't', 'a', 't', 'i', 'c', ' ', 'u', 'n', 's', 'i', 'g', 'n', 'e', 'd', ' ', 'c', 'h', 'a', 'r', ' '] + name
        + seq!['_', 'b', 'i', 't', 's', '[', ']', ' ', '=', ' ']
}

/// An XBM file with the usual head reads as its size and whatever its image
/// data reads as, for a name without `{` or line feed.
#[verifier::spinoff_prover]
#[verifier::rlimit(60)]
proof fn lemma_xbm_head(name: Seq<char>, w: nat, h: nat, data: Seq<char>)
    requires
        w <= usize::MAX,
        h <= usize::MAX,
        no_char(name, '{'),
        no_char(name, '\n'),
    ensures
        read_xbm(xbm_head(name, w, h) + seq!['{'] + data) == match read_bytes(trim(data)) {
            ByteScan::Bytes(b) => XbmRead::Image(w, h, b),
            ByteScan::Bad => XbmRead::Fault(XbmFault::BadByte),
            ByteScan::Stuck => XbmRead::Stuck,
        },
{
    let def = seq!['#', 'd', 'e', 'f', 'i', 'n', 'e', ' '];
    let wid = def + name + seq!['_', 'w', 'i', 'd', 't', 'h'];
    let hei = def + name + seq!['_', 'h', 'e', 'i', 'g', 'h', 't'];
    let l1 = wid + seq![' '] + decimal(w);
    let l2 = hei + seq![' '] + decimal(h);
    let l3 = seq!['s', 't', 'a', 't', 'i', 'c', ' ', 'u', 'n', 's', 'i', 'g', 'n', 'e', 'd', ' ', 'c', 'h', 'a', 'r', ' '] + name
        + seq!['_', 'b', 'i', 't', 's', '[', ']', ' ', '=', ' '];
    let rest = l2 + seq!['\n'] + l3;
    let prefix = l1 + seq!['\n'] + rest;
    assert(xbm_head(name, w, h) =~= prefix);
    lemma_decimal(w);
    lemma_decimal(h);
    let dw = decimal(w);
    let dh = decimal(h);
    assert(no_char(dw, '{') && no_char(dw, '\n') && no_char(dh, '{') && no_char(dh, '\n')) by {
        assert forall|i: int| 0 <= i < dw.len() implies #[trigger] dw[i] != '{' && dw[i] != '\n' by {
            assert(48 <= (dw[i] as u32) <= 57);
        }
        assert forall|i: int| 0 <= i < dh.len() implies #[trigger] dh[i] != '{' && dh[i] != '\n' by {
            assert(48 <= (dh[i] as u32) <= 57);
        }
    }
    lemma_no_char_concat(def, name, '{');
    lemma_no_char_concat(def + name, seq!['_', 'w', 'i', 'd', 't', 'h', ' '], '{');
    lemma_no_char_concat(def + name + seq!['_', 'w', 'i', 'd', 't', 'h', ' '], dw, '{');
    assert(wid + seq![' '] =~= def + name + seq!['_', 'w', 'i', 'd', 't', 'h', ' ']);
    lemma_no_char_concat(def, name, '\n');
    lemma_no_char_concat(def + name, seq!['_', 'w', 'i', 'd', 't', 'h', ' '], '\n');
    lemma_no_char_concat(def + name + seq!['_', 'w', 'i', 'd', 't', 'h', ' '], dw, '\n');
    lemma_no_char_concat(def + name, seq!['_', 'h', 'e', 'i', 'g', 'h', 't', ' '], '{');
    lemma_no_char_concat(def + name + seq!['_', 'h', 'e', 'i', 'g', 'h', 't', ' '], dh, '{');
    assert(hei + seq![' '] =~= def + name + seq!['_', 'h', 'e', 'i', 'g', 'h', 't', ' ']);
    lemma_no_char_concat(def + name, seq!['_', 'h', 'e', 'i', 'g', 'h', 't', ' '], '\n');
    lemma_no_char_concat(def + name + seq!['_', 'h', 'e', 'i', 'g', 'h', 't', ' '], dh, '\n');
    let st = seq!['s', 't', 'a', 't', 'i', 'c', ' ', 'u', 'n', 's', 'i', 'g', 'n', 'e', 'd', ' ', 'c', 'h', 'a', 'r', ' '];
    lemma_no_char_concat(st, name, '{');
    lemma_no_char_concat(st + name, seq!['_', 'b', 'i', 't', 's', '[', ']', ' ', '=', ' '], '{');
    lemma_no_char_concat(l1, seq!['\n'], '{');
    lemma_no_char_concat(l1 + seq!['\n'], l2, '{');
    lemma_no_char_concat(l1 + seq!['\n'] + l2, seq!['\n'], '{');
    lemma_no_char_concat(l1 + seq!['\n'] + l2 + seq!['\n'], l3, '{');
    assert(prefix =~= l1 + seq!['\n'] + l2 + seq!['\n'] + l3);
    // the first `{` opens the data, and the lines before it give the size
    lemma_find_first(prefix, '{', data);
    lemma_find_first(l1, '\n', rest);
    assert(l1.last() == dw[dw.len() - 1]);
    assert(next_line(prefix) == Some((l1, rest)));
    lemma_find_first(l2, '\n', l3);
    assert(l2.last() == dh[dh.len() - 1]);
    assert(next_line(rest) == Some((l2, l3)));
    assert(wid.subrange(0, 7) =~= define_word());
    assert(hei.subrange(0, 7) =~= define_word());
    lemma_dimension_line(wid, w);
    lemma_dimension_line(hei, h);
}

/// Reading an XBM file that `ImgRowAligned::as_xbm` wrote gives back the
/// size and the bytes of the image, for a name without `{` or line feed.
pub proof fn lemma_xbm_roundtrip(name: Seq<char>, w: nat, h: nat, bytes: Seq<u8>)
    requires
        w <= usize::MAX,
        h <= usize::MAX,
        no_char(name, '{'),
        no_char(name, '\n'),
    ensures
        read_xbm(aligned_xbm_text(name, w, h, bytes)) == XbmRead::Image(w, h, bytes),
{
    let data = aligned_xbm_data(bytes, bytes.len() as int);
    assert(aligned_xbm_text(name, w, h, bytes) =~= xbm_head(name, w, h) + seq!['{'] + data);
    lemma_xbm_head(name, w, h, data);
    lemma_aligned_data_read(bytes);
}

/// What `ImgRowAligned::as_xbm` writes for an image, under a name without
/// `{` or line feed, meets the `requires` of `ImgRowAligned::from_xbm`,
/// which reads it back as an image of the same size and bytes.
pub proof fn lemma_from_xbm_of_as_xbm(img: ImgRowAligned, name: Seq<char>, text: Seq<char>)
    requires
        no_char(name, '{'),
        no_char(name, '\n'),
        text == aligned_xbm_text(name, img.spec_width(), img.spec_height(), img.bytes()),
    ensures
        !(read_xbm(text) is Stuck),
        read_xbm(text) == XbmRead::Image(img.spec_width(), img.spec_height(), img.bytes()),
{
    lemma_xbm_roundtrip(name, img.spec_width(), img.spec_height(), img.bytes());
}

/// Reading the first `n` bytes of the image data, as `Bitmap::as_xbm`
/// writes them, gives those bytes, with no word under way.
#[verifier::spinoff_prover]
#[verifier::rlimit(50)]
proof fn lemma_bitmap_data_scan(bytes: Seq<u8>, n: int)
    requires
        0 <= n <= bytes.len(),
    ensures
        scan_bytes(xbm_data(bytes, n)) == (ByteScan::Bytes(bytes.subrange(0, n)), Seq::<char>::empty()),
    decreases n,
{
    let init = (ByteScan::Bytes(Seq::<u8>::empty()), Seq::<char>::empty());
    if n == 0 {
        assert(bytes.subrange(0, 0) =~= Seq::<u8>::empty());
    } else {
        lemma_bitmap_data_scan(bytes, n - 1);
        let prev = xbm_data(bytes, n - 1);
        let v = reverse_byte(bytes[n - 1]);
        let a: Seq<char> = if (n - 1) % 12 == 0 { seq![' ', ' ', ' ', ' '] } else { Seq::empty() };
        let word = seq!['0', 'x', hex_digit((v / 16) as int), hex_digit((v % 16) as int)];
        let rest: Seq<char> = if (n - 1) % 12 == 11 || n - 1 == bytes.len() - 1 { seq!['\n'] } else { seq![' '] };
        let post = seq![','] + rest;
        assert(xbm_piece(bytes, n - 1) =~= a + word + post);
        let st = scan_from(init, prev);
        assert(st == (ByteScan::Bytes(bytes.subrange(0, n - 1)), Seq::<char>::empty()));
        lemma_scan_concat(init, prev, a + word + post);
        lemma_scan_concat(st, a + word, post);
        lemma_scan_concat(st, a, word);
        lemma_scan_separators(st, a);
        lemma_hex_digit((v / 16) as int);
        lemma_hex_digit((v % 16) as int);
        lemma_scan_word(st, word);
        assert(st.1 + word =~= word);
        let st2 = (st.0, word);
        lemma_scan_concat(st2, seq![','], rest);
        assert(seq![','].drop_last() =~= Seq::<char>::empty());
        assert(seq![','].last() == ',');
        assert(scan_from(st2, Seq::<char>::empty()) == st2);
        assert(scan_from(st2, seq![',']) == scan_step(st2, ','));
        let st3 = (read_token(st2.0, word), Seq::<char>::empty());
        assert(scan_from(st2, seq![',']) == st3);
        lemma_scan_separators(st3, rest);
        lemma_trim_plain(word);
        assert(word =~= seq!['0'] + seq!['x'] + seq![hex_digit((v / 16) as int), hex_digit((v % 16) as int)]);
        lemma_find_first(seq!['0'], 'x', seq![hex_digit((v / 16) as int), hex_digit((v % 16) as int)]);
        lemma_hex_byte(v);
        lemma_reverse_twice(bytes[n - 1]);
        assert(bytes.subrange(0, n - 1).push(bytes[n - 1]) =~= bytes.subrange(0, n));
        assert(read_token(st2.0, word) == ByteScan::Bytes(bytes.subrange(0, n)));
        assert(prev + (a + word + post) =~= xbm_data(bytes, n));
    }
}

/// The image data as `Bitmap::as_xbm` writes it starts with four spaces
/// and `0`.
proof fn lemma_bitmap_data_start(bytes: Seq<u8>, n: int)
    requires
        1 <= n <= bytes.len(),
    ensures
        xbm_data(bytes, n).len() >= 5,
        xbm_data(bytes, n).subrange(0, 5) == seq![' ', ' ', ' ', ' ', '0'],
    decreases n,
{
    if n == 1 {
        assert(xbm_data(bytes, 0) =~= Seq::<char>::empty());
        assert(xbm_data(bytes, 1).subrange(0, 5) =~= seq![' ', ' ', ' ', ' ', '0']);
    } else {
        lemma_bitmap_data_start(bytes, n - 1);
        assert(xbm_data(bytes, n).subrange(0, 5) =~= xbm_data(bytes, n - 1).subrange(0, 5));
    }
}

/// Reading the image data that `Bitmap::as_xbm` writes gives the bytes.
#[verifier::spinoff_prover]
#[verifier::rlimit(50)]
proof fn lemma_bitmap_data_read(bytes: Seq<u8>)
    ensures
        read_bytes(trim(seq!['\n'] + xbm_data(bytes, bytes.len() as int) + seq!['}', ';', '\n'])) == ByteScan::Bytes(bytes),
{
    let x = xbm_data(bytes, bytes.len() as int);
    let data = seq!['\n'] + x + seq!['}', ';', '\n'];
    let init = (ByteScan::Bytes(Seq::<u8>::empty()), Seq::<char>::empty());
    lemma_bitmap_data_scan(bytes, bytes.len() as int);
    assert(bytes.subrange(0, bytes.len() as int) =~= bytes);
    let n = data.len();
    assert(data[n - 1] == '\n');
    assert(data[n - 2] == ';');
    assert(data[n - 3] == '}');
    // the whole data reads as the bytes
    lemma_scan_concat(init, seq!['\n'] + x, seq!['}', ';', '\n']);
    lemma_scan_concat(init, seq!['\n'], x);
    lemma_scan_separators(init, seq!['\n']);
    lemma_scan_separators(scan_bytes(x), seq!['}', ';', '\n']);
    assert(scan_bytes(data).0 == ByteScan::Bytes(bytes));
    if bytes.len() == 0 {
        assert(x =~= Seq::<char>::empty());
        let d1 = data.subrange(1, n as int);
        assert(data.drop_first() =~= d1);
        assert(d1[0] == '}');
        assert(trim_start(d1) == d1);
        assert(trim_start(data) == d1);
        let t = seq!['}', ';'];
        assert(d1.drop_last() =~= t);
        assert(trim_end(t) == t);
        assert(trim(data) == t);
        lemma_scan_separators(init, t);
        assert(data =~= seq!['\n'] + t + seq!['\n']);
    } else {
        lemma_bitmap_data_start(bytes, bytes.len() as int);
        assert(x.subrange(0, 5)[4] == x[4]);
        assert(x.subrange(0, 5)[0] == x[0] && x.subrange(0, 5)[1] == x[1]);
        assert(x.subrange(0, 5)[2] == x[2] && x.subrange(0, 5)[3] == x[3]);
        assert(data[0] == '\n' && data[1] == ' ' && data[2] == ' ' && data[3] == ' ' && data[4] == ' ' && data[5] == '0');
        let d1 = data.subrange(1, n as int);
        let d2 = data.subrange(2, n as int);
        let d3 = data.subrange(3, n as int);
        let d4 = data.subrange(4, n as int);
        let d5 = data.subrange(5, n as int);
        assert(data.drop_first() =~= d1);
        assert(d1.drop_first() =~= d2);
        assert(d2.drop_first() =~= d3);
        assert(d3.drop_first() =~= d4);
        assert(d4.drop_first() =~= d5);
        assert(d1[0] == data[1] && d2[0] == data[2] && d3[0] == data[3] && d4[0] == data[4] && d5[0] == data[5]);
        assert(trim_start(d5) == d5);
        assert(trim_start(d4) == trim_start(d5));
        assert(trim_start(d3) == trim_start(d4));
        assert(trim_start(d2) == trim_start(d3));
        assert(trim_start(d1) == trim_start(d2));
        assert(trim_start(data) == trim_start(d1));
        let t = data.subrange(5, n - 1);
        assert(d5.drop_last() =~= t);
        assert(d5.last() == data[n - 1]);
        assert(t.last() == data[n - 2]);
        assert(trim_end(t) == t);
        assert(trim_end(d5) == t);
        let h5 = seq!['\n', ' ', ' ', ' ', ' '];
        assert(data =~= h5 + t + seq!['\n']);
        lemma_scan_separators(init, h5);
        lemma_scan_concat(init, h5, t);
        assert(Seq::<char>::empty() + t =~= t);
        lemma_scan_concat(init, Seq::<char>::empty(), t);
        assert((h5 + t + seq!['\n']).drop_last() =~= h5 + t);
        assert(scan_bytes(data) == scan_step(scan_bytes(h5 + t), '\n'));
    }
}

/// Reading an XBM file that `Bitmap::as_xbm` wrote gives back the size and
/// the bytes of the bitmap, for a name without `{` or line feed.
pub proof fn lemma_bitmap_xbm_roundtrip(name: Seq<char>, w: nat, h: nat, bytes: Seq<u8>)
    requires
        w <= usize::MAX,
        h <= usize::MAX,
        no_char(name, '{'),
        no_char(name, '\n'),
    ensures
        read_xbm(xbm_text(name, w, h, bytes)) == XbmRead::Image(w, h, bytes),
{
    let data = seq!['\n'] + xbm_data(bytes, bytes.len() as int) + seq!['}', ';', '\n'];
    assert(xbm_text(name, w, h, bytes) =~= xbm_head(name, w, h) + seq!['{'] + data);
    lemma_xbm_head(name, w, h, data);
    lemma_bitmap_data_read(bytes);
}

/// `s` holds no `c`.
pub open spec fn no_char(s: Seq<char>, c: char) -> bool {
    forall|i: int| 0 <= i < s.len() ==> #[trigger] s[i] != c
}

proof fn lemma_no_char_concat(a: Seq<char>, b: Seq<char>, c: char)
    requires
        no_char(a, c),
        no_char(b, c),
    ensures
        no_char(a + b, c),
{
    assert forall|i: int| 0 <= i < (a + b).len() implies #[trigger] (a + b)[i] != c by {
        if i < a.len() {
            assert((a + b)[i] == a[i]);
        } else {
            assert((a + b)[i] == b[i - a.len()]);
        }
    }
}

} // verus!
