//! Images packed into one continuous run of bits, row after row, with no
//! gap between rows; the first pixel is the highest bit of the first byte.
use vstd::prelude::*;
use crate::image::{byte_bit, lemma_byte_set, row_bytes};
use crate::qr_standard::{lemma_shift_in, lemma_xor_bit, mask_formula};
use crate::image_type::rowaligned::ImgRowAligned;
use crate::image_type::BitmapDebug;

verus! {

/// Bit `p` of the run of bits that `bytes` hold.
pub open spec fn stream_bit(bytes: Seq<u8>, p: nat) -> bool {
    byte_bit(bytes[(p / 8) as int], 7 - p % 8)
}

/// Where pixel `(x, y)` of a `w` by `h` image lies: bit `i` of byte `n`.
pub open spec fn stream_index(x: nat, y: nat, w: nat, h: nat) -> Option<(nat, nat)> {
    if x >= w || y >= h {
        None
    } else {
        Some((((x + w * y) / 8) as nat, (7 - (x + w * y) % 8) as nat))
    }
}

/// The pixel that bit `i` of byte `n` holds, if it holds one.
pub open spec fn stream_xy(n: nat, i: nat, w: nat, h: nat) -> Option<(nat, nat)> {
    let p = (n * 8 + (7 - i)) as nat;
    if p / w >= h {
        None
    } else {
        Some((p % w, p / w))
    }
}

/// The number of bytes that hold `w` by `h` pixels.
pub open spec fn stream_len(w: nat, h: nat) -> nat {
    ((w * h - 1) / 8 + 1) as nat
}

/// Converts pixel coordinates to byte and bit indices.
pub fn xy_to_index(x: usize, y: usize, w: usize, h: usize) -> (r: Option<(usize, u8)>)
    requires
        x >= w || y >= h || x + w * y <= usize::MAX,
    ensures
        match stream_index(x as nat, y as nat, w as nat, h as nat) {
            Some((n, i)) => r == Some((n as usize, i as u8)),
            None => r is None,
        },
{
    if x >= w || y >= h {
        return None;
    }
    let bit = x + w * y;
    Some((bit / 8, (7 - (bit % 8)) as u8))
}

/// The pixel that bit `bit_index` of byte `vec_index` holds, if it holds one.
pub fn index_to_xy(vec_index: usize, bit_index: u8, w: usize, h: usize) -> (r: Option<(usize, usize)>)
    requires
        bit_index < 8,
        w >= 1,
        vec_index * 8 + 7 <= usize::MAX,
    ensures
        match stream_xy(vec_index as nat, bit_index as nat, w as nat, h as nat) {
            Some((x, y)) => r == Some((x as usize, y as usize)),
            None => r is None,
        },
{
    let bit = (vec_index * 8) + (7 - bit_index) as usize;
    let x = bit % w;
    assert(x <= bit) by (nonlinear_arith) requires x == bit % w, w >= 1;
    assert(((bit - x) as int) / (w as int) == (bit as int) / (w as int)) by (nonlinear_arith)
        requires x == bit % w, w >= 1;
    let y = (bit - x) / w;
    if y >= h {
        None
    } else {
        Some((x, y))
    }
}

/// Pixel positions in the run of bits are distinct for distinct pixels.
proof fn lemma_stream_pos(a: nat, b: nat, x: nat, y: nat, w: nat)
    requires
        a < w,
        x < w,
        a + w * b == x + w * y,
    ensures
        a == x,
        b == y,
{
    assert(a == x && b == y) by (nonlinear_arith)
        requires a < w, x < w, a + w * b == x + w * y;
}

/// The pixel positions of a `w` by `h` image lie in its bytes.
proof fn lemma_stream_bound(x: nat, y: nat, w: nat, h: nat)
    requires
        x < w,
        y < h,
    ensures
        x + w * y <= w * h - 1,
        (x + w * y) / 8 < stream_len(w, h),
{
    assert(x + w * y <= w * h - 1) by (nonlinear_arith)
        requires x < w, y < h;
}

/// Shifts the bytes `bytes[a..b]` into `acc`, one after another, from the
/// low end (bits pushed past the top are lost).
pub open spec fn shift_in(acc: u128, bytes: Seq<u8>, a: int, b: int) -> u128
    decreases b - a,
{
    if b <= a {
        acc
    } else {
        (shift_in(acc, bytes, a, b - 1) << 8u128) | (bytes[b - 1] as u128)
    }
}

/// Bit `q` of `x`.
pub open spec fn bit128(x: u128, q: int) -> bool {
    (x >> (q as u128)) & 1u128 == 1u128
}

proof fn lemma_bit_low(s: u128, b: u8, q: int)
    requires
        0 <= q < 8,
    ensures
        bit128((s << 8u128) | (b as u128), q) == byte_bit(b, q),
{
    let bb = b as u128;
    let qq = q as u128;
    let q8 = q as u8;
    assert(bb < 256);
    assert(((((s << 8u128) | bb) >> qq) & 1u128 == 1u128) == ((b >> q8) & 1u8 == 1u8)) by (bit_vector)
        requires bb == b as u128, qq == q8 as u128, q8 < 8;
}

proof fn lemma_bit_high(s: u128, b: u8, q: int)
    requires
        8 <= q < 128,
    ensures
        bit128((s << 8u128) | (b as u128), q) == bit128(s, q - 8),
{
    let bb = b as u128;
    let qq = q as u128;
    assert(bb < 256);
    assert((((s << 8u128) | bb) >> qq) & 1u128 == (s >> ((qq - 8) as u128)) & 1u128) by (bit_vector)
        requires bb < 256, 8 <= qq < 128;
}

/// Bit `q` of the bytes `bytes[lo..hi]` shifted into `acc`: a bit of one
/// of the bytes, the last byte lowest, or a bit of `acc` above them.
pub proof fn lemma_shift_in_bit(acc: u128, bytes: Seq<u8>, lo: int, hi: int, q: int)
    requires
        0 <= lo <= hi <= bytes.len(),
        0 <= q < 128,
    ensures
        bit128(shift_in(acc, bytes, lo, hi), q) == if q < 8 * (hi - lo) {
            byte_bit(bytes[hi - 1 - q / 8], q % 8)
        } else {
            bit128(acc, q - 8 * (hi - lo))
        },
    decreases hi - lo,
{
    if hi > lo {
        let s = shift_in(acc, bytes, lo, hi - 1);
        if q < 8 {
            lemma_bit_low(s, bytes[hi - 1], q);
        } else {
            lemma_bit_high(s, bytes[hi - 1], q);
            lemma_shift_in_bit(acc, bytes, lo, hi - 1, q - 8);
            assert((q - 8) / 8 == q / 8 - 1 && (q - 8) % 8 == q % 8);
        }
    }
}

/// Row `y` of a `w` by `h` image as a number, its last pixel in the lowest
/// bit; nothing for a row wider than 128 pixels or outside the image. The
/// row is cut out of the bytes that hold it; where it lies inside one byte,
/// the pixels before it in that byte come along in the higher bits.
pub open spec fn stream_row(bytes: Seq<u8>, w: nat, h: nat, y: nat) -> Option<u128> {
    if w > 128 || y >= h {
        None
    } else {
        let s = w * y;
        let e = (w * y + w - 1) as nat;
        let vs = s / 8;
        let bs = (7 - s % 8) as u8;
        let ve = e / 8;
        let be = (7 - e % 8) as u8;
        let last = bytes[ve as int] >> be;
        if vs == ve {
            Some(last as u128)
        } else {
            let first = ((bytes[vs as int] << ((7 - bs) as u8)) as u8) >> ((7 - bs) as u8);
            Some((shift_in(first as u128, bytes, (vs + 1) as int, ve as int) << ((8 - be) as u8)) | (last as u128))
        }
    }
}

proof fn lemma_last_bits(b: u8, be: u8, k: u128)
    requires
        be < 8,
        k + (be as u128) < 8,
    ensures
        bit128((b >> be) as u128, k as int) == byte_bit(b, k + be),
{
    let kk = (k + (be as u128)) as u8;
    assert(((((b >> be) as u128) >> k) & 1u128 == 1u128) == ((b >> kk) & 1u8 == 1u8)) by (bit_vector)
        requires be < 8, k + (be as u128) < 8, kk as u128 == k + (be as u128);
}

proof fn lemma_join_bits(top: u128, low: u8, be: u8, k: u128)
    requires
        be < 8,
        k < 128,
    ensures
        k < 8 - be ==> bit128((top << ((8 - be) as u8)) | ((low >> be) as u128), k as int) == bit128((low >> be) as u128, k as int),
        k >= 8 - be ==> bit128((top << ((8 - be) as u8)) | ((low >> be) as u128), k as int) == bit128(top, k - (8 - be)),
{
    let l = (8 - be) as u8;
    assert((k < (l as u128) ==> ((((top << l) | ((low >> be) as u128)) >> k) & 1u128 == 1u128)
        == (((((low >> be) as u128) >> k) & 1u128) == 1u128))
        && (k >= (l as u128) ==> ((((top << l) | ((low >> be) as u128)) >> k) & 1u128 == 1u128)
        == (((top >> ((k - (l as u128)) as u128)) & 1u128) == 1u128))) by (bit_vector)
        requires be < 8, k < 128, l == 8 - be;
}

proof fn lemma_first_bits(b: u8, c: u8, d: u128)
    requires
        c < 8,
        d + (c as u128) <= 7,
    ensures
        bit128((((b << c) as u8) >> c) as u128, d as int) == byte_bit(b, d as int),
{
    let dd = d as u8;
    assert(((((((b << c) as u8) >> c) as u128) >> d) & 1u128 == 1u128) == ((b >> dd) & 1u8 == 1u8)) by (bit_vector)
        requires c < 8, d + (c as u128) <= 7, dd as u128 == d;
}

/// Where pixel `a` of a row that starts at bit `s` lies, for a pixel in the
/// last byte of the row.
proof fn lemma_row_last_byte(s: int, w: int, a: int)
    requires
        s >= 0,
        1 <= w,
        0 <= a < w,
        (w - 1 - a) < 8 - (7 - (s + w - 1) % 8),
    ensures
        (s + a) / 8 == (s + w - 1) / 8,
        7 - (s + a) % 8 == (w - 1 - a) + (7 - (s + w - 1) % 8),
{
}

/// Where pixel `a` of a row that starts at bit `s` lies, for a pixel before
/// the last byte of the row, `d` bits above it.
proof fn lemma_row_middle_bytes(s: int, w: int, a: int, d: int)
    requires
        s >= 0,
        1 <= w,
        0 <= a < w,
        d == (w - 1 - a) - (8 - (7 - (s + w - 1) % 8)),
        d >= 0,
    ensures
        (s + a) == 8 * ((s + w - 1) / 8 - 1) + 7 - d,
{
}

/// Where pixel `a` of a row that starts at bit `s` lies, for a pixel in the
/// first byte of the row, `d2` bits above the rest.
proof fn lemma_row_first_byte(s: int, w: int, a: int, d2: int)
    requires
        s >= 0,
        1 <= w,
        0 <= a < w,
        0 <= d2,
        s + a == 8 * (s / 8) + 7 - d2,
    ensures
        d2 <= 7 - s % 8,
        (s + a) / 8 == s / 8,
        7 - (s + a) % 8 == d2,
{
}

/// Bit `w - 1 - a` of row `y`, as `stream_row` gives it, is pixel `(a, y)`
/// for a row of at most 128 pixels.
#[verifier::spinoff_prover]
#[verifier::rlimit(50)]
pub proof fn lemma_stream_row_bit(bytes: Seq<u8>, w: nat, h: nat, y: nat, a: nat)
    requires
        1 <= w <= 128,
        y < h,
        a < w,
        w * h <= usize::MAX,
        bytes.len() >= stream_len(w, h),
    ensures
        ((stream_row(bytes, w, h, y)->0 >> ((w - (a + 1)) as usize)) & 1u128 == 1u128) == stream_bit(bytes, a + w * y),
{
    lemma_stream_bound((w - 1) as nat, y, w, h);
    let s = w * y;
    let e = (w * y + w - 1) as nat;
    let vs = s / 8;
    let bs = (7 - s % 8) as u8;
    let ve = e / 8;
    let be = (7 - e % 8) as u8;
    let k = (w - (a + 1)) as usize;
    let p = a + w * y;
    assert(ve < bytes.len());
    let row = stream_row(bytes, w, h, y)->0;
    assert(((row >> k) & 1u128 == 1u128) == bit128(row, k as int)) by {
        assert((row >> k) == (row >> (k as u128))) by (bit_vector);
    }
    if vs == ve {
        assert(row == (bytes[ve as int] >> be) as u128);
        lemma_row_last_byte(s as int, w as int, a as int);
        lemma_last_bits(bytes[ve as int], be, k as u128);
    } else {
        let first = ((bytes[vs as int] << ((7 - bs) as u8)) as u8) >> ((7 - bs) as u8);
        let top = shift_in(first as u128, bytes, (vs + 1) as int, ve as int);
        assert(row == (top << ((8 - be) as u8)) | ((bytes[ve as int] >> be) as u128));
        lemma_join_bits(top, bytes[ve as int], be, k as u128);
        if k < 8 - be {
            lemma_row_last_byte(s as int, w as int, a as int);
            lemma_last_bits(bytes[ve as int], be, k as u128);
        } else {
            let d = k - (8 - be);
            lemma_shift_in_bit(first as u128, bytes, (vs + 1) as int, ve as int, d);
            lemma_row_middle_bytes(s as int, w as int, a as int, d);
            if d < 8 * (ve - vs - 1) {
                assert(p / 8 == ve - 1 - d / 8 && 7 - p % 8 == d % 8);
            } else {
                let d2 = d - 8 * (ve - vs - 1);
                lemma_row_first_byte(s as int, w as int, a as int, d2);
                lemma_first_bits(bytes[vs as int], (7 - bs) as u8, d2 as u128);
            }
        }
    }
}

/// A monochrome image whose pixels run on from row to row without gaps.
pub struct Img {
    width: usize,
    height: usize,
    bits: Vec<u8>,
}

impl Img {
    pub closed spec fn spec_width(&self) -> nat {
        self.width as nat
    }

    pub closed spec fn spec_height(&self) -> nat {
        self.height as nat
    }

    /// The bytes that hold the pixels.
    pub closed spec fn bytes(&self) -> Seq<u8> {
        self.bits@
    }

    /// The image has a pixel and exactly the bytes its pixels need.
    pub open spec fn wf(&self) -> bool {
        &&& self.spec_width() >= 1
        &&& self.spec_height() >= 1
        &&& self.spec_width() * self.spec_height() <= usize::MAX
        &&& self.bytes().len() == stream_len(self.spec_width(), self.spec_height())
    }

    /// The colour of pixel `(x, y)`.
    pub open spec fn pixel(&self, x: nat, y: nat) -> bool {
        stream_bit(self.bytes(), x + self.spec_width() * y)
    }

    /// An image of the given size and bytes.
    pub(crate) fn from_parts(width: usize, height: usize, bits: Vec<u8>) -> (r: Self)
        ensures
            r.spec_width() == width,
            r.spec_height() == height,
            r.bytes() == bits@,
    {
        Img { width, height, bits }
    }

    /// A blank image `width` pixels wide and `height` high.
    pub fn new(width: usize, height: usize) -> (r: Self)
        requires
            width >= 1,
            height >= 1,
            width * height <= usize::MAX,
        ensures
            r.wf(),
            r.spec_width() == width,
            r.spec_height() == height,
            forall|n: int| 0 <= n < r.bytes().len() ==> r.bytes()[n] == 0,
    {
        proof { lemma_stream_bound((width - 1) as nat, (height - 1) as nat, width as nat, height as nat); }
        assert(width - 1 + width * (height - 1) == width * height - 1) by (nonlinear_arith)
            requires width >= 1, height >= 1;
        let (n, _) = xy_to_index(width - 1, height - 1, width, height).unwrap();
        let mut bits: Vec<u8> = Vec::new();
        while bits.len() < n + 1
            invariant
                n + 1 == stream_len(width as nat, height as nat),
                n < usize::MAX,
                bits@.len() <= n + 1,
                forall|k: int| 0 <= k < bits@.len() ==> bits@[k] == 0,
            decreases n + 1 - bits@.len(),
        {
            bits.push(0);
        }
        Img { width, height, bits }
    }

    /// The width and the height.
    pub fn dims(&self) -> (r: (usize, usize))
        ensures
            r.0 == self.spec_width(),
            r.1 == self.spec_height(),
    {
        (self.width, self.height)
    }

    /// The bytes that hold the pixels.
    pub fn debug_bits(&self) -> (r: &Vec<u8>)
        ensures
            r@ == self.bytes(),
    {
        &self.bits
    }

    /// Sets pixel `(x, y)` to `bit`; returns whether the pixel is inside the
    /// image (nothing changes otherwise).
    pub fn set_bit(&mut self, x: usize, y: usize, bit: bool) -> (r: bool)
        requires
            old(self).wf(),
        ensures
            final(self).wf(),
            final(self).spec_width() == old(self).spec_width(),
            final(self).spec_height() == old(self).spec_height(),
            r == (x < old(self).spec_width() && y < old(self).spec_height()),
            final(self).bytes() == match stream_index(x as nat, y as nat, old(self).spec_width(), old(self).spec_height()) {
                Some((n, i)) => old(self).bytes().update(n as int,
                    if bit { old(self).bytes()[n as int] | (1u8 << (i as u8)) }
                    else { old(self).bytes()[n as int] & !(1u8 << (i as u8)) }),
                None => old(self).bytes(),
            },
            forall|a: nat, b: nat| a < final(self).spec_width() && b < final(self).spec_height()
                ==> #[trigger] final(self).pixel(a, b) == (if r && a == x && b == y { bit } else { old(self).pixel(a, b) }),
    {
        let ghost w = self.width as nat;
        let ghost h = self.height as nat;
        if x < self.width && y < self.height {
            proof { lemma_stream_bound(x as nat, y as nat, w, h); }
        }
        let ghost before = self.bits@;
        match xy_to_index(x, y, self.width, self.height) {
            Some((n, i)) => {
                if bit {
                    let v = self.bits[n] | (1u8 << i);
                    self.bits.set(n, v);
                } else {
                    let v = self.bits[n] & !(1u8 << i);
                    self.bits.set(n, v);
                }
                proof {
                    assert forall|a: nat, b: nat| a < w && b < h implies
                        #[trigger] self.pixel(a, b) == (if a == x && b == y { bit } else { stream_bit(before, a + w * b) }) by {
                        lemma_stream_bound(a, b, w, h);
                        let p = a + w * b;
                        let q = x + w * y;
                        lemma_byte_set(before[n as int], i, (7 - p % 8) as u8);
                        if p / 8 == q / 8 && p % 8 == q % 8 {
                            assert(p == q);
                            lemma_stream_pos(a, b, x as nat, y as nat, w);
                        }
                    }
                }
                true
            },
            None => false,
        }
    }

    /// The colour of pixel `(x, y)`, or nothing for a pixel outside the image.
    pub fn get_bit(&self, x: usize, y: usize) -> (r: Option<bool>)
        requires
            self.wf(),
        ensures
            r == (if x < self.spec_width() && y < self.spec_height() {
                Some(self.pixel(x as nat, y as nat))
            } else {
                None
            }),
    {
        if x < self.width && y < self.height {
            proof { lemma_stream_bound(x as nat, y as nat, self.width as nat, self.height as nat); }
        }
        match xy_to_index(x, y, self.width, self.height) {
            Some((n, i)) => {
                proof {
                    assert(((self.bits@[n as int] >> i) & 1u8 == 1u8) == byte_bit(self.bits@[n as int], i as int));
                }
                Some(((self.bits[n] >> i) & 1) == 1)
            },
            None => None,
        }
    }

    /// Flips every bit, the unused bits after the last pixel too.
    pub fn invert(&mut self)
        ensures
            final(self).spec_width() == old(self).spec_width(),
            final(self).spec_height() == old(self).spec_height(),
            final(self).bytes().len() == old(self).bytes().len(),
            forall|k: int| 0 <= k < old(self).bytes().len()
                ==> #[trigger] final(self).bytes()[k] == old(self).bytes()[k] ^ 0xffu8,
    {
        let ghost before = self.bits@;
        let ghost dims = (self.width, self.height);
        let mut i: usize = 0;
        while i < self.bits.len()
            invariant
                (self.width, self.height) == dims,
                i <= self.bits@.len() == before.len(),
                forall|k: int| 0 <= k < i ==> #[trigger] self.bits@[k] == before[k] ^ 0xffu8,
                forall|k: int| i <= k < before.len() ==> #[trigger] self.bits@[k] == before[k],
            decreases before.len() - i,
        {
            let v = self.bits[i] ^ 0xff;
            self.bits.set(i, v);
            i = i + 1;
        }
    }

    /// Takes the bits of `pattern` where `mask` is set and keeps its own
    /// where `mask` is clear.
    pub fn mask_set(&mut self, pattern: &Img, mask: &Img)
        requires
            pattern.spec_width() == old(self).spec_width(),
            pattern.spec_height() == old(self).spec_height(),
            mask.spec_width() == old(self).spec_width(),
            mask.spec_height() == old(self).spec_height(),
            pattern.bytes().len() >= old(self).bytes().len(),
            mask.bytes().len() >= old(self).bytes().len(),
        ensures
            final(self).spec_width() == old(self).spec_width(),
            final(self).spec_height() == old(self).spec_height(),
            final(self).bytes().len() == old(self).bytes().len(),
            forall|k: int| 0 <= k < old(self).bytes().len() ==> #[trigger] final(self).bytes()[k]
                == (pattern.bytes()[k] & mask.bytes()[k]) | (old(self).bytes()[k] & !mask.bytes()[k]),
    {
        // images of different sizes cannot be combined
        assert(self.width == pattern.width && self.height == pattern.height);
        assert(self.width == mask.width && self.height == mask.height);
        let ghost before = self.bits@;
        let ghost dims = (self.width, self.height);
        let mut i: usize = 0;
        while i < self.bits.len()
            invariant
                (self.width, self.height) == dims,
                i <= self.bits@.len() == before.len(),
                pattern.bits@.len() >= before.len(),
                mask.bits@.len() >= before.len(),
                forall|k: int| 0 <= k < i ==> #[trigger] self.bits@[k]
                    == (pattern.bits@[k] & mask.bits@[k]) | (before[k] & !mask.bits@[k]),
                forall|k: int| i <= k < before.len() ==> #[trigger] self.bits@[k] == before[k],
            decreases before.len() - i,
        {
            let v = (pattern.bits[i] & mask.bits[i]) | (self.bits[i] & !mask.bits[i]);
            self.bits.set(i, v);
            i = i + 1;
        }
    }
}

/// The value of masking pattern `pattern` at `(x, y)` (the pattern flips
/// where it is zero).
pub(crate) fn pattern_value(pattern: u8, x: usize, y: usize) -> (r: usize)
    requires
        pattern < 8,
        x * y + x + y + 2 <= usize::MAX,
    ensures
        r == mask_formula(pattern as int, x as int, y as int),
{
    assert(x * y <= x * y + x + y + 2);
    match pattern {
        0 => (x + y) % 2,
        1 => y % 2,
        2 => x % 3,
        3 => (x + y) % 3,
        4 => (x / 3 + y / 2) % 2,
        5 => (x * y) % 2 + (x * y) % 3,
        6 => ((x * y) % 3 + x * y) % 2,
        _ => ((x * y) % 3 + x + y) % 2,
    }
}

/// Whether masking pattern `pattern` flips bit `j` of byte `n` of a `w` by
/// `h` image: the bit holds a pixel, and the pattern is zero there.
pub open spec fn stream_mask_bit(pattern: int, w: nat, h: nat, n: nat, j: nat) -> bool {
    match stream_xy(n, j, w, h) {
        Some((x, y)) => mask_formula(pattern, x as int, y as int) == 0,
        None => false,
    }
}

/// No bit of `bytes` that holds no pixel of a `w` by `h` image is set.
pub open spec fn stream_padding_clear(bytes: Seq<u8>, w: nat, h: nat) -> bool {
    forall|n: int, j: int| 0 <= n < bytes.len() && 0 <= j < 8 && stream_xy(n as nat, j as nat, w, h) is None
        ==> !#[trigger] byte_bit(bytes[n], j)
}

/// The bit of pixel `(x, y)` holds a pixel, and holds `(x, y)` itself.
proof fn lemma_index_holds_pixel(x: nat, y: nat, w: nat, h: nat)
    requires
        x < w,
        y < h,
    ensures
        stream_index(x, y, w, h) matches Some((n, i))
            && stream_xy(n, i, w, h) == Some((x, y)),
{
    let p = x + w * y;
    assert(((p / 8) * 8 + (7 - (7 - p % 8))) as nat == p);
    assert(p / w == y && p % w == x) by (nonlinear_arith)
        requires p == x + w * y, x < w;
}

/// Changing the bit of a pixel keeps the bits that hold no pixel clear.
proof fn lemma_set_keeps_padding(before: Seq<u8>, after: Seq<u8>, x: nat, y: nat, w: nat, h: nat, bit: bool)
    requires
        x < w,
        y < h,
        stream_padding_clear(before, w, h),
        stream_index(x, y, w, h) matches Some((n, i)) && (n as int) < before.len() && i < 8 && after == before.update(n as int,
            if bit { before[n as int] | (1u8 << (i as u8)) } else { before[n as int] & !(1u8 << (i as u8)) }),
    ensures
        stream_padding_clear(after, w, h),
{
    lemma_index_holds_pixel(x, y, w, h);
    let (n0, i0) = stream_index(x, y, w, h).unwrap();
    assert forall|n: int, j: int| 0 <= n < after.len() && 0 <= j < 8 && stream_xy(n as nat, j as nat, w, h) is None
        implies !#[trigger] byte_bit(after[n], j) by {
        if n == n0 {
            lemma_byte_set(before[n], i0 as u8, j as u8);
        }
    }
}

/// An image whose pixel bits and padding bits are as given: each bit that
/// holds a pixel is the pixel, and the others are clear.
proof fn lemma_pixels_give_bits(img: Img, n: int, j: int)
    requires
        img.wf(),
        stream_padding_clear(img.bytes(), img.spec_width(), img.spec_height()),
        0 <= n < img.bytes().len(),
        0 <= j < 8,
    ensures
        byte_bit(img.bytes()[n], j) == match stream_xy(n as nat, j as nat, img.spec_width(), img.spec_height()) {
            Some((x, y)) => img.pixel(x, y),
            None => false,
        },
{
    let w = img.spec_width();
    let h = img.spec_height();
    match stream_xy(n as nat, j as nat, w, h) {
        Some((x, y)) => {
            let p = (n * 8 + (7 - j)) as nat;
            assert(x + w * y == p) by (nonlinear_arith)
                requires x == p % w, y == p / w, w >= 1;
            assert(p / 8 == n && p % 8 == 7 - j);
        },
        None => {},
    }
}

/// Building the image of a masking pattern directly (`Img::_new_qr_mask`)
/// gives the same bytes as masking a blank image of that size with the
/// pattern (`Img::new`, then `Img::qr_mask_xor`).
pub proof fn lemma_new_qr_mask_is_masked_blank(blank: Img, masked: Img, built: Img, pattern: u8)
    requires
        pattern < 8,
        blank.wf(),
        forall|n: int| 0 <= n < blank.bytes().len() ==> blank.bytes()[n] == 0,
        masked.wf(),
        masked.spec_width() == blank.spec_width(),
        masked.spec_height() == blank.spec_height(),
        forall|n: int, j: int| 0 <= n < masked.bytes().len() && 0 <= j < 8 ==>
            #[trigger] byte_bit(masked.bytes()[n], j) == (byte_bit(blank.bytes()[n], j)
                != stream_mask_bit(pattern as int, blank.spec_width(), blank.spec_height(), n as nat, j as nat)),
        built.wf(),
        built.spec_width() == blank.spec_width(),
        built.spec_height() == blank.spec_height(),
        forall|n: int, j: int| 0 <= n < built.bytes().len() && 0 <= j < 8 ==>
            #[trigger] byte_bit(built.bytes()[n], j)
                == stream_mask_bit(pattern as int, blank.spec_width(), blank.spec_height(), n as nat, j as nat),
    ensures
        masked.bytes() == built.bytes(),
{
    assert forall|n: int| 0 <= n < masked.bytes().len() implies #[trigger] masked.bytes()[n] == built.bytes()[n] by {
        assert forall|j: int| 0 <= j < 8 implies #[trigger] byte_bit(masked.bytes()[n], j) == byte_bit(built.bytes()[n], j) by {
            crate::image::lemma_zero_bits(j as u8);
            assert(byte_bit(masked.bytes()[n], j) == (byte_bit(blank.bytes()[n], j)
                != stream_mask_bit(pattern as int, blank.spec_width(), blank.spec_height(), n as nat, j as nat)));
            assert(byte_bit(built.bytes()[n], j)
                == stream_mask_bit(pattern as int, blank.spec_width(), blank.spec_height(), n as nat, j as nat));
        }
        crate::image::lemma_bits_equal(masked.bytes()[n], built.bytes()[n]);
    }
    assert(masked.bytes() =~= built.bytes());
}

impl Img {
    /// Row `y` as a number (see `stream_row`).
    pub fn get_row(&self, y: usize) -> (r: Option<u128>)
        requires
            self.wf(),
        ensures
            r == stream_row(self.bytes(), self.spec_width(), self.spec_height(), y as nat),
    {
        if self.width > 128 {
            return None;
        }
        if y >= self.height {
            return None;
        }
        let ghost w = self.width as nat;
        let ghost h = self.height as nat;
        proof {
            lemma_stream_bound(0, y as nat, w, h);
            lemma_stream_bound((w - 1) as nat, y as nat, w, h);
        }
        let (vs, bs) = xy_to_index(0, y, self.width, self.height).unwrap();
        let (ve, be) = xy_to_index(self.width - 1, y, self.width, self.height).unwrap();
        let last_byte = self.bits[ve] >> be;
        if vs == ve {
            Some(last_byte as u128)
        } else {
            let first_byte = (self.bits[vs] << (7 - bs)) >> (7 - bs);
            let mut output: u128 = first_byte as u128;
            let mut i = vs + 1;
            while i < ve
                invariant
                    vs < i <= ve < self.bits@.len(),
                    output == shift_in(first_byte as u128, self.bits@, vs + 1, i as int),
                decreases ve - i,
            {
                output <<= 8;
                output |= self.bits[i] as u128;
                i = i + 1;
            }
            output <<= 8 - be;
            output |= last_byte as u128;
            Some(output)
        }
    }

    /// Sets the pixels of row `y` from the bits of `row`, the first pixel
    /// from bit `width - 1`; the last pixel of the row is left as it is.
    /// Nothing changes for a row outside the image.
    pub fn set_row(&mut self, y: usize, row: u128)
        requires
            old(self).wf(),
            y < old(self).spec_height() ==> old(self).spec_width() <= 128,
        ensures
            final(self).wf(),
            final(self).spec_width() == old(self).spec_width(),
            final(self).spec_height() == old(self).spec_height(),
            forall|a: nat, b: nat| a < final(self).spec_width() && b < final(self).spec_height()
                ==> #[trigger] final(self).pixel(a, b) == (if b == y && a + 1 < final(self).spec_width() {
                    (row >> ((old(self).spec_width() - 1 - a) as usize)) % 2 == 1
                } else {
                    old(self).pixel(a, b)
                }),
    {
        let ghost start = *self;
        if y < self.height {
            let w = self.width;
            let mut x: usize = 0;
            while x < w - 1
                invariant
                    self.wf(),
                    start.wf(),
                    w == self.spec_width() == start.spec_width(),
                    w <= 128,
                    self.spec_height() == start.spec_height(),
                    y < self.spec_height(),
                    x <= w - 1,
                    forall|a: nat, b: nat| a < w && b < self.spec_height() ==> #[trigger] self.pixel(a, b)
                        == (if b == y && a < x { (row >> ((w - 1 - a) as usize)) % 2 == 1 } else { start.pixel(a, b) }),
                decreases w - 1 - x,
            {
                self.set_bit(x, y, ((row >> ((w - 1) - x)) % 2) == 1);
                x = x + 1;
            }
        }
    }

    /// A `w` by `h` image of masking pattern `pattern`: set where the
    /// pattern flips; nothing for a pattern above 7.
    pub fn _new_qr_mask(w: usize, h: usize, pattern: u8) -> (r: Option<Self>)
        requires
            w >= 1,
            h >= 1,
            w * h + 2 <= usize::MAX,
        ensures
            pattern > 7 ==> r is None,
            pattern <= 7 ==> (r matches Some(img) && img.wf() && img.spec_width() == w
                && img.spec_height() == h && forall|a: nat, b: nat| a < w && b < h
                    ==> #[trigger] img.pixel(a, b) == (mask_formula(pattern as int, a as int, b as int) == 0)),
            pattern <= 7 ==> (r matches Some(img) && forall|n: int, j: int| 0 <= n < img.bytes().len() && 0 <= j < 8
                ==> #[trigger] byte_bit(img.bytes()[n], j) == stream_mask_bit(pattern as int, w as nat, h as nat, n as nat, j as nat)),
    {
        let mut output = Self::new(w, h);
        if pattern > 7 {
            return None;
        }
        proof {
            assert forall|a: nat, b: nat| a < w && b < h implies !#[trigger] output.pixel(a, b) by {
                lemma_stream_bound(a, b, w as nat, h as nat);
                crate::image::lemma_zero_bits((7 - (a + w * b) % 8) as u8);
            }
            assert forall|n: int, j: int| 0 <= n < output.bytes().len() && 0 <= j < 8
                implies !#[trigger] byte_bit(output.bytes()[n], j) by {
                crate::image::lemma_zero_bits(j as u8);
            }
        }
        let mut y: usize = 0;
        while y < h
            invariant
                output.wf(),
                output.spec_width() == w,
                output.spec_height() == h,
                pattern < 8,
                w * h + 2 <= usize::MAX,
                y <= h,
                stream_padding_clear(output.bytes(), w as nat, h as nat),
                forall|a: nat, b: nat| a < w && b < h ==> #[trigger] output.pixel(a, b)
                    == (if b < y { mask_formula(pattern as int, a as int, b as int) == 0 } else { false }),
            decreases h - y,
        {
            let mut x: usize = 0;
            while x < w
                invariant
                    output.wf(),
                    output.spec_width() == w,
                    output.spec_height() == h,
                    pattern < 8,
                    w * h + 2 <= usize::MAX,
                    y < h,
                    x <= w,
                    stream_padding_clear(output.bytes(), w as nat, h as nat),
                    forall|a: nat, b: nat| a < w && b < h ==> #[trigger] output.pixel(a, b)
                        == (if b < y || (b == y && a < x) { mask_formula(pattern as int, a as int, b as int) == 0 } else { false }),
                decreases w - x,
            {
                assert(x * y + x + y + 2 <= w * h + 2) by (nonlinear_arith)
                    requires x < w, y < h;
                let v = pattern_value(pattern, x, y);
                let ghost before = output.bytes();
                output.set_bit(x, y, v == 0);
                proof {
                    lemma_stream_bound(x as nat, y as nat, w as nat, h as nat);
                    lemma_set_keeps_padding(before, output.bytes(), x as nat, y as nat, w as nat, h as nat, v == 0);
                }
                x = x + 1;
            }
            y = y + 1;
        }
        proof {
            assert forall|n: int, j: int| 0 <= n < output.bytes().len() && 0 <= j < 8 implies
                #[trigger] byte_bit(output.bytes()[n], j) == stream_mask_bit(pattern as int, w as nat, h as nat, n as nat, j as nat) by {
                lemma_pixels_give_bits(output, n, j);
            }
        }
        Some(output)
    }

    /// Applies (xors) masking pattern `pattern` to every pixel.
    pub fn qr_mask_xor(&mut self, pattern: u8)
        requires
            old(self).wf(),
            pattern < 8,
            old(self).spec_width() * old(self).spec_height() + 2 <= usize::MAX,
        ensures
            final(self).wf(),
            final(self).spec_width() == old(self).spec_width(),
            final(self).spec_height() == old(self).spec_height(),
            forall|n: int, j: int| 0 <= n < final(self).bytes().len() && 0 <= j < 8 ==>
                #[trigger] byte_bit(final(self).bytes()[n], j) == (byte_bit(old(self).bytes()[n], j)
                    != stream_mask_bit(pattern as int, old(self).spec_width(), old(self).spec_height(), n as nat, j as nat)),
            forall|a: nat, b: nat| a < final(self).spec_width() && b < final(self).spec_height() ==>
                #[trigger] final(self).pixel(a, b) == (old(self).pixel(a, b)
                    != (mask_formula(pattern as int, a as int, b as int) == 0)),
    {
        let w = self.width;
        let h = self.height;
        let ghost start = self.bits@;
        let len = self.bits.len();
        assert(len * 8 <= w * h + 7);
        let mut vec_index: usize = 0;
        while vec_index < len
            invariant
                self.wf(),
                pattern < 8,
                w == self.spec_width(),
                h == self.spec_height(),
                w * h + 2 <= usize::MAX,
                len == start.len() == self.bits@.len(),
                len * 8 <= w * h + 7,
                vec_index <= len,
                forall|n: int| vec_index <= n < len ==> self.bits@[n] == start[n],
                forall|n: int, j: int| 0 <= n < vec_index && 0 <= j < 8 ==>
                    #[trigger] byte_bit(self.bits@[n], j) == (byte_bit(start[n], j)
                        != stream_mask_bit(pattern as int, w as nat, h as nat, n as nat, j as nat)),
            decreases len - vec_index,
        {
            let mut mask_byte = 0u8;
            let mut bit_index: u8 = 8;
            while bit_index > 0
                invariant
                    pattern < 8,
                    w >= 1,
                    w * h + 2 <= usize::MAX,
                    vec_index < len,
                    len * 8 <= w * h + 7,
                    bit_index <= 8,
                    forall|j: int| bit_index <= j < 8 ==>
                        #[trigger] byte_bit(mask_byte, j - bit_index) == stream_mask_bit(pattern as int, w as nat, h as nat, vec_index as nat, j as nat),
                    bit_index == 8 ==> mask_byte == 0,
                decreases bit_index,
            {
                let ghost old_bi = bit_index;
                bit_index = bit_index - 1;
                let ghost prev = mask_byte;
                let mut flip = false;
                match index_to_xy(vec_index, bit_index, w, h) {
                    Some((x, y)) => {
                        proof {
                            assert(x < w);
                            assert(x * y + x + y + 2 <= w * h + 2) by (nonlinear_arith)
                                requires x < w, y < h;
                        }
                        flip = pattern_value(pattern, x, y) == 0;
                    },
                    None => {},
                }
                mask_byte = (mask_byte << 1) | if flip { 1u8 } else { 0u8 };
                proof {
                    assert(flip == stream_mask_bit(pattern as int, w as nat, h as nat, vec_index as nat, bit_index as nat));
                    assert forall|j: int| bit_index <= j < 8 implies
                        #[trigger] byte_bit(mask_byte, j - bit_index) == stream_mask_bit(pattern as int, w as nat, h as nat, vec_index as nat, j as nat) by {
                        if j == bit_index {
                            lemma_shift_in(prev, flip, 0);
                        } else {
                            let t = (j - bit_index - 1) as u8;
                            assert(t as int == j - old_bi);
                            assert(byte_bit(prev, j - old_bi) == stream_mask_bit(pattern as int, w as nat, h as nat, vec_index as nat, j as nat));
                            lemma_shift_in(prev, flip, t);
                            assert(t as int + 1 == j - bit_index);
                        }
                    }
                }
            }
            let ghost before = self.bits@;
            let nv = self.bits[vec_index] ^ mask_byte;
            self.bits.set(vec_index, nv);
            proof {
                assert forall|n: int, j: int| 0 <= n < vec_index + 1 && 0 <= j < 8 implies
                    #[trigger] byte_bit(self.bits@[n], j) == (byte_bit(start[n], j)
                        != stream_mask_bit(pattern as int, w as nat, h as nat, n as nat, j as nat)) by {
                    if n == vec_index {
                        lemma_xor_bit(start[n], mask_byte, j as u8);
                        assert(byte_bit(mask_byte, j - 0) == stream_mask_bit(pattern as int, w as nat, h as nat, n as nat, j as nat));
                        assert(j as u8 as int == j);
                    } else {
                        assert(self.bits@[n] == before[n]);
                    }
                }
            }
            vec_index = vec_index + 1;
        }
        proof {
            assert forall|a: nat, b: nat| a < w && b < h implies
                #[trigger] self.pixel(a, b) == (stream_bit(start, a + (w as nat) * b)
                    != (mask_formula(pattern as int, a as int, b as int) == 0)) by {
                let wn = w as nat;
                lemma_stream_bound(a, b, wn, h as nat);
                let p: nat = a + wn * b;
                let n: nat = p / 8;
                let j: nat = (7 - p % 8) as nat;
                assert(n * 8 + (7 - j) == p);
                assert(p % wn == a && p / wn == b) by (nonlinear_arith)
                    requires p == a + wn * b, a < wn;
                assert(stream_xy(n as nat, j as nat, w as nat, h as nat) == Some((a, b)));
                assert(byte_bit(self.bits@[n as int], j as int) == (byte_bit(start[n as int], j as int)
                    != stream_mask_bit(pattern as int, w as nat, h as nat, n as nat, j as nat)));
            }
        }
    }
}

impl Img {
    /// The same image with every row starting on a new byte.
    pub fn make_rowaligned(self) -> (r: ImgRowAligned)
        requires
            self.wf(),
            self.spec_width() % 8 == 0 || self.spec_width() <= 128,
        ensures
            r.wf(),
            r.spec_width() == self.spec_width(),
            r.spec_height() == self.spec_height(),
            self.spec_width() % 8 == 0 ==> r.bytes() == self.bytes(),
            self.spec_width() % 8 == 0 ==> forall|a: nat, b: nat| a < self.spec_width() && b < self.spec_height()
                ==> #[trigger] r.pixel(a, b) == self.pixel(a, b),
            self.spec_width() % 8 != 0 ==> forall|a: nat, b: nat| a < self.spec_width() && b < self.spec_height()
                ==> #[trigger] r.pixel(a, b) == ((stream_row(self.bytes(), self.spec_width(), self.spec_height(), b)->0
                    >> ((self.spec_width() - (a + 1)) as usize)) & 1u128 == 1u128),
            forall|a: nat, b: nat| a < self.spec_width() && b < self.spec_height()
                ==> #[trigger] r.pixel(a, b) == self.pixel(a, b),
    {
        let (width, height) = self.dims();
        let ghost w = width as nat;
        let ghost h = height as nat;
        if self.width % 8 == 0 {
            proof {
                let k = w / 8;
                assert(row_bytes(w) == k);
                assert(w * h >= 8) by (nonlinear_arith) requires w >= 8, h >= 1;
                assert((w * h - 1) / 8 + 1 == h * k) by (nonlinear_arith) requires w == 8 * k, h >= 1, k >= 1;
                assert forall|a: nat, b: nat| a < w && b < h implies
                    #[trigger] crate::image::pixel_at(self.bits@, w, a, b) == self.pixel(a, b) by {
                    assert((a + w * b) / 8 == b * k + a / 8 && (a + w * b) % 8 == a % 8) by (nonlinear_arith)
                        requires w == 8 * k;
                }
            }
            return ImgRowAligned::from_parts(width, height, self.bits);
        }
        assert(h * row_bytes(w) <= w * h) by (nonlinear_arith) requires w >= 1, h >= 1;
        let mut output = ImgRowAligned::new(width, height);
        let mut y: usize = 0;
        while y < height
            invariant
                self.wf(),
                width == self.spec_width(),
                height == self.spec_height(),
                w == width,
                h == height,
                width <= 128,
                output.wf(),
                output.spec_width() == width,
                output.spec_height() == height,
                y <= height,
                forall|a: nat, b: nat| a < width && b < y ==> #[trigger] output.pixel(a, b)
                    == ((stream_row(self.bytes(), w, h, b)->0 >> ((w - (a + 1)) as usize)) & 1u128 == 1u128),
            decreases height - y,
        {
            let row = self.get_row(y).unwrap();
            let mut x: usize = 0;
            while x < width
                invariant
                    width == self.spec_width(),
                    height == self.spec_height(),
                    w == width,
                    h == height,
                    width <= 128,
                    y < height,
                    row == stream_row(self.bytes(), w, h, y as nat)->0,
                    output.wf(),
                    output.spec_width() == width,
                    output.spec_height() == height,
                    x <= width,
                    forall|a: nat, b: nat| a < width && (b < y || (b == y && a < x)) ==> #[trigger] output.pixel(a, b)
                        == ((stream_row(self.bytes(), w, h, b)->0 >> ((w - (a + 1)) as usize)) & 1u128 == 1u128),
                decreases width - x,
            {
                proof { crate::image::lemma_index_in_bounds(x as nat, y as nat, w, h); }
                output.set_bit(x, y, (row >> (width - (x + 1))) & 1 == 1);
                x = x + 1;
            }
            y = y + 1;
        }
        proof {
            assert forall|a: nat, b: nat| a < w && b < h implies #[trigger] output.pixel(a, b) == self.pixel(a, b) by {
                lemma_stream_row_bit(self.bytes(), w, h, b, a);
            }
        }
        output
    }
}

impl BitmapDebug for Img {
    open spec fn debug_view(&self) -> Seq<u8> {
        self.bytes()
    }

    open spec fn debug_index(&self, x: nat, y: nat) -> Option<(nat, nat)> {
        stream_index(x, y, self.spec_width(), self.spec_height())
    }

    open spec fn debug_pixel(&self, n: nat, i: nat) -> Option<(nat, nat)> {
        stream_xy(n, i, self.spec_width(), self.spec_height())
    }

    open spec fn debug_index_ok(&self, x: nat, y: nat) -> bool {
        x >= self.spec_width() || y >= self.spec_height() || x + self.spec_width() * y <= usize::MAX
    }

    open spec fn debug_pixel_ok(&self, n: nat, i: nat) -> bool {
        i < 8 && self.spec_width() >= 1 && n * 8 + 7 <= usize::MAX
    }

    fn debug_bytes(&self) -> (r: &Vec<u8>) {
        &self.bits
    }

    fn debug_xy_to_index(&self, x: usize, y: usize) -> (r: Option<(usize, u8)>) {
        xy_to_index(x, y, self.width, self.height)
    }

    fn debug_index_to_xy(&self, vec_index: usize, bit_index: u8) -> (r: Option<(usize, usize)>) {
        index_to_xy(vec_index, bit_index, self.width, self.height)
    }
}

impl Clone for Img {
    /// A copy, the unused bits included.
    fn clone(&self) -> (r: Self)
        ensures
            r.spec_width() == self.spec_width(),
            r.spec_height() == self.spec_height(),
            r.bytes() == self.bytes(),
    {
        Img { width: self.width, height: self.height, bits: self.bits.clone() }
    }
}

} // verus!
