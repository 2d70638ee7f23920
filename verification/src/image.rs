use vstd::prelude::*;
use vstd::string::StrSliceExecFns;

verus! {

/// The number of bytes that hold one row of `w` pixels.
pub open spec fn row_bytes(w: nat) -> nat {
    (w + 7) / 8
}

/// Bit `i` of the byte `b` (bit 0 is the lowest).
pub open spec fn byte_bit(b: u8, i: int) -> bool {
    (b >> (i as u8)) & 1u8 == 1u8
}

/// Where pixel `(x, y)` of a `w` by `h` image lies when every row starts on
/// a new byte and the leftmost pixel of a byte is its highest bit: bit `i`
/// of byte `n`. Nothing for a pixel outside the image.
pub open spec fn spec_xy_to_index(x: nat, y: nat, w: nat, h: nat) -> Option<(nat, nat)> {
    if x >= w || y >= h {
        None
    } else {
        Some(((y * row_bytes(w) + x / 8) as nat, (7 - x % 8) as nat))
    }
}

/// The pixel that bit `bit_index` of byte `vec_index` holds, if it holds one.
pub open spec fn spec_index_to_xy(vec_index: nat, bit_index: nat, w: nat, h: nat) -> Option<(nat, nat)> {
    let x = ((vec_index % row_bytes(w)) * 8 + (7 - bit_index)) as nat;
    let y = vec_index / row_bytes(w);
    if x >= w || y >= h {
        None
    } else {
        Some((x, y))
    }
}

proof fn lemma_row_bytes(w: nat)
    ensures
        w >= 1 ==> row_bytes(w) >= 1,
        row_bytes(w) * 8 <= w + 7,
        forall|x: nat| x < w ==> #[trigger] (x / 8) < row_bytes(w),
{
}

/// The byte of pixel `(x, y)` lies inside an image of `h` rows.
pub proof fn lemma_index_in_bounds(x: nat, y: nat, w: nat, h: nat)
    requires
        x < w,
        y < h,
    ensures
        y * row_bytes(w) + x / 8 < h * row_bytes(w),
        y * row_bytes(w) + x / 8 >= y * row_bytes(w),
{
    lemma_row_bytes(w);
    let rb = row_bytes(w);
    assert(x / 8 < rb);
    assert(y * rb + rb <= h * rb) by (nonlinear_arith)
        requires y < h;
}

/// Converts pixel coordinates to byte and bit indices.
pub fn xy_to_index(x: usize, y: usize, w: usize, h: usize) -> (r: Option<(usize, u8)>)
    requires
        x >= w || y >= h || y * row_bytes(w as nat) + x / 8 <= usize::MAX,
    ensures
        r matches Some((n, i)) ==> spec_xy_to_index(x as nat, y as nat, w as nat, h as nat)
            == Some((n as nat, i as nat)),
        r is None ==> spec_xy_to_index(x as nat, y as nat, w as nat, h as nat) is None,
{
    if x >= w || y >= h {
        return None;
    }
    let rb: usize = w / 8 + if w % 8 != 0 { 1 } else { 0 };
    assert(rb == row_bytes(w as nat));
    let n = y * rb + x / 8;
    let i = (7 - (x % 8)) as u8;
    Some((n, i))
}

/// Converts byte and bit indices to pixel coordinates.
pub fn index_to_xy(vec_index: usize, bit_index: u8, w: usize, h: usize) -> (r: Option<(usize, usize)>)
    requires
        w >= 1,
        bit_index < 8,
        w + 7 <= usize::MAX,
    ensures
        r matches Some((x, y)) ==> spec_index_to_xy(vec_index as nat, bit_index as nat, w as nat, h as nat)
            == Some((x as nat, y as nat)),
        r is None ==> spec_index_to_xy(vec_index as nat, bit_index as nat, w as nat, h as nat) is None,
{
    let rb: usize = w / 8 + if w % 8 != 0 { 1 } else { 0 };
    assert(rb == row_bytes(w as nat));
    proof {
        lemma_row_bytes(w as nat);
        assert((vec_index % rb) * 8 + 7 <= rb * 8 - 1) by (nonlinear_arith)
            requires vec_index % rb < rb, rb >= 1;
    }
    let x = (vec_index % rb) * 8 + (7 - bit_index) as usize;
    let y = vec_index / rb;
    if x >= w || y >= h {
        return None;
    }
    Some((x, y))
}

/// Reading a pixel's indices back gives the pixel.
pub proof fn lemma_xy_index_roundtrip(x: nat, y: nat, w: nat, h: nat)
    requires
        x < w,
        y < h,
    ensures
        spec_xy_to_index(x, y, w, h) matches Some((n, i)) && i < 8
            && spec_index_to_xy(n, i, w, h) == Some((x, y)),
{
    lemma_row_bytes(w);
    let rb = row_bytes(w);
    let n = y * rb + x / 8;
    assert(x / 8 < rb);
    assert(n % rb == x / 8 && n / rb == y) by (nonlinear_arith)
        requires n == y * rb + x / 8, x / 8 < rb, rb >= 1;
    assert((x / 8) * 8 + x % 8 == x);
}

/// Reading a bit's pixel back gives the bit.
pub proof fn lemma_index_xy_roundtrip(n: nat, i: nat, w: nat, h: nat)
    requires
        i < 8,
        w >= 1,
        spec_index_to_xy(n, i, w, h) is Some,
    ensures
        spec_index_to_xy(n, i, w, h) matches Some((x, y))
            && spec_xy_to_index(x, y, w, h) == Some((n, i)),
{
    lemma_row_bytes(w);
    let rb = row_bytes(w);
    let x = ((n % rb) * 8 + (7 - i)) as nat;
    let y = n / rb;
    let k = n % rb;
    assert(x == k * 8 + (7 - i));
    assert(x / 8 == k && x % 8 == 7 - i);
    assert(y * rb + n % rb == n) by (nonlinear_arith)
        requires y == n / rb, rb >= 1;
}

/// A zero byte has no bit set.
pub proof fn lemma_zero_bits(j: u8)
    ensures
        !byte_bit(0u8, j as int),
{
    assert((0u8 >> j) & 1u8 == 0u8) by (bit_vector);
}

/// Setting bit `i` of a byte sets that bit and leaves the others alone.
pub proof fn lemma_byte_set(b: u8, i: u8, j: u8)
    requires
        i < 8,
        j < 8,
    ensures
        byte_bit(b | (1u8 << i), j as int) == (j == i || byte_bit(b, j as int)),
        byte_bit(b & !(1u8 << i), j as int) == (j != i && byte_bit(b, j as int)),
{
    assert(((b | (1u8 << i)) >> j) & 1u8 == 1u8 <==> (j == i || (b >> j) & 1u8 == 1u8)) by (bit_vector)
        requires i < 8, j < 8;
    assert(((b & !(1u8 << i)) >> j) & 1u8 == 1u8 <==> (j != i && (b >> j) & 1u8 == 1u8)) by (bit_vector)
        requires i < 8, j < 8;
}

/// The colour of pixel `(x, y)` in the bytes `bytes` of an image `w` pixels
/// wide.
pub open spec fn pixel_at(bytes: Seq<u8>, w: nat, x: nat, y: nat) -> bool {
    byte_bit(bytes[(y * row_bytes(w) + x / 8) as int], 7 - x % 8)
}

/// The bits of `bytes` that hold no pixel of a `w` by `h` image are clear.
pub open spec fn padding_clear(bytes: Seq<u8>, w: nat, h: nat) -> bool {
    forall|n: int, j: int| 0 <= n < bytes.len() && 0 <= j < 8 && spec_index_to_xy(n as nat, j as nat, w, h) is None
        ==> !#[trigger] byte_bit(bytes[n], j)
}

pub(crate) proof fn lemma_bits_equal(a: u8, b: u8)
    requires
        forall|j: int| 0 <= j < 8 ==> #[trigger] byte_bit(a, j) == byte_bit(b, j),
    ensures
        a == b,
{
    assert(byte_bit(a, 0) == byte_bit(b, 0));
    assert(byte_bit(a, 1) == byte_bit(b, 1));
    assert(byte_bit(a, 2) == byte_bit(b, 2));
    assert(byte_bit(a, 3) == byte_bit(b, 3));
    assert(byte_bit(a, 4) == byte_bit(b, 4));
    assert(byte_bit(a, 5) == byte_bit(b, 5));
    assert(byte_bit(a, 6) == byte_bit(b, 6));
    assert(byte_bit(a, 7) == byte_bit(b, 7));
    assert(a == b) by (bit_vector)
        requires
            ((a >> 0u8) & 1u8 == 1u8) == ((b >> 0u8) & 1u8 == 1u8),
            ((a >> 1u8) & 1u8 == 1u8) == ((b >> 1u8) & 1u8 == 1u8),
            ((a >> 2u8) & 1u8 == 1u8) == ((b >> 2u8) & 1u8 == 1u8),
            ((a >> 3u8) & 1u8 == 1u8) == ((b >> 3u8) & 1u8 == 1u8),
            ((a >> 4u8) & 1u8 == 1u8) == ((b >> 4u8) & 1u8 == 1u8),
            ((a >> 5u8) & 1u8 == 1u8) == ((b >> 5u8) & 1u8 == 1u8),
            ((a >> 6u8) & 1u8 == 1u8) == ((b >> 6u8) & 1u8 == 1u8),
            ((a >> 7u8) & 1u8 == 1u8) == ((b >> 7u8) & 1u8 == 1u8);
}

/// A monochrome image whose rows each start on a new byte (so the last byte
/// of a row may hold unused bits), optionally with a quiet-zone border.
pub struct Bitmap {
    width: usize,
    height: usize,
    bits: Vec<u8>,
    // whether the image already has its 8-pixel quiet zone
    border: bool,
}

impl Bitmap {
    pub closed spec fn spec_width(&self) -> nat {
        self.width as nat
    }

    pub closed spec fn spec_height(&self) -> nat {
        self.height as nat
    }

    /// The bytes that hold the pixels, row by row.
    pub closed spec fn bytes(&self) -> Seq<u8> {
        self.bits@
    }

    pub closed spec fn has_border(&self) -> bool {
        self.border
    }

    /// The bitmap is well formed: it has a pixel, exactly the bytes its rows
    /// need, and the bits of those bytes that hold no pixel are clear.
    pub open spec fn wf(&self) -> bool {
        &&& self.spec_width() >= 1
        &&& self.spec_height() >= 1
        &&& self.spec_width() + 7 <= usize::MAX
        &&& self.spec_height() <= usize::MAX
        &&& self.bytes().len() == self.spec_height() * row_bytes(self.spec_width())
        &&& self.bytes().len() <= usize::MAX
        &&& padding_clear(self.bytes(), self.spec_width(), self.spec_height())
    }

    /// The colour of pixel `(x, y)`, for a pixel inside the image.
    pub open spec fn pixel(&self, x: nat, y: nat) -> bool {
        pixel_at(self.bytes(), self.spec_width(), x, y)
    }

    proof fn lemma_wf_index(&self, x: nat, y: nat)
        requires
            self.wf(),
            x < self.spec_width(),
            y < self.spec_height(),
        ensures
            y * row_bytes(self.spec_width()) + x / 8 < self.bytes().len(),
            spec_xy_to_index(x, y, self.spec_width(), self.spec_height())
                == Some(((y * row_bytes(self.spec_width()) + x / 8) as nat, (7 - x % 8) as nat)),
    {
        lemma_index_in_bounds(x, y, self.spec_width(), self.spec_height());
    }

    /// A blank bitmap `width` pixels wide and `height` high.
    pub fn new(width: usize, height: usize) -> (r: Self)
        requires
            width >= 1,
            height >= 1,
            width + 7 <= usize::MAX,
            height * row_bytes(width as nat) <= usize::MAX,
        ensures
            r.wf(),
            r.spec_width() == width,
            r.spec_height() == height,
            !r.has_border(),
            forall|i: int| 0 <= i < r.bytes().len() ==> r.bytes()[i] == 0,
            forall|a: nat, b: nat| a < width && b < height ==> !#[trigger] r.pixel(a, b),
    {
        proof { lemma_index_in_bounds((width - 1) as nat, (height - 1) as nat, width as nat, height as nat); }
        let last = xy_to_index(width - 1, height - 1, width, height);
        let len = match last {
            Some((n, _)) => n + 1,
            None => 0,
        };
        proof {
            let rb = row_bytes(width as nat);
            lemma_row_bytes(width as nat);
            assert(((width - 1) as nat) / 8 + 1 == rb);
            assert((height - 1) * rb + rb == height * rb) by (nonlinear_arith)
                requires height >= 1;
        }
        let mut bits: Vec<u8> = Vec::new();
        while bits.len() < len
            invariant
                bits@.len() <= len,
                forall|i: int| 0 <= i < bits@.len() ==> bits@[i] == 0,
            decreases len - bits@.len(),
        {
            bits.push(0);
        }
        let r = Bitmap { width, height, bits, border: false };
        proof {
            assert forall|n: int, j: int| 0 <= n < r.bytes().len() && 0 <= j < 8
                && spec_index_to_xy(n as nat, j as nat, width as nat, height as nat) is None
                implies !#[trigger] byte_bit(r.bytes()[n], j) by {
                lemma_zero_bits(j as u8);
            }
            assert forall|a: nat, b: nat| a < width && b < height implies !#[trigger] r.pixel(a, b) by {
                lemma_index_in_bounds(a, b, width as nat, height as nat);
                lemma_zero_bits((7 - a % 8) as u8);
            }
        }
        r
    }

    /// The width and the height.
    pub fn dims(&self) -> (r: (usize, usize))
        ensures
            r.0 == self.spec_width(),
            r.1 == self.spec_height(),
    {
        (self.width, self.height)
    }

    /// Sets pixel `(x, y)` to `bit`; returns whether the pixel is inside the
    /// image (nothing changes otherwise).
    pub fn set_bit(&mut self, x: usize, y: usize, bit: bool) -> (r: bool)
        requires
            old(self).wf(),
        ensures
            final(self).wf(),
            r == (x < old(self).spec_width() && y < old(self).spec_height()),
            final(self).spec_width() == old(self).spec_width(),
            final(self).spec_height() == old(self).spec_height(),
            final(self).has_border() == old(self).has_border(),
            !r ==> final(self).bytes() == old(self).bytes(),
            r ==> final(self).bytes() == old(self).bytes().update(
                y * row_bytes(old(self).spec_width()) + x / 8,
                if bit {
                    old(self).bytes()[y * row_bytes(old(self).spec_width()) + x / 8] | (1u8 << ((7 - x % 8) as u8))
                } else {
                    old(self).bytes()[y * row_bytes(old(self).spec_width()) + x / 8] & !(1u8 << ((7 - x % 8) as u8))
                }),
            forall|a: nat, b: nat| a < final(self).spec_width() && b < final(self).spec_height()
                ==> #[trigger] final(self).pixel(a, b) == (if r && a == x && b == y { bit } else { old(self).pixel(a, b) }),
    {
        if x < self.width && y < self.height {
            proof { self.lemma_wf_index(x as nat, y as nat); }
        }
        match xy_to_index(x, y, self.width, self.height) {
            Some((n, i)) => {
                let ghost before = self.bits@;
                if bit {
                    let v = self.bits[n] | (1u8 << i);
                    self.bits.set(n, v);
                } else {
                    let v = self.bits[n] & !(1u8 << i);
                    self.bits.set(n, v);
                }
                proof {
                    let w = self.width as nat;
                    let rb = row_bytes(w);
                    assert forall|m: int, j: int| 0 <= m < self.bits@.len() && 0 <= j < 8
                        && spec_index_to_xy(m as nat, j as nat, w, self.height as nat) is None
                        implies !#[trigger] byte_bit(self.bits@[m], j) by {
                        if m == n {
                            lemma_byte_set(before[n as int], i, j as u8);
                            lemma_xy_index_roundtrip(x as nat, y as nat, w, self.height as nat);
                            if j == i {
                                assert(spec_index_to_xy(n as nat, i as nat, w, self.height as nat) == Some((x as nat, y as nat)));
                            }
                            assert(byte_bit(self.bits@[m], j) == byte_bit(before[m], j));
                        } else {
                            assert(self.bits@[m] == before[m]);
                        }
                    }
                    assert forall|a: nat, b: nat| a < self.spec_width() && b < self.spec_height()
                        implies #[trigger] self.pixel(a, b) == (if a == x && b == y { bit } else { pixel_at(before, w, a, b) }) by {
                        lemma_index_in_bounds(a, b, w, self.height as nat);
                        let m = b * rb + a / 8;
                        let j = (7 - a % 8) as u8;
                        lemma_byte_set(before[n as int], i, j);
                        if m == n {
                            assert(b == y && a / 8 == x / 8) by (nonlinear_arith)
                                requires m == b * rb + a / 8, m == y * rb + x / 8, a / 8 < rb, x / 8 < rb;
                            if j == i {
                                assert(a == x);
                            }
                        }
                    }
                }
                true
            },
            None => false,
        }
    }

    /// The colour of pixel `(x, y)`, or nothing for a pixel outside the image.
    pub fn get_bit(&self, x: usize, y: usize) -> (r: Option<bool>)
        requires
            self.wf(),
        ensures
            r == (if x < self.spec_width() && y < self.spec_height() {
                Some(self.pixel(x as nat, y as nat))
            } else {
                None
            }),
    {
        if x < self.width && y < self.height {
            proof { self.lemma_wf_index(x as nat, y as nat); }
        }
        match xy_to_index(x, y, self.width, self.height) {
            Some((n, i)) => {
                proof {
                    assert(((self.bits@[n as int] >> i) & 1u8 == 1u8) == byte_bit(self.bits@[n as int], i as int));
                }
                Some(((self.bits[n] >> i) & 1) == 1)
            },
            None => None,
        }
    }

    /// The bytes that hold the pixels.
    pub fn debug_bits(&self) -> (r: &Vec<u8>)
        ensures
            r@ == self.bytes(),
    {
        &self.bits
    }

    /// The bytes that hold the pixels, to change in place; the bitmap is
    /// well formed again afterwards if their number stays the same.
    pub fn debug_bits_mut(&mut self) -> (r: &mut Vec<u8>)
        ensures
            r@ == old(self).bytes(),
            final(self).spec_width() == old(self).spec_width(),
            final(self).spec_height() == old(self).spec_height(),
            final(self).has_border() == old(self).has_border(),
            final(self).bytes() == final(r)@,
    {
        &mut self.bits
    }

    /// The pixel that bit `bit_index` of byte `vec_index` holds, if it holds one.
    pub fn debug_index_to_xy(&self, vec_index: usize, bit_index: u8) -> (r: Option<(usize, usize)>)
        requires
            self.wf(),
            bit_index < 8,
        ensures
            r matches Some((x, y)) ==> spec_index_to_xy(vec_index as nat, bit_index as nat,
                self.spec_width(), self.spec_height()) == Some((x as nat, y as nat)),
            r is None ==> spec_index_to_xy(vec_index as nat, bit_index as nat,
                self.spec_width(), self.spec_height()) is None,
    {
        index_to_xy(vec_index, bit_index, self.width, self.height)
    }
}

/// Two well-formed bitmaps of one size with the same pixels hold the same
/// bytes.
pub proof fn lemma_same_pixels_same_bytes(b1: Bitmap, b2: Bitmap)
    requires
        b1.wf(),
        b2.wf(),
        b1.spec_width() == b2.spec_width(),
        b1.spec_height() == b2.spec_height(),
        forall|a: nat, b: nat| a < b1.spec_width() && b < b1.spec_height() ==> #[trigger] b1.pixel(a, b) == b2.pixel(a, b),
    ensures
        b1.bytes() == b2.bytes(),
{
    let w = b1.spec_width();
    let h = b1.spec_height();
    assert forall|n: int| 0 <= n < b1.bytes().len() implies #[trigger] b1.bytes()[n] == b2.bytes()[n] by {
        assert forall|j: int| 0 <= j < 8 implies #[trigger] byte_bit(b1.bytes()[n], j) == byte_bit(b2.bytes()[n], j) by {
            match spec_index_to_xy(n as nat, j as nat, w, h) {
                Some((x, y)) => {
                    lemma_index_xy_roundtrip(n as nat, j as nat, w, h);
                    assert(b1.pixel(x, y) == b2.pixel(x, y));
                },
                None => {},
            }
        }
        lemma_bits_equal(b1.bytes()[n], b2.bytes()[n]);
    }
    assert(b1.bytes() =~= b2.bytes());
}

impl Clone for Bitmap {
    fn clone(&self) -> (r: Self)
        ensures
            r.spec_width() == self.spec_width(),
            r.spec_height() == self.spec_height(),
            r.bytes() == self.bytes(),
            r.has_border() == self.has_border(),
    {
        let bits = self.bits.clone();
        assert(bits@ =~= self.bits@);
        Bitmap { width: self.width, height: self.height, bits, border: self.border }
    }
}

impl Bitmap {
    /// The bitmap with an 8-pixel quiet zone added on every side; a bitmap
    /// that already has one is returned as it is.
    pub fn add_border(self) -> (r: Bitmap)
        requires
            self.wf(),
            !self.has_border() ==> self.spec_width() + 16 + 7 <= usize::MAX,
            !self.has_border() ==> (self.spec_height() + 16) * row_bytes(self.spec_width() + 16) <= usize::MAX,
        ensures
            r.wf(),
            r.has_border(),
            self.has_border() ==> r == self,
            !self.has_border() ==> r.spec_width() == self.spec_width() + 16 && r.spec_height() == self.spec_height() + 16,
            !self.has_border() ==> forall|a: nat, b: nat| a < r.spec_width() && b < r.spec_height() ==>
                #[trigger] r.pixel(a, b) == (8 <= a < self.spec_width() + 8 && 8 <= b < self.spec_height() + 8
                    && self.pixel((a - 8) as nat, (b - 8) as nat)),
    {
        if self.border {
            return self;
        }
        let w = self.width;
        let h = self.height;
        proof {
            lemma_row_bytes((w + 16) as nat);
            assert(h + 16 <= (h + 16) * row_bytes((w + 16) as nat)) by (nonlinear_arith)
                requires row_bytes((w + 16) as nat) >= 1;
        }
        let mut output = Bitmap::new(w + 16, h + 16);
        let mut i: usize = 0;
        while i < w
            invariant
                self.wf(),
                w == self.spec_width(),
                h == self.spec_height(),
                output.wf(),
                output.spec_width() == w + 16,
                output.spec_height() == h + 16,
                !output.has_border(),
                i <= w,
                forall|a: nat, b: nat| a < output.spec_width() && b < output.spec_height() ==>
                    #[trigger] output.pixel(a, b) == (8 <= a < i + 8 && 8 <= b < h + 8 && self.pixel((a - 8) as nat, (b - 8) as nat)),
            decreases w - i,
        {
            let mut j: usize = 0;
            while j < h
                invariant
                    self.wf(),
                    w == self.spec_width(),
                    h == self.spec_height(),
                    output.wf(),
                    output.spec_width() == w + 16,
                    output.spec_height() == h + 16,
                    !output.has_border(),
                    i < w,
                    j <= h,
                    forall|a: nat, b: nat| a < output.spec_width() && b < output.spec_height() ==>
                        #[trigger] output.pixel(a, b) == ((8 <= a < i + 8 && 8 <= b < h + 8
                            || a == i + 8 && 8 <= b < j + 8) && self.pixel((a - 8) as nat, (b - 8) as nat)),
                decreases h - j,
            {
                let bit = self.get_bit(i, j);
                match bit {
                    Some(true) => {
                        output.set_bit(i + 8, j + 8, true);
                    },
                    _ => {},
                }
                j = j + 1;
            }
            i = i + 1;
        }
        let ghost before = output;
        output.border = true;
        assert(output.bytes() == before.bytes());
        assert forall|a: nat, b: nat| a < output.spec_width() && b < output.spec_height() implies
            #[trigger] output.pixel(a, b) == (8 <= a < w + 8 && 8 <= b < h + 8
                && self.pixel((a - 8) as nat, (b - 8) as nat)) by {
            assert(output.pixel(a, b) == before.pixel(a, b));
        }
        output
    }
}

/// Whether scaling skips source row or column `f` of a bitmap `size`
/// pixels across: a bitmap with a quiet zone leaves out the 8 pixels at
/// each edge.
pub open spec fn scale_skips(border: bool, size: nat, f: nat) -> bool {
    border && (f < 8 || size - f < 8)
}

impl Bitmap {
    /// Rescales the bitmap to `target_width` by `target_width` pixels by
    /// nearest neighbour: pixel `(i, j)` takes the colour of source pixel
    /// `(samples[i], samples[j])`, where `samples` holds the source
    /// coordinate of each target coordinate. With no target width the
    /// bitmap is returned as it is.
    pub fn scale(self, target_width: Option<usize>, samples: &Vec<usize>) -> (r: Bitmap)
        requires
            self.wf(),
            target_width matches Some(t) ==> t >= 1 && t + 7 <= usize::MAX
                && t * row_bytes(t as nat) <= usize::MAX && samples@.len() == t
                && forall|k: int| 0 <= k < t ==> #[trigger] samples@[k] < self.spec_width()
                    && samples@[k] < self.spec_height(),
        ensures
            target_width is None ==> r == self,
            target_width matches Some(t) ==> r.wf() && !r.has_border() && r.spec_width() == t
                && r.spec_height() == t && forall|i: nat, j: nat| i < t && j < t ==> #[trigger] r.pixel(i, j)
                    == (!scale_skips(self.has_border(), self.spec_width(), samples@[i as int] as nat)
                        && !scale_skips(self.has_border(), self.spec_height(), samples@[j as int] as nat)
                        && self.pixel(samples@[i as int] as nat, samples@[j as int] as nat)),
    {
        let t = match target_width {
            None => {
                return self;
            },
            Some(t) => t,
        };
        let mut output = Bitmap::new(t, t);
        let ghost border = self.border;
        let ghost w = self.width as nat;
        let ghost h = self.height as nat;
        let mut i: usize = 0;
        while i < t
            invariant
                self.wf(),
                border == self.has_border(),
                w == self.spec_width(),
                h == self.spec_height(),
                samples@.len() == t,
                forall|k: int| 0 <= k < t ==> #[trigger] samples@[k] < w && samples@[k] < h,
                output.wf(),
                !output.has_border(),
                output.spec_width() == t,
                output.spec_height() == t,
                i <= t,
                forall|a: nat, b: nat| a < t && b < t ==> #[trigger] output.pixel(a, b) == (a < i
                    && !scale_skips(border, w, samples@[a as int] as nat)
                    && !scale_skips(border, h, samples@[b as int] as nat)
                    && self.pixel(samples@[a as int] as nat, samples@[b as int] as nat)),
            decreases t - i,
        {
            let fi = samples[i];
            if self.border && (fi < 8 || (self.width - fi) < 8) {
                i = i + 1;
                continue;
            }
            let mut j: usize = 0;
            while j < t
                invariant
                    self.wf(),
                    border == self.has_border(),
                    w == self.spec_width(),
                    h == self.spec_height(),
                    samples@.len() == t,
                    forall|k: int| 0 <= k < t ==> #[trigger] samples@[k] < w && samples@[k] < h,
                    output.wf(),
                    !output.has_border(),
                    output.spec_width() == t,
                    output.spec_height() == t,
                    i < t,
                    fi == samples@[i as int],
                    !scale_skips(border, w, fi as nat),
                    j <= t,
                    forall|a: nat, b: nat| a < t && b < t ==> #[trigger] output.pixel(a, b) == ((a < i || a == i && b < j)
                        && !scale_skips(border, w, samples@[a as int] as nat)
                        && !scale_skips(border, h, samples@[b as int] as nat)
                        && self.pixel(samples@[a as int] as nat, samples@[b as int] as nat)),
                decreases t - j,
            {
                let fj = samples[j];
                if self.border && (fj < 8 || (self.height - fj) < 8) {
                    j = j + 1;
                    continue;
                }
                let bit = self.get_bit(fi, fj);
                match bit {
                    Some(true) => {
                        output.set_bit(i, j, true);
                    },
                    _ => {},
                }
                j = j + 1;
            }
            i = i + 1;
        }
        output
    }
}

/// A hexadecimal digit, lower case.
pub open spec fn hex_digit(d: int) -> char {
    if d < 10 { (d + 48) as char } else { (d - 10 + 97) as char }
}

/// A decimal digit.
pub open spec fn dec_digit(d: int) -> char {
    (d + 48) as char
}

/// The decimal digits of `n`, most significant first.
pub open spec fn decimal(n: nat) -> Seq<char>
    decreases n,
{
    if n < 10 {
        seq![dec_digit(n as int)]
    } else {
        decimal(n / 10).push(dec_digit((n % 10) as int))
    }
}

/// A byte with its bits in reverse order.
pub open spec fn reverse_byte(b: u8) -> u8 {
    (((b & 1) << 7u8) | ((b & 2) << 5u8) | ((b & 4) << 3u8) | ((b & 8) << 1u8)
        | ((b & 16) >> 1u8) | ((b & 32) >> 3u8) | ((b & 64) >> 5u8) | ((b & 128) >> 7u8)) as u8
}

/// The text of byte `n` of the image data in XBM: its bit-reversed value in
/// hexadecimal, 12 bytes to an indented line, separated by commas.
pub open spec fn xbm_piece(bytes: Seq<u8>, n: int) -> Seq<char> {
    let v = reverse_byte(bytes[n]);
    (if n % 12 == 0 { seq![' ', ' ', ' ', ' '] } else { Seq::empty() })
        + seq!['0', 'x', hex_digit((v / 16) as int), hex_digit((v % 16) as int)]
        + (if n % 12 == 11 || n == bytes.len() - 1 { seq![',', '\n'] } else { seq![',', ' '] })
}

/// The XBM text of the first `n` bytes of the image data.
pub open spec fn xbm_data(bytes: Seq<u8>, n: int) -> Seq<char>
    decreases n,
{
    if n <= 0 {
        Seq::empty()
    } else {
        xbm_data(bytes, n - 1) + xbm_piece(bytes, n - 1)
    }
}

/// The XBM file of an image named `name`.
pub open spec fn xbm_text(name: Seq<char>, w: nat, h: nat, bytes: Seq<u8>) -> Seq<char> {
    seq!['#', 'd', 'e', 'f', 'i', 'n', 'e', ' '] + name + seq!['_', 'w', 'i', 'd', 't', 'h', ' '] + decimal(w) + seq!['\n']
        + seq!['#', 'd', 'e', 'f', 'i', 'n', 'e', ' '] + name + seq!['_', 'h', 'e', 'i', 'g', 'h', 't', ' '] + decimal(h) + seq!['\n']
        + seq!['s', 't', 'a', 't', 'i', 'c', ' ', 'u', 'n', 's', 'i', 'g', 'n', 'e', 'd', ' ', 'c', 'h', 'a', 'r', ' '] + name
        + seq!['_', 'b', 'i', 't', 's', '[', ']', ' ', '=', ' ', '{', '\n']
        + xbm_data(bytes, bytes.len() as int) + seq!['}', ';', '\n']
}

/// A name that can stand in XBM: ASCII without whitespace.
pub open spec fn xbm_name_ok(name: Seq<char>) -> bool {
    forall|i: int| 0 <= i < name.len() ==> (#[trigger] name[i] as u32) < 128
        && name[i] != ' ' && !('\t' <= name[i] <= '\r')
}

/// Appends a character to a string (`String::push`).
#[verifier::external_body]
pub(crate) fn push_char(s: &mut String, c: char)
    ensures
        final(s)@ == old(s)@.push(c),
{
    s.push(c);
}

/// Collects characters into a string.
pub(crate) fn string_from_chars(chars: &Vec<char>) -> (r: String)
    ensures
        r@ == chars@,
{
    let mut out = String::new();
    let mut i: usize = 0;
    while i < chars.len()
        invariant
            i <= chars@.len(),
            out@ == chars@.subrange(0, i as int),
        decreases chars@.len() - i,
    {
        push_char(&mut out, chars[i]);
        proof { assert(out@ =~= chars@.subrange(0, i + 1)); }
        i = i + 1;
    }
    assert(chars@.subrange(0, i as int) =~= chars@);
    out
}

/// Appends the characters of `s`.
pub(crate) fn push_all(out: &mut Vec<char>, s: &str)
    ensures
        final(out)@ == old(out)@ + s@,
{
    let n = s.unicode_len();
    let ghost start = out@;
    let mut i: usize = 0;
    while i < n
        invariant
            n == s@.len(),
            i <= n,
            out@ == start + s@.subrange(0, i as int),
        decreases n - i,
    {
        out.push(s.get_char(i));
        proof { assert(out@ =~= start + s@.subrange(0, i + 1)); }
        i = i + 1;
    }
    assert(s@.subrange(0, n as int) =~= s@);
}

/// Appends the characters of a literal sequence.
pub(crate) fn push_seq(out: &mut Vec<char>, chars: &[char])
    ensures
        final(out)@ == old(out)@ + chars@,
{
    let ghost start = out@;
    let mut i: usize = 0;
    while i < chars.len()
        invariant
            i <= chars@.len(),
            out@ == start + chars@.subrange(0, i as int),
        decreases chars@.len() - i,
    {
        out.push(chars[i]);
        proof { assert(out@ =~= start + chars@.subrange(0, i + 1)); }
        i = i + 1;
    }
    assert(chars@.subrange(0, i as int) =~= chars@);
}

/// Appends the decimal digits of `n`.
pub(crate) fn push_decimal(out: &mut Vec<char>, n: usize)
    ensures
        final(out)@ == old(out)@ + decimal(n as nat),
    decreases n,
{
    if n >= 10 {
        push_decimal(out, n / 10);
    }
    let d = (n % 10) as u32;
    out.push(char_from_digit(d));
}

pub(crate) fn char_from_digit(d: u32) -> (c: char)
    requires
        d < 16,
    ensures
        c == hex_digit(d as int),
        d < 10 ==> c == dec_digit(d as int),
{
    let c: u8 = if d < 10 { d as u8 + 48 } else { d as u8 - 10 + 97 };
    c as char
}

impl Bitmap {
    /// The bitmap as an XBM file whose variables are named after `name`.
    pub fn as_xbm(&self, name: &str) -> (r: String)
        requires
            self.wf(),
            xbm_name_ok(name@),
        ensures
            r@ == xbm_text(name@, self.spec_width(), self.spec_height(), self.bytes()),
    {
        let mut out: Vec<char> = Vec::new();
        push_seq(&mut out, &['#', 'd', 'e', 'f', 'i', 'n', 'e', ' ']);
        push_all(&mut out, name);
        push_seq(&mut out, &['_', 'w', 'i', 'd', 't', 'h', ' ']);
        push_decimal(&mut out, self.width);
        push_seq(&mut out, &['\n', '#', 'd', 'e', 'f', 'i', 'n', 'e', ' ']);
        push_all(&mut out, name);
        push_seq(&mut out, &['_', 'h', 'e', 'i', 'g', 'h', 't', ' ']);
        push_decimal(&mut out, self.height);
        push_seq(&mut out, &['\n', 's', 't', 'a', 't', 'i', 'c', ' ', 'u', 'n', 's', 'i', 'g', 'n', 'e', 'd', ' ', 'c', 'h', 'a', 'r', ' ']);
        push_all(&mut out, name);
        push_seq(&mut out, &['_', 'b', 'i', 't', 's', '[', ']', ' ', '=', ' ', '{', '\n']);
        let ghost head = out@;
        let len = self.bits.len();
        let mut n: usize = 0;
        while n < len
            invariant
                len == self.bytes().len(),
                n <= len,
                out@ == head + xbm_data(self.bytes(), n as int),
            decreases len - n,
        {
            let ghost before = out@;
            let b = self.bits[n];
            let v = ((b & 1) << 7) | ((b & 2) << 5) | ((b & 4) << 3) | ((b & 8) << 1)
                | ((b & 16) >> 1) | ((b & 32) >> 3) | ((b & 64) >> 5) | ((b & 128) >> 7);
            if n % 12 == 0 {
                push_seq(&mut out, &[' ', ' ', ' ', ' ']);
            }
            out.push('0');
            out.push('x');
            out.push(char_from_digit((v / 16) as u32));
            out.push(char_from_digit((v % 16) as u32));
            if n % 12 == 11 || n == len - 1 {
                out.push(',');
                out.push('\n');
            } else {
                out.push(',');
                out.push(' ');
            }
            proof {
                assert(v == reverse_byte(self.bytes()[n as int]));
                assert(out@ =~= before + xbm_piece(self.bytes(), n as int));
            }
            n = n + 1;
        }
        push_seq(&mut out, &['}', ';', '\n']);
        proof {
            assert(out@ =~= xbm_text(name@, self.spec_width(), self.spec_height(), self.bytes()));
        }
        string_from_chars(&out)
    }
}

} // verus!
