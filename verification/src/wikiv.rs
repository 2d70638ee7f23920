use vstd::prelude::*;
use vstd::std_specs::bits::axiom_u32_leading_zeros;
use vstd::array::ArrayAdditionalExecFns;
pub use crate::rdsm::galois::{bit_length, carryless_divide, spec_carryless_divide, spec_bit_length};
use crate::rdsm::galois::{cl_div_from, lemma_bit_length};

verus! {

// Finite field arithmetic on 32-bit words, after the "Reed-Solomon codes
// for coders" article: field elements and polynomial coefficients are
// `u32`, polynomials are written from the highest power down.

/// The generator of the QR format code, `0b10100110111`.
pub const QR_GEN: u32 = 0x537;

/// The primitive polynomial of the article's field.
pub const PRIM: u32 = 0x11d;

/// Exponent and logarithm tables of a field.
pub type ExpLogTables = ([u32; 256], [u32; 256]);

// ----- the format code -----

/// The long division of `out` by `QR_GEN`, from bit `i + 10` down to bit 10.
pub open spec fn check_from(out: u32, i: int) -> u32
    decreases i + 1,
{
    if i < 0 {
        out
    } else {
        let next = if (1u32 << ((i + 10) as u32)) & out != 0 { out ^ (0x537u32 << (i as u32)) } else { out };
        check_from(next, i - 1)
    }
}

/// The remainder of a 15-bit format code divided by the generator.
pub fn qr_check_fcode(fcode: u32) -> (r: u32)
    ensures
        r == check_from(fcode, 4),
{
    let mut output = fcode;
    let mut k: u32 = 5;
    while k > 0
        invariant
            k <= 5,
            check_from(output, k - 1) == check_from(fcode, 4),
        decreases k,
    {
        let i = k - 1;
        if (1u32 << (i + 10)) & output != 0 {
            output = output ^ (0x537u32 << i);
        }
        k = k - 1;
    }
    output
}

/// The 15-bit format code of a 5-bit format: the format, then the
/// remainder of its division by the generator.
pub open spec fn spec_generate_fcode32(fmt: u32) -> u32 {
    (fmt << 10u32) | check_from(fmt << 10u32, 4)
}

/// The format code of five bits of format data: the data followed by its
/// BCH remainder.
pub fn qr_generate_fcode(fmt: u32) -> (r: u32)
    requires
        fmt < 32,
    ensures
        r == spec_generate_fcode32(fmt),
{
    (fmt << 10) | qr_check_fcode(fmt << 10)
}

/// The number of set bits among the lowest `n` bits of `x`.
pub open spec fn popcount32(x: u32, n: int) -> int
    decreases n,
{
    if n <= 0 {
        0
    } else {
        popcount32(x, n - 1) + (if (x >> ((n - 1) as u32)) & 1u32 == 1u32 { 1int } else { 0int })
    }
}

fn count_ones32(x: u32) -> (r: u32)
    ensures
        r == popcount32(x, 32),
{
    let mut c: u32 = 0;
    let mut b: u32 = 0;
    while b < 32
        invariant
            b <= 32,
            c == popcount32(x, b as int),
            c <= b,
        decreases 32 - b,
    {
        if (x >> b) & 1 == 1 {
            c = c + 1;
        }
        b = b + 1;
    }
    c
}

/// The search for the format whose code is closest to `fcode`, over the
/// formats from `t` on, with the best so far and its distance: nothing on a
/// tie for the best distance.
pub open spec fn find_from(fcode: u32, t: int, best: Option<u32>, best_dist: int) -> Option<u32>
    decreases 32 - t,
{
    if t < 0 || t >= 32 {
        best
    } else {
        let d = popcount32(fcode ^ spec_generate_fcode32(t as u32), 32);
        if d < best_dist {
            find_from(fcode, t + 1, Some(t as u32), d)
        } else if d == best_dist {
            find_from(fcode, t + 1, None, best_dist)
        } else {
            find_from(fcode, t + 1, best, best_dist)
        }
    }
}

/// The format whose code differs from `fcode` in the fewest bits (fewer
/// than 15), if exactly one does.
pub fn qr_find_fmt(fcode: u32) -> (r: Option<u32>)
    ensures
        r == find_from(fcode, 0, None, 15),
{
    let mut best_fmt: Option<u32> = None;
    let mut best_dist: u32 = 15;
    let mut t: u32 = 0;
    while t < 32
        invariant
            t <= 32,
            find_from(fcode, t as int, best_fmt, best_dist as int) == find_from(fcode, 0, None, 15),
        decreases 32 - t,
    {
        let try_fcode = qr_generate_fcode(t);
        let try_dist = count_ones32(fcode ^ try_fcode);
        if try_dist < best_dist {
            best_dist = try_dist;
            best_fmt = Some(t);
        } else if try_dist == best_dist {
            best_fmt = None;
        }
        t = t + 1;
    }
    best_fmt
}

/// The number of set bits among the lowest 15 bits of `x`.
pub open spec fn weight15(x: u32) -> int {
    (if (x >> 0u32) & 1u32 == 1u32 { 1int } else { 0int }) + (if (x >> 1u32) & 1u32 == 1u32 { 1int } else { 0int }) + (if (x >> 2u32) & 1u32 == 1u32 { 1int } else { 0int }) + (if (x >> 3u32) & 1u32 == 1u32 { 1int } else { 0int }) + (if (x >> 4u32) & 1u32 == 1u32 { 1int } else { 0int }) + (if (x >> 5u32) & 1u32 == 1u32 { 1int } else { 0int }) + (if (x >> 6u32) & 1u32 == 1u32 { 1int } else { 0int }) + (if (x >> 7u32) & 1u32 == 1u32 { 1int } else { 0int }) + (if (x >> 8u32) & 1u32 == 1u32 { 1int } else { 0int }) + (if (x >> 9u32) & 1u32 == 1u32 { 1int } else { 0int }) + (if (x >> 10u32) & 1u32 == 1u32 { 1int } else { 0int }) + (if (x >> 11u32) & 1u32 == 1u32 { 1int } else { 0int }) + (if (x >> 12u32) & 1u32 == 1u32 { 1int } else { 0int }) + (if (x >> 13u32) & 1u32 == 1u32 { 1int } else { 0int }) + (if (x >> 14u32) & 1u32 == 1u32 { 1int } else { 0int })
}

/// Facts about the 15-bit format codes: they are linear under exclusive or,
/// every code of a non-zero format has at least 7 set bits, and the weight
/// of an exclusive or is at least the difference of the weights.
proof fn lemma_fcode_bits()
    by (bit_vector)
    ensures
        forall|f: u32| f < 32 ==> #[trigger] spec_generate_fcode32(f) < 0x8000,
        forall|f: u32, g: u32| f < 32 && g < 32 ==>
            #[trigger] (spec_generate_fcode32(f) ^ spec_generate_fcode32(g)) == spec_generate_fcode32(f ^ g),
        forall|t: u32| 1 <= t < 32 ==> #[trigger] weight15(spec_generate_fcode32(t)) >= 7,
        forall|a: u32, e: u32| a < 0x8000 && e < 0x8000 ==> #[trigger] weight15(a ^ e) + weight15(e) >= weight15(a),
        forall|x: u32, k: u32| x < 0x8000 && 15 <= k < 32 ==> #[trigger] ((x >> k) & 1u32) == 0u32,
        forall|a: u32, b: u32, c: u32| #[trigger] ((a ^ b) ^ c) == (a ^ c) ^ b,
        forall|a: u32, b: u32| #[trigger] ((a ^ b) ^ a) == b,
        forall|f: u32, t: u32| f < 32 && t < 32 && f != t ==> 1 <= #[trigger] (f ^ t) < 32,
        forall|a: u32, b: u32| a < 0x8000 && b < 0x8000 ==> #[trigger] (a ^ b) < 0x8000,
{
}

proof fn lemma_popcount_weight(x: u32)
    requires
        x < 0x8000,
    ensures
        popcount32(x, 32) == weight15(x),
{
    lemma_fcode_bits();
    reveal_with_fuel(popcount32, 33);
    assert forall|k: u32| 15 <= k < 32 implies ((x >> k) & 1u32) == 0u32 by {}
    assert(popcount32(x, 15) == weight15(x));
    assert(popcount32(x, 32) == popcount32(x, 15));
}

proof fn lemma_find_unique(c: u32, f: u32, t: int, best: Option<u32>, bd: int)
    requires
        0 <= t <= 32,
        f < 32,
        forall|u: u32| u < 32 && u != f ==> #[trigger] popcount32(c ^ spec_generate_fcode32(u), 32)
            > popcount32(c ^ spec_generate_fcode32(f), 32),
        t <= f ==> bd > popcount32(c ^ spec_generate_fcode32(f), 32),
        t > f ==> best == Some(f) && bd == popcount32(c ^ spec_generate_fcode32(f), 32),
    ensures
        find_from(c, t, best, bd) == Some(f),
    decreases 32 - t,
{
    if t < 32 {
        let u = t as u32;
        let d = popcount32(c ^ spec_generate_fcode32(u), 32);
        if u == f {
            lemma_find_unique(c, f, t + 1, Some(u), d);
        } else if d < bd {
            lemma_find_unique(c, f, t + 1, Some(u), d);
        } else if d == bd {
            lemma_find_unique(c, f, t + 1, None, bd);
        } else {
            lemma_find_unique(c, f, t + 1, best, bd);
        }
    }
}

/// The format codes correct errors: a format code with at most three of its
/// bits flipped is still read as its own format by `qr_find_fmt`.
pub proof fn lemma_find_fmt_corrects(f: u32, e: u32)
    requires
        f < 32,
        e < 0x8000,
        popcount32(e, 32) <= 3,
    ensures
        find_from(spec_generate_fcode32(f) ^ e, 0, None, 15) == Some(f),
{
    lemma_fcode_bits();
    let c = spec_generate_fcode32(f) ^ e;
    lemma_popcount_weight(e);
    assert((c ^ spec_generate_fcode32(f)) == e) by {
        assert(((spec_generate_fcode32(f) ^ e) ^ spec_generate_fcode32(f)) == e);
    }
    assert forall|u: u32| u < 32 && u != f implies #[trigger] popcount32(c ^ spec_generate_fcode32(u), 32)
        > popcount32(c ^ spec_generate_fcode32(f), 32) by {
        let g = spec_generate_fcode32(f) ^ spec_generate_fcode32(u);
        assert(((spec_generate_fcode32(f) ^ e) ^ spec_generate_fcode32(u)) == (spec_generate_fcode32(f) ^ spec_generate_fcode32(u)) ^ e);
        assert(g == spec_generate_fcode32(f ^ u));
        assert(1 <= (f ^ u) < 32);
        assert(weight15(spec_generate_fcode32(f ^ u)) >= 7);
        assert(spec_generate_fcode32(f ^ u) < 0x8000);
        assert((g ^ e) < 0x8000);
        assert(weight15(g ^ e) + weight15(e) >= weight15(g));
        lemma_popcount_weight(g ^ e);
    }
    lemma_find_unique(c, f, 0, None, 15);
}

/// The distance of `c` from the code of format `t`: the number of bits in
/// which they differ.
pub open spec fn fmt_distance(c: u32, t: u32) -> int {
    popcount32(c ^ spec_generate_fcode32(t), 32)
}

proof fn lemma_find_some(c: u32, t: int, best: Option<u32>, bd: int)
    requires
        0 <= t <= 32,
        forall|v: u32| v < t ==> #[trigger] fmt_distance(c, v) >= bd,
        best matches Some(u) ==> u < t && fmt_distance(c, u) == bd
            && forall|v: u32| v < t && v != u ==> #[trigger] fmt_distance(c, v) > bd,
    ensures
        find_from(c, t, best, bd) matches Some(u) ==> u < 32
            && forall|v: u32| v < 32 && v != u ==> #[trigger] fmt_distance(c, v) > fmt_distance(c, u),
    decreases 32 - t,
{
    if t < 32 {
        let w = t as u32;
        let d = fmt_distance(c, w);
        if d < bd {
            lemma_find_some(c, t + 1, Some(w), d);
        } else if d == bd {
            lemma_find_some(c, t + 1, None, bd);
        } else {
            lemma_find_some(c, t + 1, best, bd);
        }
    }
}

/// `qr_find_fmt` finds nothing when two formats tie for the fewest bits of
/// difference from the code read.
pub proof fn lemma_find_fmt_tie(c: u32, f: u32, g: u32)
    requires
        f < 32,
        g < 32,
        f != g,
        fmt_distance(c, f) == fmt_distance(c, g),
        forall|t: u32| t < 32 ==> #[trigger] fmt_distance(c, t) >= fmt_distance(c, f),
    ensures
        find_from(c, 0, None, 15) is None,
{
    lemma_find_some(c, 0, None, 15);
    if let Some(u) = find_from(c, 0, None, 15) {
        if u == f {
            assert(fmt_distance(c, g) > fmt_distance(c, u));
        } else {
            assert(fmt_distance(c, f) > fmt_distance(c, u));
            assert(fmt_distance(c, u) >= fmt_distance(c, f));
        }
    }
}

// ----- multiplication -----

/// The carry-less product of `x` with the lowest `n` bits of `y`: the xor
/// of `x` shifted by the position of each of those bits that is set.
pub open spec fn cl_upto(x: u32, y: u32, n: int) -> u32
    decreases n,
{
    if n <= 0 {
        0
    } else {
        cl_upto(x, y, n - 1) ^ (if (y >> ((n - 1) as u32)) & 1u32 == 1u32 { x << ((n - 1) as u32) } else { 0u32 })
    }
}

/// The carry-less product of `x` and `y`, cut to 32 bits.
pub open spec fn spec_cl_mul(x: u32, y: u32) -> u32 {
    cl_upto(x, y, 32)
}

proof fn lemma_cl_upto_rest(x: u32, y: u32, n: int)
    requires
        32 - vstd::std_specs::bits::u32_leading_zeros(y) <= n <= 32,
    ensures
        cl_upto(x, y, n) == cl_upto(x, y, 32),
    decreases 32 - n,
{
    axiom_u32_leading_zeros(y);
    if n < 32 {
        lemma_cl_upto_rest(x, y, n + 1);
        let b = n as u32;
        assert((y >> b) & 1u32 == 0u32);
        let c = cl_upto(x, y, n);
        assert(c ^ 0u32 == c) by (bit_vector);
    }
}

/// Bit facts behind long division over GF(2).
proof fn lemma_division_bits()
    by (bit_vector)
    ensures
        forall|a: u32, b: u32, n: u32| n < 32 && (a >> n) <= 1 && (b >> n) == 1 && a & (1u32 << n) != 0
            ==> #[trigger] ((a ^ b) >> n) == 0,
        forall|a: u32, n: u32| n < 32 && (a >> n) <= 1 && #[trigger] (a & (1u32 << n)) == 0 ==> (a >> n) == 0,
        forall|d: u32, i: u32, m: u32| m < 32 && i + m < 32 && (d >> m) == 1 ==> #[trigger] ((d << i) >> ((i + m) as u32)) == 1,
        forall|a: u32, n: u32| 1 <= n < 32 && (a >> n) == 0 ==> #[trigger] (a >> ((n - 1) as u32)) <= 1,
        forall|x: u32, k: u32| 1 <= k < 32 ==> #[trigger] (x >> k) == (x / 2) >> ((k - 1) as u32),
        forall|x: u32| #[trigger] (x >> 0u32) == x,
        forall|k: u32| k < 32 ==> #[trigger] ((0u32 >> k) & 1u32) == 0u32,
        forall|k: u32| k < 32 ==> #[trigger] (0u32 >> k) == 0u32,
        forall|a: u32| #[trigger] (a ^ 0u32) == a,
        forall|a: u32| #[trigger] (0u32 ^ a) == a,
        forall|a: u32, b: u32, c: u32| #[trigger] ((a ^ b) ^ c) == (a ^ c) ^ b,
        forall|a: u32, b: u32, c: u32| #[trigger] ((a ^ b) ^ (c ^ b)) == a ^ c,
        forall|q: u32, i: u32, k: u32| i < 32 && k < 32 && (q >> i) & 1u32 == 0u32 ==>
            #[trigger] (((q | (1u32 << i)) >> k) & 1u32) == (if k == i { 1u32 } else { (q >> k) & 1u32 }),
{
}

/// The quotient of the long division `cl_div_from` carries out, built up
/// from `q`.
pub open spec fn cl_quot_from(dnd: u32, divisor: u32, dsr_len: u32, i: int, q: u32) -> u32
    decreases i + 1,
{
    if i < 0 {
        q
    } else {
        let set = dnd & (1u32 << ((i + dsr_len - 1) as u32)) != 0;
        let next = if set { dnd ^ (divisor << (i as u32)) } else { dnd };
        cl_quot_from(next, divisor, dsr_len, i - 1, if set { q | (1u32 << (i as u32)) } else { q })
    }
}

proof fn lemma_cl_upto_zero(d: u32, n: int)
    requires
        0 <= n <= 32,
    ensures
        cl_upto(d, 0, n) == 0,
    decreases n,
{
    lemma_division_bits();
    if n > 0 {
        lemma_cl_upto_zero(d, n - 1);
        assert(((0u32 >> ((n - 1) as u32)) & 1u32) == 0u32);
    }
}

proof fn lemma_cl_upto_bit(d: u32, q: u32, i: u32, n: int)
    requires
        i < 32,
        0 <= n <= 32,
        (q >> i) & 1u32 == 0u32,
    ensures
        cl_upto(d, q | (1u32 << i), n) == cl_upto(d, q, n) ^ (if n > i { d << i } else { 0u32 }),
    decreases n,
{
    lemma_division_bits();
    if n > 0 {
        lemma_cl_upto_bit(d, q, i, n - 1);
        let k = (n - 1) as u32;
        assert((((q | (1u32 << i)) >> k) & 1u32) == (if k == i { 1u32 } else { (q >> k) & 1u32 }));
        let a = cl_upto(d, q, n - 1);
        if k == i {
            assert((a ^ 0u32) ^ (d << i) == a ^ (d << i));
            assert(a ^ 0u32 == a);
        } else if n > i {
            let t = if (q >> k) & 1u32 == 1u32 { d << k } else { 0u32 };
            assert(((a ^ (d << i)) ^ t) == (a ^ t) ^ (d << i));
        } else {
            let t = if (q >> k) & 1u32 == 1u32 { d << k } else { 0u32 };
            assert((a ^ 0u32) ^ t == a ^ t);
            assert((a ^ t) ^ 0u32 == a ^ t);
        }
    }
}

proof fn lemma_shift_of_length(n: u32)
    requires
        n > 0,
    ensures
        n >> ((spec_bit_length(n) - 1) as u32) == 1,
    decreases n,
{
    lemma_division_bits();
    lemma_bit_length(n);
    if n / 2 > 0 {
        lemma_shift_of_length(n / 2);
        lemma_bit_length(n / 2);
        let k = (spec_bit_length(n) - 1) as u32;
        assert(n >> k == (n / 2) >> ((k - 1) as u32));
    } else {
        assert(spec_bit_length(0u32) == 0);
        assert(n == 1);
    }
}

proof fn lemma_length_of_shift(n: u32, k: u32)
    requires
        k < 32,
        n >> k == 0,
    ensures
        spec_bit_length(n) <= k,
    decreases n,
{
    lemma_division_bits();
    lemma_bit_length(n);
    if n > 0 {
        assert(k >= 1);
        assert(n >> k == (n / 2) >> ((k - 1) as u32));
        lemma_length_of_shift(n / 2, (k - 1) as u32);
    }
}

proof fn lemma_division_step(x: u32, dnd: u32, d: u32, dsr: u32, i: int, q: u32)
    requires
        1 <= dsr <= 32,
        -1 <= i,
        i + dsr <= 32,
        d >> ((dsr - 1) as u32) == 1,
        i >= 0 ==> dnd >> ((i + dsr - 1) as u32) <= 1,
        i < 0 ==> dnd >> ((dsr - 1) as u32) == 0,
        forall|k: u32| k <= i ==> #[trigger] ((q >> k) & 1u32) == 0u32,
        spec_cl_mul(d, q) ^ dnd == x,
    ensures
        spec_cl_mul(d, cl_quot_from(dnd, d, dsr, i, q)) ^ cl_div_from(dnd, d, dsr, i) == x,
        cl_div_from(dnd, d, dsr, i) >> ((dsr - 1) as u32) == 0,
    decreases i + 1,
{
    lemma_division_bits();
    if i >= 0 {
        let n = (i + dsr - 1) as u32;
        let iu = i as u32;
        let set = dnd & (1u32 << n) != 0;
        let next = if set { dnd ^ (d << iu) } else { dnd };
        let q2 = if set { q | (1u32 << iu) } else { q };
        assert(((d << iu) >> ((iu + ((dsr - 1) as u32)) as u32)) == 1);
        assert((iu + ((dsr - 1) as u32)) as u32 == n);
        if set {
            assert(((dnd ^ (d << iu)) >> n) == 0);
            assert((q >> iu) & 1u32 == 0u32);
            lemma_cl_upto_bit(d, q, iu, 32);
            assert(spec_cl_mul(d, q2) == spec_cl_mul(d, q) ^ (d << iu));
            assert(((spec_cl_mul(d, q) ^ (d << iu)) ^ (dnd ^ (d << iu))) == spec_cl_mul(d, q) ^ dnd);
            assert forall|k: u32| k <= i - 1 implies #[trigger] ((q2 >> k) & 1u32) == 0u32 by {
                assert(((q2 >> k) & 1u32) == (if k == iu { 1u32 } else { (q >> k) & 1u32 }));
            }
        } else {
            assert((dnd & (1u32 << n)) == 0);
            assert((dnd >> n) == 0);
        }
        assert(next >> n == 0);
        if i >= 1 {
            assert(next >> ((n - 1) as u32) <= 1);
            assert((n - 1) as u32 == (i - 1 + dsr - 1) as u32);
        } else {
            assert(n == dsr - 1);
        }
        lemma_division_step(x, next, d, dsr, i - 1, q2);
    }
}

/// `carryless_divide` gives the remainder of division over GF(2): it has
/// fewer bits than the divisor, and the dividend is a carry-less multiple
/// of the divisor with the remainder added (exclusive or).
pub proof fn lemma_carryless_remainder(x: u32, d: u32)
    requires
        d != 0,
    ensures
        spec_bit_length(spec_carryless_divide(x, d)) < spec_bit_length(d),
        exists|q: u32| #[trigger] spec_cl_mul(d, q) ^ spec_carryless_divide(x, d) == x,
{
    lemma_division_bits();
    lemma_bit_length(x);
    lemma_bit_length(d);
    lemma_cl_upto_zero(d, 32);
    assert(spec_cl_mul(d, 0) == 0);
    assert(0u32 ^ x == x);
    let dsr = spec_bit_length(d);
    let len = spec_bit_length(x);
    if len < dsr {
        assert(spec_cl_mul(d, 0) ^ spec_carryless_divide(x, d) == x);
    } else {
        lemma_shift_of_length(d);
        lemma_shift_of_length(x);
        let i = len - dsr;
        assert((i + dsr - 1) as u32 == (len - 1) as u32);
        assert forall|k: u32| k <= i implies #[trigger] ((0u32 >> k) & 1u32) == 0u32 by {}
        lemma_division_step(x, x, d, dsr, i as int, 0);
        let q = cl_quot_from(x, d, dsr, i as int, 0);
        assert(spec_cl_mul(d, q) ^ spec_carryless_divide(x, d) == x);
        lemma_length_of_shift(spec_carryless_divide(x, d), (dsr - 1) as u32);
    }
}

proof fn lemma_shift_of_short(n: u32, k: u32)
    requires
        k < 32,
        spec_bit_length(n) <= k,
    ensures
        n >> k == 0,
    decreases n,
{
    lemma_division_bits();
    lemma_bit_length(n);
    if n > 0 {
        assert(k >= 1);
        assert(n >> k == (n / 2) >> ((k - 1) as u32));
        lemma_shift_of_short(n / 2, (k - 1) as u32);
    } else {
        assert(0u32 >> k == 0u32);
    }
}

/// The version information code of a version (7 to 40) carries the version
/// in its top six bits and is a carry-less multiple of the generator
/// `0x1F25`: a codeword of the (18, 6) BCH code.
pub proof fn lemma_vcode_is_codeword(version: u32)
    requires
        7 <= version <= 40,
    ensures
        crate::qr_standard::spec_generate_vcode(version) >> 12u32 == version,
        exists|q: u32| #[trigger] spec_cl_mul(0x1F25, q) == crate::qr_standard::spec_generate_vcode(version),
{
    let x = (version << 12u32) as u32;
    let r = spec_carryless_divide(x, 0x1F25);
    lemma_carryless_remainder(x, 0x1F25);
    lemma_bit_length(0x1F25);
    assert(spec_bit_length(0x1F25) == 13) by {
        reveal_with_fuel(spec_bit_length, 14);
    }
    lemma_shift_of_short(r, 12);
    let q = choose|q: u32| #[trigger] spec_cl_mul(0x1F25, q) ^ r == x;
    let m = spec_cl_mul(0x1F25, q);
    assert(((x | r) >> 12u32) == version && (x | r) == (x ^ r) && ((m ^ r) ^ r) == m) by (bit_vector)
        requires
            r >> 12u32 == 0,
            version <= 40,
            x == (version << 12u32) as u32,
            m ^ r == x,
    ;
}

/// Carry-less multiplication (`y` below 2^31).
pub fn carryless_multiply(x: u32, y: u32) -> (r: u32)
    requires
        y < 0x8000_0000,
    ensures
        r == spec_cl_mul(x, y),
{
    proof { axiom_u32_leading_zeros(y); }
    let top = 32 - y.leading_zeros();
    proof {
        assert(y < 0x8000_0000 ==> (y >> 31u32) & 1u32 == 0u32) by (bit_vector);
        assert(top <= 31);
    }
    let mut output: u32 = 0;
    let mut bit: u32 = 0;
    while bit <= top
        invariant
            top <= 31,
            top == 32 - vstd::std_specs::bits::u32_leading_zeros(y),
            bit <= top + 1,
            output == cl_upto(x, y, bit as int),
        decreases top + 1 - bit,
    {
        proof {
            assert(((y & (1u32 << bit)) != 0u32) == ((y >> bit) & 1u32 == 1u32)) by (bit_vector)
                requires bit < 32;
        }
        if (y & (1u32 << bit)) != 0 {
            output = output ^ (x << bit);
        } else {
            proof {
                let c = output;
                assert(c ^ 0u32 == c) by (bit_vector);
            }
        }
        bit = bit + 1;
    }
    proof { lemma_cl_upto_rest(x, y, (top + 1) as int); }
    output
}

/// Multiplication in the field of the prime polynomial `prime` (carry-less
/// multiplication alone for 0).
pub open spec fn spec_galois_multiply(x: u32, y: u32, prime: u32) -> u32 {
    if prime > 0 {
        spec_carryless_divide(spec_cl_mul(x, y), prime)
    } else {
        spec_cl_mul(x, y)
    }
}

/// Multiplication in GF(2^8) modulo `prime` (plain carry-less
/// multiplication when `prime` is 0).
pub fn galois_multiply(x: u32, y: u32, prime: u32) -> (r: u32)
    requires
        y < 0x8000_0000,
    ensures
        r == spec_galois_multiply(x, y, prime),
{
    if prime > 0 {
        carryless_divide(carryless_multiply(x, y), prime)
    } else {
        carryless_multiply(x, y)
    }
}

/// Multiplication in the field of the QR format generator.
pub fn qr_multiply(x: u32, y: u32) -> (r: u32)
    requires
        y < 0x8000_0000,
    ensures
        r == spec_galois_multiply(x, y, QR_GEN),
{
    galois_multiply(x, y, QR_GEN)
}

/// Russian peasant multiplication: the state after the loop has consumed
/// `y`, with `x` doubled (and reduced by `prime` when it reaches
/// `field_charac_full`) at each step.
pub open spec fn peasant(x: u32, y: u32, prime: u32, field_charac_full: u32, carryless: bool, out: int) -> int
    decreases y,
{
    if y == 0 {
        out
    } else {
        let out2 = if y & 1u32 != 0 {
            if carryless { (out as u32 ^ x) as int } else { out + x }
        } else {
            out
        };
        let x1 = x << 1u32;
        let x2 = if prime > 0 && x1 & field_charac_full != 0 { x1 ^ prime } else { x1 };
        proof {
            assert(y > 0 ==> (y >> 1u32) < y) by (bit_vector);
        }
        peasant(x2, y >> 1u32, prime, field_charac_full, carryless, out2)
    }
}

/// The sums of the plain (not carry-less) peasant multiplication stay
/// within 32 bits.
pub open spec fn peasant_fits(x: u32, y: u32, prime: u32, field_charac_full: u32, carryless: bool, out: int) -> bool
    decreases y,
{
    if y == 0 {
        true
    } else {
        let out2 = if y & 1u32 != 0 {
            if carryless { (out as u32 ^ x) as int } else { out + x }
        } else {
            out
        };
        let x1 = x << 1u32;
        let x2 = if prime > 0 && x1 & field_charac_full != 0 { x1 ^ prime } else { x1 };
        proof {
            assert(y > 0 ==> (y >> 1u32) < y) by (bit_vector);
        }
        0 <= out2 <= u32::MAX && peasant_fits(x2, y >> 1u32, prime, field_charac_full, carryless, out2)
    }
}

/// Multiplication by the Russian peasant algorithm.
pub fn galois_multiply_peasant_full(x: u32, y: u32, prime: u32, field_charac_full: u32, carryless: bool) -> (r: u32)
    requires
        peasant_fits(x, y, prime, field_charac_full, carryless, 0),
    ensures
        r == peasant(x, y, prime, field_charac_full, carryless, 0),
{
    let ghost x0 = x;
    let ghost y0 = y;
    let mut x = x;
    let mut y = y;
    let mut output: u32 = 0;
    while y > 0
        invariant
            peasant_fits(x, y, prime, field_charac_full, carryless, output as int),
            peasant(x, y, prime, field_charac_full, carryless, output as int)
                == peasant(x0, y0, prime, field_charac_full, carryless, 0),
        decreases y,
    {
        assert((y >> 1u32) < y) by (bit_vector) requires y > 0;
        if (y & 1) != 0 {
            output = if carryless { output ^ x } else { output + x };
        }
        y = y >> 1;
        x = x << 1;
        if prime > 0 && x & field_charac_full != 0 {
            x = x ^ prime;
        }
    }
    output
}

/// Peasant multiplication in the field of the QR format generator.
pub fn galois_multiply_peasant_qr(x: u32, y: u32) -> (r: u32)
    ensures
        r == peasant(x, y, QR_GEN, 256, true, 0),
{
    proof { lemma_peasant_xor_fits(x, y, QR_GEN, 256, 0); }
    galois_multiply_peasant_full(x, y, QR_GEN, 256, true)
}

proof fn lemma_peasant_xor_fits(x: u32, y: u32, prime: u32, fcf: u32, out: int)
    requires
        0 <= out <= u32::MAX,
    ensures
        peasant_fits(x, y, prime, fcf, true, out),
    decreases y,
{
    if y != 0 {
        let out2 = if y & 1u32 != 0 { (out as u32 ^ x) as int } else { out };
        let x1 = x << 1u32;
        let x2 = if prime > 0 && x1 & fcf != 0 { x1 ^ prime } else { x1 };
        assert(y > 0 ==> (y >> 1u32) < y) by (bit_vector);
        lemma_peasant_xor_fits(x2, y >> 1u32, prime, fcf, out2);
    }
}

// ----- tables -----

/// The powers of 2 in the field of `prime`: `2^0`, `2^1`, ...
pub open spec fn power_of_two(prime: u32, i: nat) -> u32
    decreases i,
{
    if i == 0 {
        1
    } else {
        spec_galois_multiply(power_of_two(prime, (i - 1) as nat), 2, prime)
    }
}

/// The last of the first `n` powers of two whose value modulo 256 is `k`.
pub open spec fn last_power_at(prime: u32, k: int, n: nat) -> Option<int>
    decreases n,
{
    if n == 0 {
        None
    } else if power_of_two(prime, (n - 1) as nat) % 256 == k {
        Some(n - 1)
    } else {
        last_power_at(prime, k, (n - 1) as nat)
    }
}

proof fn lemma_last_power_range(prime: u32, k: int, n: nat)
    ensures
        last_power_at(prime, k, n) matches Some(i) ==> 0 <= i < n,
    decreases n,
{
    if n > 0 {
        lemma_last_power_range(prime, k, (n - 1) as nat);
    }
}

/// Fills the exponent table with the first 256 powers of two and, for each
/// power, the logarithm table at the power modulo 256 with its exponent
/// (the last exponent wins).
pub fn generate_exp_log_tables(tables: &mut ExpLogTables, prime: u32)
    ensures
        forall|i: int| 0 <= i < 256 ==> #[trigger] final(tables).0@[i] == power_of_two(prime, i as nat),
        forall|k: int| 0 <= k < 256 ==> #[trigger] final(tables).1@[k] == match last_power_at(prime, k, 256) {
            Some(i) => i as u32,
            None => old(tables).1@[k],
        },
        small_logs(*old(tables)) ==> small_logs(*final(tables)),
{
    let ghost old_log = tables.1@;
    let mut x: u32 = 1;
    let mut i: usize = 0;
    while i < 256
        invariant
            i <= 256,
            x == power_of_two(prime, i as nat),
            tables.0@.len() == 256,
            tables.1@.len() == 256,
            forall|j: int| 0 <= j < i ==> #[trigger] tables.0@[j] == power_of_two(prime, j as nat),
            forall|k: int| 0 <= k < 256 ==> #[trigger] tables.1@[k] == match last_power_at(prime, k, i as nat) {
                Some(j) => j as u32,
                None => old_log[k],
            },
        decreases 256 - i,
    {
        tables.0.set(i, x);
        let slot = (x % 256) as usize;
        tables.1.set(slot, i as u32);
        x = galois_multiply(x, 2, prime);
        i = i + 1;
    }
    proof {
        if small_logs(*old(tables)) {
            assert forall|k: int| 0 <= k < 256 implies #[trigger] tables.1@[k] <= 255 by {
                lemma_last_power_range(prime, k, 256);
                assert(old_log[k] == old(tables).1@[k]);
            }
        }
    }
}

/// The index of a field element in the tables.
fn table_index(x: u32) -> (r: usize)
    ensures
        r == x % 256,
        r < 256,
{
    (x % 256) as usize
}

/// The logarithm sums of `x` and `y` fit in 32 bits (or one of them is 0).
pub open spec fn mul_ok(tables: ExpLogTables, x: u32, y: u32) -> bool {
    x == 0 || y == 0 || tables.1@[(x % 256) as int] + tables.1@[(y % 256) as int] <= u32::MAX
}

/// Multiplication through the tables: `exp(log x + log y)`, indices taken
/// modulo 256.
pub open spec fn spec_table_multiply(x: u32, y: u32, tables: ExpLogTables) -> u32 {
    if x == 0 || y == 0 {
        0
    } else {
        tables.0@[((tables.1@[(x % 256) as int] + tables.1@[(y % 256) as int]) % 256) as int]
    }
}

/// Multiplication through the tables: `exp(log x + log y)`.
pub fn table_multiply(x: u32, y: u32, tables: &ExpLogTables) -> (r: u32)
    requires
        mul_ok(*tables, x, y),
    ensures
        r == spec_table_multiply(x, y, *tables),
{
    if x == 0 || y == 0 {
        0
    } else {
        let (exp, log) = tables;
        exp[table_index(log[table_index(x)] + log[table_index(y)])]
    }
}

/// Division through the tables: `exp(log x + 256 - log y)`.
pub open spec fn spec_table_divide(x: u32, y: u32, tables: ExpLogTables) -> u32 {
    if x == 0 {
        0
    } else {
        tables.0@[((tables.1@[(x % 256) as int] + (256 - tables.1@[(y % 256) as int])) % 256) as int]
    }
}

/// Division through the tables: `exp(log x + 256 - log y)`.
pub fn table_divide(x: u32, y: u32, tables: &ExpLogTables) -> (r: u32)
    requires
        y != 0,
        x == 0 || tables.1@[(y % 256) as int] <= 256,
        x == 0 || tables.1@[(x % 256) as int] + (256 - tables.1@[(y % 256) as int]) <= u32::MAX,
    ensures
        r == spec_table_divide(x, y, *tables),
{
    if x == 0 {
        0
    } else {
        let (exp, log) = tables;
        exp[table_index(log[table_index(x)] + (256 - log[table_index(y)]))]
    }
}

/// Powers through the tables: `exp(log x * power)`.
pub open spec fn spec_table_pow(x: u32, power: u32, tables: ExpLogTables) -> u32 {
    tables.0@[((tables.1@[(x % 256) as int] * power) % 256) as int]
}

/// A power through the tables: `exp(log x * power)`.
pub fn table_pow(x: u32, power: u32, tables: &ExpLogTables) -> (r: u32)
    requires
        tables.1@[(x % 256) as int] * power <= u32::MAX,
    ensures
        r == spec_table_pow(x, power, *tables),
{
    let (exp, log) = tables;
    exp[table_index(log[table_index(x)] * power)]
}

// ----- polynomials -----

/// Every coefficient multiplied by `x`.
pub fn polynomial_scale(poly: &Vec<u32>, x: u32, tables: &ExpLogTables) -> (r: Vec<u32>)
    requires
        forall|i: int| 0 <= i < poly@.len() ==> mul_ok(*tables, #[trigger] poly@[i], x),
    ensures
        r@ == poly@.map_values(|c: u32| spec_table_multiply(c, x, *tables)),
{
    let mut output: Vec<u32> = Vec::new();
    let mut i: usize = 0;
    while i < poly.len()
        invariant
            i <= poly@.len(),
            forall|k: int| 0 <= k < poly@.len() ==> mul_ok(*tables, #[trigger] poly@[k], x),
            output@ == poly@.subrange(0, i as int).map_values(|c: u32| spec_table_multiply(c, x, *tables)),
        decreases poly@.len() - i,
    {
        output.push(table_multiply(poly[i], x, tables));
        proof {
            assert(output@ =~= poly@.subrange(0, i + 1).map_values(|c: u32| spec_table_multiply(c, x, *tables)));
        }
        i = i + 1;
    }
    assert(poly@.subrange(0, i as int) =~= poly@);
    output
}

/// Coefficient `k` of `p` aligned to the right in `m` places (0 to its
/// left).
pub open spec fn aligned(p: Seq<u32>, m: int, k: int) -> u32 {
    if m - p.len() <= k < m { p[k - (m - p.len())] } else { 0 }
}

/// The sum of two polynomials, aligned at their lowest terms, in as many
/// places as the longer one.
pub open spec fn spec_gf_poly_add(p1: Seq<u32>, p2: Seq<u32>) -> Seq<u32> {
    let m = if p1.len() >= p2.len() { p1.len() } else { p2.len() };
    Seq::new(m as nat, |k: int| aligned(p1, m as int, k) ^ aligned(p2, m as int, k))
}

/// The sum of two polynomials, aligned at their last coefficients, as long
/// as the longer of them.
pub fn gf_poly_add(poly1: &Vec<u32>, poly2: &Vec<u32>) -> (r: Vec<u32>)
    ensures
        r@ == spec_gf_poly_add(poly1@, poly2@),
{
    let p1_len = poly1.len();
    let p2_len = poly2.len();
    let out_len = if p1_len >= p2_len { p1_len } else { p2_len };
    let ghost m = out_len as int;
    let mut output: Vec<u32> = Vec::new();
    let mut k: usize = 0;
    while k < out_len
        invariant
            out_len == m,
            p1_len == poly1@.len(),
            p2_len == poly2@.len(),
            m >= p1_len && m >= p2_len,
            k <= m,
            output@.len() == k,
            forall|j: int| 0 <= j < k ==> #[trigger] output@[j] == aligned(poly1@, m, j) ^ aligned(poly2@, m, j),
        decreases m - k,
    {
        let a = if k >= out_len - p1_len && k < out_len { poly1[k - (out_len - p1_len)] } else { 0 };
        let b = if k >= out_len - p2_len && k < out_len { poly2[k - (out_len - p2_len)] } else { 0 };
        output.push(a ^ b);
        k = k + 1;
    }
    assert(output@ =~= spec_gf_poly_add(poly1@, poly2@));
    output
}

/// The xor of `p1[k - i'] * p2[i']` over `i' < i`: coefficient `k` of the
/// product after the first `i` coefficients of `p2`.
pub open spec fn gf_mul_coef(p1: Seq<u32>, p2: Seq<u32>, tables: ExpLogTables, k: int, i: int) -> u32
    decreases i,
{
    if i <= 0 {
        0
    } else {
        let j = k - (i - 1);
        gf_mul_coef(p1, p2, tables, k, i - 1) ^ (if 0 <= j < p1.len() {
            spec_table_multiply(p1[j], p2[i - 1], tables)
        } else {
            0
        })
    }
}

/// The product of two polynomials, `p1.len() + p2.len() - 1` coefficients.
pub open spec fn spec_gf_poly_mul(p1: Seq<u32>, p2: Seq<u32>, tables: ExpLogTables) -> Seq<u32> {
    Seq::new((p1.len() + p2.len() - 1) as nat, |k: int| gf_mul_coef(p1, p2, tables, k, p2.len() as int))
}

/// The products of coefficients the multiplication takes can be made.
pub open spec fn poly_mul_ok(p1: Seq<u32>, p2: Seq<u32>, tables: ExpLogTables) -> bool {
    forall|i: int, j: int| 0 <= i < p2.len() && 0 <= j < p1.len() ==> mul_ok(tables, #[trigger] p1[j], #[trigger] p2[i])
}

/// The product of two polynomials.
pub fn gf_poly_mul(poly1: &Vec<u32>, poly2: &Vec<u32>, tables: &ExpLogTables) -> (r: Vec<u32>)
    requires
        poly1@.len() + poly2@.len() >= 1,
        poly1@.len() + poly2@.len() <= usize::MAX,
        poly_mul_ok(poly1@, poly2@, *tables),
    ensures
        r@ == spec_gf_poly_mul(poly1@, poly2@, *tables),
{
    let n = poly1.len() + poly2.len() - 1;
    let mut output: Vec<u32> = Vec::new();
    while output.len() < n
        invariant
            output@.len() <= n,
            forall|k: int| 0 <= k < output@.len() ==> #[trigger] output@[k] == 0,
        decreases n - output@.len(),
    {
        output.push(0);
    }
    let mut i: usize = 0;
    while i < poly2.len()
        invariant
            n == poly1@.len() + poly2@.len() - 1,
            poly_mul_ok(poly1@, poly2@, *tables),
            i <= poly2@.len(),
            output@.len() == n,
            forall|k: int| 0 <= k < n ==> #[trigger] output@[k] == gf_mul_coef(poly1@, poly2@, *tables, k, i as int),
        decreases poly2@.len() - i,
    {
        let mut j: usize = 0;
        while j < poly1.len()
            invariant
                n == poly1@.len() + poly2@.len() - 1,
                poly_mul_ok(poly1@, poly2@, *tables),
                i < poly2@.len(),
                j <= poly1@.len(),
                output@.len() == n,
                forall|k: int| 0 <= k < n ==> #[trigger] output@[k] == if i <= k < i + j {
                    gf_mul_coef(poly1@, poly2@, *tables, k, i + 1)
                } else {
                    gf_mul_coef(poly1@, poly2@, *tables, k, i as int)
                },
            decreases poly1@.len() - j,
        {
            let term = table_multiply(poly1[j], poly2[i], tables);
            let v = output[i + j] ^ term;
            output.set(i + j, v);
            j = j + 1;
        }
        proof {
            assert forall|k: int| 0 <= k < n implies #[trigger] output@[k] == gf_mul_coef(poly1@, poly2@, *tables, k, i + 1) by {
                if !(i <= k < i + poly1@.len()) {
                    let c = gf_mul_coef(poly1@, poly2@, *tables, k, i as int);
                    assert(c ^ 0u32 == c) by (bit_vector);
                }
            }
        }
        i = i + 1;
    }
    assert(output@ =~= spec_gf_poly_mul(poly1@, poly2@, *tables));
    output
}

/// Horner's scheme over the first `n` coefficients.
pub open spec fn horner(poly: Seq<u32>, x: u32, tables: ExpLogTables, n: int) -> u32
    decreases n,
{
    if n <= 1 {
        poly[0]
    } else {
        spec_table_multiply(horner(poly, x, tables, n - 1), x, tables) ^ poly[n - 1]
    }
}

/// Every logarithm in the tables is below 256, as in tables that
/// `generate_exp_log_tables` filled from zero.
pub open spec fn small_logs(tables: ExpLogTables) -> bool {
    forall|k: int| 0 <= k < 256 ==> #[trigger] tables.1@[k] <= 255
}

/// The products that evaluating `poly` at `x` takes can be made: each
/// partial value's logarithm sum with `x` fits in 32 bits.
pub open spec fn eval_ok(poly: Seq<u32>, x: u32, tables: ExpLogTables) -> bool {
    forall|i: int| 1 <= i < poly.len() ==> mul_ok(tables, #[trigger] horner(poly, x, tables, i), x)
}

/// Tables whose logarithms are all below 256 can evaluate any polynomial.
pub proof fn lemma_small_logs_eval(poly: Seq<u32>, x: u32, tables: ExpLogTables)
    requires
        small_logs(tables),
    ensures
        eval_ok(poly, x, tables),
{
}

/// The value of a polynomial at `x`.
pub fn gf_poly_eval(poly: &Vec<u32>, x: u32, tables: &ExpLogTables) -> (r: u32)
    requires
        poly@.len() >= 1,
        eval_ok(poly@, x, *tables),
    ensures
        r == horner(poly@, x, *tables, poly@.len() as int),
{
    let mut output = poly[0];
    let mut i: usize = 1;
    while i < poly.len()
        invariant
            eval_ok(poly@, x, *tables),
            1 <= i <= poly@.len(),
            output == horner(poly@, x, *tables, i as int),
        decreases poly@.len() - i,
    {
        output = table_multiply(output, x, tables) ^ poly[i];
        i = i + 1;
    }
    output
}

/// The Reed-Solomon generator polynomial with `n` error correction symbols:
/// the product of `x + 2^i` for `i < n`.
pub open spec fn spec_rs_generator_poly(n: nat, tables: ExpLogTables) -> Seq<u32>
    decreases n,
{
    if n == 0 {
        seq![1u32]
    } else {
        spec_gf_poly_mul(spec_rs_generator_poly((n - 1) as nat, tables),
            seq![1u32, spec_table_pow(2, (n - 1) as u32, tables)], tables)
    }
}

proof fn lemma_rs_generator_len(n: nat, tables: ExpLogTables)
    ensures
        spec_rs_generator_poly(n, tables).len() == n + 1,
    decreases n,
{
    if n > 0 {
        lemma_rs_generator_len((n - 1) as nat, tables);
    }
}

/// The power and the product of step `i` of building a generator
/// polynomial can be made in 32 bits.
pub open spec fn generator_step_ok(i: nat, tables: ExpLogTables) -> bool {
    &&& tables.1@[2] * i <= u32::MAX
    &&& poly_mul_ok(spec_rs_generator_poly(i, tables), seq![1u32, spec_table_pow(2, i as u32, tables)], tables)
}

/// The powers and products that building the generator polynomial with `n`
/// error correction symbols takes can be made in 32 bits.
pub open spec fn generator_ok(n: nat, tables: ExpLogTables) -> bool {
    forall|i: nat| i < n ==> #[trigger] generator_step_ok(i, tables)
}

/// Tables whose logarithms are all below 256 can build the generator
/// polynomials with fewer than 2^24 error correction symbols.
pub proof fn lemma_small_logs_generator(n: nat, tables: ExpLogTables)
    requires
        small_logs(tables),
        n < 0x100_0000,
    ensures
        generator_ok(n, tables),
{
    assert forall|i: nat| i < n implies #[trigger] generator_step_ok(i, tables) by {
        assert(tables.1@[2] <= 255);
        assert(tables.1@[2] * i <= 255 * 0x100_0000) by (nonlinear_arith)
            requires tables.1@[2] <= 255, i < 0x100_0000;
        let p1 = spec_rs_generator_poly(i, tables);
        let p2 = seq![1u32, spec_table_pow(2, i as u32, tables)];
        assert forall|a: int, b: int| 0 <= a < p2.len() && 0 <= b < p1.len() implies
            mul_ok(tables, #[trigger] p1[b], #[trigger] p2[a]) by {
            assert(tables.1@[(p1[b] % 256) as int] <= 255);
            assert(tables.1@[(p2[a] % 256) as int] <= 255);
        }
    }
}

/// The generator polynomials that can be built with `n` symbols can be
/// built with fewer.
proof fn lemma_generator_ok_fewer(m: nat, n: nat, tables: ExpLogTables)
    requires
        m <= n,
        generator_ok(n, tables),
    ensures
        generator_ok(m, tables),
{
    assert forall|i: nat| i < m implies #[trigger] generator_step_ok(i, tables) by {
        assert(i < n);
    }
}

/// The Reed-Solomon generator polynomial with `symbol_amnt` symbols.
pub fn rs_generator_poly(symbol_amnt: u32, tables: &ExpLogTables) -> (r: Vec<u32>)
    requires
        generator_ok(symbol_amnt as nat, *tables),
        symbol_amnt + 3 <= usize::MAX,
    ensures
        r@ == spec_rs_generator_poly(symbol_amnt as nat, *tables),
{
    let mut output: Vec<u32> = Vec::new();
    output.push(1);
    assert(output@ =~= seq![1u32]);
    let mut i: u32 = 0;
    while i < symbol_amnt
        invariant
            generator_ok(symbol_amnt as nat, *tables),
            symbol_amnt + 3 <= usize::MAX,
            i <= symbol_amnt,
            output@ == spec_rs_generator_poly(i as nat, *tables),
        decreases symbol_amnt - i,
    {
        proof {
            lemma_rs_generator_len(i as nat, *tables);
            assert(generator_step_ok(i as nat, *tables));
        }
        let p = table_pow(2, i, tables);
        let mut multiplier: Vec<u32> = Vec::new();
        multiplier.push(1);
        multiplier.push(p);
        assert(multiplier@ =~= seq![1u32, spec_table_pow(2, i, *tables)]);
        output = gf_poly_mul(&output, &multiplier, tables);
        i = i + 1;
    }
    output
}

/// Fills a table with the generator polynomials for 0 to 63 error
/// correction symbols.
pub fn generate_rsgen_table(gentable: &mut [Vec<u32>; 64], tables: &ExpLogTables)
    requires
        generator_ok(63, *tables),
    ensures
        forall|i: int| 0 <= i < 64 ==> (#[trigger] final(gentable)@[i])@ == spec_rs_generator_poly(i as nat, *tables),
{
    let mut i: usize = 0;
    while i < 64
        invariant
            generator_ok(63, *tables),
            i <= 64,
            gentable@.len() == 64,
            forall|j: int| 0 <= j < i ==> (#[trigger] gentable@[j])@ == spec_rs_generator_poly(j as nat, *tables),
        decreases 64 - i,
    {
        proof { lemma_generator_ok_fewer(i as nat, 63, *tables); }
        let g = rs_generator_poly(i as u32, tables);
        gentable.set(i, g);
        i = i + 1;
    }
}

} // verus!
