use vstd::prelude::*;
use super::lookup::{lemma_exp_zero, exp_entry, log_entry, exp_lookup, log_lookup, lemma_exp_of_log, lemma_log_of_exp};

verus! {

/// An element of the finite field GF(2^8).
pub type Element = u8;

/// A polynomial over GF(2), written as the bits of an integer.
pub type BigElement = u32;

/// The reducing polynomial of the field GF(2^8) used by QR codes,
/// x^8 + x^4 + x^3 + x^2 + 1.
pub const QR_CODEWORD_GEN: BigElement = 0x11D;

/// The generator of the QR format code, x^10 + x^8 + x^5 + x^4 + x^2 + x + 1.
pub const QR_FORMAT_GEN: BigElement = 0x537;

// ---------------------------------------------------------------------------
// Format code arithmetic over GF(2)
// ---------------------------------------------------------------------------

/// One step of the long division by the format generator: if bit `i + 10` of
/// `v` is set, it is cleared by adding (xor-ing) the generator shifted by `i`.
pub open spec fn fcode_step(v: u32, i: u32) -> u32 {
    if v & (1u32 << (i + 10u32)) != 0 {
        v ^ (0x537u32 << i)
    } else {
        v
    }
}

/// The long division of `v` by the format generator, clearing bits
/// `i + 10` down to 10.
pub open spec fn fcode_rem_from(v: u32, i: int) -> u32
    decreases i + 1,
{
    if i < 0 || i > 4 {
        v
    } else {
        fcode_rem_from(fcode_step(v, i as u32), i - 1)
    }
}

/// The remainder of the format code `fcode` (of at most 15 bits) divided by
/// the format generator polynomial.
pub open spec fn spec_fcode_remainder(fcode: u32) -> u32 {
    fcode_step(fcode_step(fcode_step(fcode_step(fcode_step(fcode, 4), 3), 2), 1), 0)
}

proof fn lemma_fcode_rem_from_unfold(v: u32)
    ensures
        fcode_rem_from(v, 4) == spec_fcode_remainder(v),
{
    reveal_with_fuel(fcode_rem_from, 6);
}

/// The remainder of a format code divided by the format generator.
pub fn qr_fcode_remainder(fcode: u32) -> (r: u32)
    ensures
        r == spec_fcode_remainder(fcode),
{
    let mut output = fcode;
    let mut i: u32 = 5;
    proof { lemma_fcode_rem_from_unfold(fcode); }
    while i > 0
        invariant
            i <= 5,
            fcode_rem_from(output, i - 1) == spec_fcode_remainder(fcode),
        decreases i,
    {
        i = i - 1;
        let ghost before = output;
        if (1u32 << (i + 10)) & output != 0 {
            output = output ^ (QR_FORMAT_GEN << i);
        }
        proof {
            assert((1u32 << (i + 10)) & before == before & (1u32 << (i + 10))) by (bit_vector);
            assert(output == fcode_step(before, i));
        }
    }
    output
}

/// The 15-bit format code of the 5 bits of format data `fmt`: the data in the
/// top five bits, followed by the ten bits of its BCH remainder.
pub open spec fn spec_generate_fcode(fmt: u8) -> u16 {
    (((fmt as u16) << 10u16) | (spec_fcode_remainder((fmt as u32) << 10u32) as u16)) as u16
}

/// The format code of five bits of format data (before masking).
pub fn qr_generate_fcode(fmt: u8) -> (r: Option<u16>)
    ensures
        r == (if fmt >= 32 { None } else { Some(spec_generate_fcode(fmt)) }),
{
    if fmt >= 32 {
        return None;
    }
    Some(((fmt as u16) << 10) | (qr_fcode_remainder((fmt as u32) << 10)) as u16)
}

/// A format code is good when dividing it by the generator leaves nothing.
pub open spec fn spec_fcode_is_good(fcode: u16) -> bool {
    spec_fcode_remainder(fcode as u32) == 0
}

/// Whether a format code, once unmasked, is a codeword of the format code.
pub fn qr_fcode_is_good(fcode: u16) -> (r: bool)
    ensures
        r == spec_fcode_is_good(fcode),
{
    qr_fcode_remainder(fcode as u32) == 0
}

/// Every format code made from five bits of format data is a codeword of the
/// format BCH code (the generator divides it), and it carries the five data
/// bits unchanged in its top bits.
pub proof fn lemma_generated_fcode_is_good(fmt: u8)
    requires
        fmt < 32,
    ensures
        spec_fcode_is_good(spec_generate_fcode(fmt)),
        spec_generate_fcode(fmt) >> 10u16 == fmt as u16,
{
    assert(fmt < 32 ==> fcode_step(fcode_step(fcode_step(fcode_step(fcode_step(
        ((((fmt as u16) << 10u16) | (fcode_step(fcode_step(fcode_step(fcode_step(fcode_step(
        (fmt as u32) << 10u32, 4), 3), 2), 1), 0) as u16)) as u16) as u32, 4), 3), 2), 1), 0) == 0
        && ((((fmt as u16) << 10u16) | (fcode_step(fcode_step(fcode_step(fcode_step(fcode_step(
        (fmt as u32) << 10u32, 4), 3), 2), 1), 0) as u16)) as u16) >> 10u16 == fmt as u16)
        by (bit_vector);
}

// ---------------------------------------------------------------------------
// Carry-less (GF(2)[x]) division
// ---------------------------------------------------------------------------

/// The number of significant bits of `n`.
pub open spec fn spec_bit_length(n: u32) -> u32
    decreases n,
{
    if n == 0 {
        0
    } else {
        (1 + spec_bit_length(n / 2)) as u32
    }
}

pub(crate) proof fn lemma_bit_length(n: u32)
    ensures
        spec_bit_length(n) <= 32,
        n > 0 ==> spec_bit_length(n) >= 1,
        n > 0 ==> spec_bit_length(n) == 1 + spec_bit_length(n / 2),
    decreases n,
{
    if n > 0 {
        lemma_bit_length(n / 2);
        if n / 2 > 0 {
            assert(spec_bit_length(n / 2) < 32) by {
                lemma_bit_length_lt(n / 2);
            }
        }
    }
}

proof fn lemma_bit_length_lt(n: u32)
    requires
        n < 0x8000_0000,
    ensures
        spec_bit_length(n) < 32,
    decreases n,
{
    vstd::arithmetic::power2::lemma2_to64();
    if n > 0 {
        lemma_bit_length_lt_k(n, 31);
    }
}

proof fn lemma_bit_length_lt_k(n: u32, k: nat)
    requires
        n < vstd::arithmetic::power2::pow2(k),
        k <= 31,
    ensures
        spec_bit_length(n) <= k,
    decreases n,
{
    vstd::arithmetic::power2::lemma2_to64();
    if n > 0 {
        assert(k >= 1) by {
            if k == 0 {
                assert(vstd::arithmetic::power2::pow2(0) == 1);
            }
        }
        vstd::arithmetic::power2::lemma_pow2_unfold(k);
        lemma_bit_length_lt_k(n / 2, (k - 1) as nat);
        lemma_bit_length_small(n / 2);
    }
}

proof fn lemma_bit_length_small(n: u32)
    ensures
        spec_bit_length(n) <= 32,
    decreases n,
{
    if n > 0 {
        vstd::arithmetic::power2::lemma2_to64();
        lemma_bit_length_small(n / 2);
        lemma_bit_length_lt_k(n / 2, 31);
    }
}

/// The number of bits up to the highest set bit.
pub fn bit_length(n: BigElement) -> (r: u32)
    ensures
        r == spec_bit_length(n),
{
    let mut m = n;
    let mut r: u32 = 0;
    proof { lemma_bit_length(n); }
    while m > 0
        invariant
            r + spec_bit_length(m) == spec_bit_length(n),
            spec_bit_length(n) <= 32,
        decreases m,
    {
        proof { lemma_bit_length(m); }
        m = m / 2;
        r = r + 1;
    }
    r
}

/// Long division of `dnd` by `divisor` over GF(2), clearing bit `i + dsr_len - 1`
/// for `i` from the given value down to zero.
pub open spec fn cl_div_from(dnd: u32, divisor: u32, dsr_len: u32, i: int) -> u32
    decreases i + 1,
{
    if i < 0 {
        dnd
    } else {
        let next = if dnd & (1u32 << ((i + dsr_len - 1) as u32)) != 0 {
            dnd ^ (divisor << (i as u32))
        } else {
            dnd
        };
        cl_div_from(next, divisor, dsr_len, i - 1)
    }
}

/// The remainder of `dividend` divided by `divisor`, both read as polynomials
/// over GF(2).
pub open spec fn spec_carryless_divide(dividend: u32, divisor: u32) -> u32 {
    if spec_bit_length(dividend) < spec_bit_length(divisor) {
        dividend
    } else {
        cl_div_from(dividend, divisor, spec_bit_length(divisor),
            spec_bit_length(dividend) - spec_bit_length(divisor))
    }
}

/// The remainder of carry-less (polynomial) division.
pub fn carryless_divide(dividend: BigElement, divisor: BigElement) -> (r: BigElement)
    requires
        divisor != 0,
    ensures
        r == spec_carryless_divide(dividend, divisor),
{
    if bit_length(dividend) < bit_length(divisor) {
        return dividend;
    }
    let dnd_length = bit_length(dividend);
    let dsr_length = bit_length(divisor);
    proof {
        lemma_bit_length(dividend);
        lemma_bit_length(divisor);
    }
    let mut dnd = dividend;
    let mut i: u32 = dnd_length - dsr_length + 1;
    while i > 0
        invariant
            1 <= dsr_length <= dnd_length <= 32,
            dsr_length == spec_bit_length(divisor),
            dnd_length == spec_bit_length(dividend),
            i <= dnd_length - dsr_length + 1,
            cl_div_from(dnd, divisor, dsr_length, i - 1) == spec_carryless_divide(dividend, divisor),
        decreases i,
    {
        i = i - 1;
        if dnd & (1 << (i + dsr_length - 1)) != 0 {
            dnd = dnd ^ (divisor << i);
        }
    }
    dnd
}

// ---------------------------------------------------------------------------
// Table arithmetic in GF(2^8)
// ---------------------------------------------------------------------------

/// 2 to the power `n` in GF(2^8).
pub open spec fn spec_exp(n: nat) -> Element {
    exp_entry((n % 255) as int)
}

/// The base-2 logarithm of a non-zero element of GF(2^8).
pub open spec fn spec_log(e: Element) -> nat {
    log_entry(e as int)
}

/// Multiplication in GF(2^8), through logarithms.
pub open spec fn gf_mul(x: Element, y: Element) -> Element {
    if x == 0 || y == 0 {
        0
    } else {
        spec_exp(spec_log(x) + spec_log(y))
    }
}

/// Division in GF(2^8), through logarithms.
pub open spec fn gf_div(x: Element, y: Element) -> Element {
    if x == 0 {
        0
    } else {
        spec_exp(spec_log(x) + (255 - spec_log(y)) as nat)
    }
}

/// `x` raised to `power` in GF(2^8), through logarithms.
pub open spec fn gf_pow(x: Element, power: nat) -> Element {
    spec_exp(spec_log(x) * power)
}

/// 2 to the power `n` in GF(2^8).
pub fn exp(n: usize) -> (r: Element)
    ensures
        r == spec_exp(n as nat),
{
    exp_lookup(n % 255)
}

/// The logarithm of a non-zero element to base 2.
pub fn log(e: Element) -> (r: usize)
    requires
        e != 0,
    ensures
        r == spec_log(e),
        r < 256,
{
    proof { lemma_exp_of_log(e as int); }
    log_lookup(e) as usize
}

/// Multiplication in GF(2^8) through the tables.
pub fn table_multiply(x: Element, y: Element) -> (r: Element)
    ensures
        r == gf_mul(x, y),
{
    if x == 0 || y == 0 {
        return 0;
    }
    exp(log(x) + log(y))
}

/// Division in GF(2^8) through the tables.
pub fn table_divide(x: Element, y: Element) -> (r: Element)
    requires
        y != 0,
    ensures
        r == gf_div(x, y),
{
    if x == 0 {
        return 0;
    }
    exp(log(x) + (255 - log(y)))
}

/// A power in GF(2^8) through the tables.
pub fn table_pow(x: Element, power: u32) -> (r: Element)
    requires
        x != 0,
        spec_log(x) * power <= usize::MAX,
    ensures
        r == gf_pow(x, power as nat),
{
    let l = log(x);
    exp(l * power as usize)
}


/// Powers of 2 repeat with period 255.
pub proof fn lemma_exp_mod(n: nat)
    ensures
        spec_exp(n) == spec_exp(n % 255),
{
}

/// Multiplying by a non-zero element and then dividing by it gives back the
/// element, and so does dividing and then multiplying.
pub proof fn lemma_mul_div_inverse(x: Element, y: Element)
    requires
        y != 0,
    ensures
        gf_div(gf_mul(x, y), y) == x,
        gf_mul(gf_div(x, y), y) == x,
        gf_mul(y, gf_div(x, y)) == x,
{
    if x != 0 {
        lemma_exp_of_log(x as int);
        lemma_exp_of_log(y as int);
        let lx = spec_log(x);
        let ly = spec_log(y);
        let k1: nat = if lx + ly < 255 { lx + ly } else { (lx + ly - 255) as nat };
        assert((lx + ly) % 255 == k1);
        lemma_log_of_exp(k1 as int);
        assert(gf_mul(x, y) == exp_entry(k1 as int));
        let z = gf_mul(x, y);
        assert(spec_log(z) == k1);
        let t: nat = (k1 + (255 - ly)) as nat;
        assert(t % 255 == lx) by {
            if lx + ly < 255 {
                assert(t == lx + 255);
            } else {
                assert(t == lx);
            }
        }
        let k2: nat = if lx >= ly { (lx - ly) as nat } else { (lx + 255 - ly) as nat };
        assert(((lx + (255 - ly)) as nat) % 255 == k2);
        lemma_log_of_exp(k2 as int);
        let w = gf_div(x, y);
        assert(w == exp_entry(k2 as int));
        assert(spec_log(w) == k2);
        assert((k2 + ly) % 255 == lx);
        assert((ly + k2) % 255 == lx);
    }
}

/// Multiplication in GF(2^8) commutes.
pub proof fn lemma_mul_commutes(x: Element, y: Element)
    ensures
        gf_mul(x, y) == gf_mul(y, x),
{
}

/// One is the neutral element of multiplication.
pub proof fn lemma_mul_one(x: Element)
    ensures
        gf_mul(1, x) == x,
        gf_mul(x, 1) == x,
{
    lemma_exp_zero();
    if x != 0 {
        lemma_exp_of_log(x as int);
        assert((0 + spec_log(x)) % 255 == spec_log(x));
        assert((spec_log(x) + 0) % 255 == spec_log(x));
    }
}

} // verus!
