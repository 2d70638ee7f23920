use vstd::prelude::*;
use super::galois::{Element, gf_mul, gf_div, gf_pow, spec_log, table_multiply, table_divide, table_pow,
    lemma_mul_one, lemma_mul_div_inverse};
use super::lookup::{generator_entry, generator_ec, generator_lookup, lemma_generator_entry,
    lemma_exp_zero};
use crate::qr_standard::tables::{find_errc, spec_find_errc, lemma_find_errc};

verus! {

/// A polynomial over GF(2^8), from its highest power of x down to its
/// constant term: `[a, b, c]` is a x^2 + b x + c.
pub type Polynomial = Vec<Element>;

/// The `i`-th entry of `p`, or zero outside of it.
pub open spec fn coef(p: Seq<u8>, i: int) -> u8 {
    if 0 <= i < p.len() {
        p[i]
    } else {
        0
    }
}

/// The sum of two polynomials: both are aligned on their constant terms and
/// added coefficient by coefficient (addition in GF(2^8) is xor).
pub open spec fn spec_poly_add(a: Seq<u8>, b: Seq<u8>) -> Seq<u8> {
    let n = if a.len() >= b.len() { a.len() } else { b.len() };
    Seq::new(n, |k: int| coef(a, k - (n - a.len())) ^ coef(b, k - (n - b.len())))
}

/// Addition in GF(2^8), exclusive or, is commutative and associative, has
/// zero as its neutral element, and every element is its own negative.
pub proof fn lemma_xor_facts(a: u8, b: u8, c: u8)
    ensures
        a ^ b == b ^ a,
        (a ^ b) ^ c == a ^ (b ^ c),
        a ^ 0 == a,
        0 ^ a == a,
        a ^ a == 0,
{
    assert(a ^ b == b ^ a && (a ^ b) ^ c == a ^ (b ^ c) && a ^ 0 == a && 0 ^ a == a && a ^ a == 0) by (bit_vector);
}

/// The sum of two polynomials, aligned at their last coefficients.
pub fn polynomial_add(poly1: &Polynomial, poly2: &Polynomial) -> (r: Polynomial)
    ensures
        r@ == spec_poly_add(poly1@, poly2@),
{
    let p1_len = poly1.len();
    let p2_len = poly2.len();
    let out_len = if p1_len >= p2_len { p1_len } else { p2_len };
    let mut output: Polynomial = Vec::new();
    let mut k: usize = 0;
    while k < out_len
        invariant
            k <= out_len,
            out_len == (if p1_len >= p2_len { p1_len } else { p2_len }),
            p1_len == poly1@.len(),
            p2_len == poly2@.len(),
            output@.len() == k,
            forall|j: int| 0 <= j < k ==> output@[j] == coef(poly1@, j - (out_len - p1_len)),
        decreases out_len - k,
    {
        if k >= out_len - p1_len {
            output.push(poly1[k - (out_len - p1_len)]);
        } else {
            output.push(0);
        }
        k = k + 1;
    }
    let mut i: usize = 0;
    while i < p2_len
        invariant
            i <= p2_len,
            out_len == (if p1_len >= p2_len { p1_len } else { p2_len }),
            p1_len == poly1@.len(),
            p2_len == poly2@.len(),
            output@.len() == out_len,
            forall|j: int|
                0 <= j < out_len ==> output@[j] == (if 0 <= j - (out_len - p2_len) < i {
                    coef(poly1@, j - (out_len - p1_len)) ^ coef(poly2@, j - (out_len - p2_len))
                } else {
                    coef(poly1@, j - (out_len - p1_len))
                }),
        decreases p2_len - i,
    {
        let idx = (out_len - p2_len) + i;
        let v = output[idx] ^ poly2[i];
        output.set(idx, v);
        i = i + 1;
    }
    proof {
        assert forall|j: int| 0 <= j < out_len implies output@[j] == spec_poly_add(poly1@, poly2@)[j] by {
            if j - (out_len - p2_len) < 0 {
                lemma_xor_facts(coef(poly1@, j - (out_len - p1_len)), 0, 0);
            }
        }
    }
    assert(output@ =~= spec_poly_add(poly1@, poly2@));
    output
}

/// The xor of the products `a[i] * b[k - i]` for `lo <= i < hi`.
pub open spec fn mul_terms(a: Seq<u8>, b: Seq<u8>, k: int, lo: int, hi: int) -> u8
    decreases hi - lo,
{
    if lo >= hi {
        0
    } else {
        gf_mul(a[lo], b[k - lo]) ^ mul_terms(a, b, k, lo + 1, hi)
    }
}

/// The coefficient of the product of `a` and `b` at index `k` (counted from
/// the highest power): the sum of `a[i] * b[j]` over all `i + j == k`.
pub open spec fn product_coef(a: Seq<u8>, b: Seq<u8>, k: int) -> u8 {
    let lo = if k - (b.len() - 1) > 0 { k - (b.len() - 1) } else { 0 };
    let hi = if k < a.len() - 1 { k + 1 } else { a.len() as int };
    mul_terms(a, b, k, lo, hi)
}

/// The product of two non-empty polynomials.
pub open spec fn spec_poly_mul(a: Seq<u8>, b: Seq<u8>) -> Seq<u8> {
    Seq::new((a.len() + b.len() - 1) as nat, |k: int| product_coef(a, b, k))
}

/// Sums the products `poly1[i] * poly2[k - i]` for `i` from `hi - 1` down to
/// `lo`.
fn sum_diagonal(poly1: &Polynomial, poly2: &Polynomial, k: usize, lo: usize, hi: usize) -> (r: u8)
    requires
        lo <= hi <= poly1@.len(),
        hi <= k + 1,
        k < lo + poly2@.len(),
    ensures
        r == mul_terms(poly1@, poly2@, k as int, lo as int, hi as int),
{
    let mut sum: u8 = 0;
    let mut i = hi;
    while i > lo
        invariant
            lo <= i <= hi,
            hi <= poly1@.len(),
            hi <= k + 1,
            k < lo + poly2@.len(),
            sum == mul_terms(poly1@, poly2@, k as int, i as int, hi as int),
        decreases i,
    {
        i = i - 1;
        let t = table_multiply(poly1[i], poly2[k - i]);
        proof { lemma_xor_facts(sum, t, 0); }
        sum = sum ^ t;
    }
    sum
}

/// The product of two polynomials.
pub fn es_polynomial_multiply(poly1: &Polynomial, poly2: &Polynomial) -> (r: Polynomial)
    requires
        poly1@.len() >= 1,
        poly2@.len() >= 1,
        poly1@.len() + poly2@.len() <= usize::MAX,
    ensures
        r@ == spec_poly_mul(poly1@, poly2@),
        r@.len() == poly1@.len() + poly2@.len() - 1,
{
    let deg1 = poly1.len() - 1;
    let deg2 = poly2.len() - 1;
    let mut output: Polynomial = Vec::new();
    let mut k: usize = 0;
    // the coefficients of the product lie along the diagonals of the
    // rectangle of all products poly1[i] * poly2[j]
    while k < deg1 + deg2 + 1
        invariant
            deg1 == poly1@.len() - 1,
            deg2 == poly2@.len() - 1,
            poly1@.len() + poly2@.len() <= usize::MAX,
            k <= deg1 + deg2 + 1,
            output@.len() == k,
            forall|j: int| 0 <= j < k ==> output@[j] == product_coef(poly1@, poly2@, j),
        decreases deg1 + deg2 + 1 - k,
    {
        let lo = if k > deg2 { k - deg2 } else { 0 };
        let hi = if k < deg1 { k + 1 } else { deg1 + 1 };
        let s = sum_diagonal(poly1, poly2, k, lo, hi);
        output.push(s);
        k = k + 1;
    }
    assert(output@ =~= spec_poly_mul(poly1@, poly2@));
    output
}

/// The Reed-Solomon generator polynomial with `n` error correction symbols:
/// (x + 2^0)(x + 2^1)...(x + 2^(n-1)).
pub open spec fn spec_rs_generator(n: nat) -> Seq<u8>
    decreases n,
{
    if n == 0 {
        seq![1u8]
    } else {
        spec_poly_mul(spec_rs_generator((n - 1) as nat), seq![1u8, gf_pow(2, (n - 1) as nat)])
    }
}

/// The generator polynomial with `n` symbols is monic, of degree `n`.
pub proof fn lemma_rs_generator(n: nat)
    ensures
        spec_rs_generator(n).len() == n + 1,
        spec_rs_generator(n)[0] == 1,
    decreases n,
{
    if n > 0 {
        lemma_rs_generator((n - 1) as nat);
        let g = spec_rs_generator((n - 1) as nat);
        let m = seq![1u8, gf_pow(2, (n - 1) as nat)];
        lemma_mul_one(1);
        lemma_xor_facts(gf_mul(1, 1), 0, 0);
        assert(product_coef(g, m, 0) == mul_terms(g, m, 0, 0, 1));
        assert(mul_terms(g, m, 0, 1, 1) == 0);
    }
}

/// The Reed-Solomon generator polynomial with `ec_symbols` symbols.
pub fn make_rdsm_generator_polynomial(ec_symbols: u32) -> (r: Polynomial)
    requires
        ec_symbols + 3 <= usize::MAX,
    ensures
        r@ == spec_rs_generator(ec_symbols as nat),
{
    let mut output: Polynomial = Vec::new();
    output.push(1);
    let mut i: u32 = 0;
    proof {
        lemma_exp_zero();
        assert(output@ =~= spec_rs_generator(0));
    }
    while i < ec_symbols
        invariant
            i <= ec_symbols,
            ec_symbols + 3 <= usize::MAX,
            output@ == spec_rs_generator(i as nat),
        decreases ec_symbols - i,
    {
        proof {
            lemma_rs_generator(i as nat);
            lemma_exp_zero();
            assert(spec_log(2) == 1);
            assert(spec_log(2) * i == i);
        }
        let p = table_pow(2, i);
        let mut multiplier: Polynomial = Vec::new();
        multiplier.push(1);
        multiplier.push(p);
        assert(multiplier@ =~= seq![1u8, gf_pow(2, i as nat)]);
        output = es_polynomial_multiply(&output, &multiplier);
        i = i + 1;
    }
    output
}

/// The index of the first non-zero coefficient of `p` at or after `i`, or
/// the index of the last coefficient if there is none.
pub open spec fn lz_from(p: Seq<u8>, i: int) -> int
    decreases p.len() - i,
{
    if i >= p.len() {
        p.len() - 1
    } else if p[i] != 0 {
        i
    } else {
        lz_from(p, i + 1)
    }
}

/// The number of leading zero coefficients of `p`, keeping at least one.
pub open spec fn spec_leading_zeros(p: Seq<u8>) -> int {
    lz_from(p, 0)
}

proof fn lemma_lz_from(p: Seq<u8>, i: int, d: int)
    requires
        0 <= i,
        d < p.len(),
        forall|j: int| i <= j <= d ==> p[j] == 0,
    ensures
        lz_from(p, i) >= d,
        lz_from(p, i) < p.len(),
        i < p.len() ==> lz_from(p, i) >= i,
    decreases p.len() - i,
{
    if i < p.len() && p[i] == 0 {
        lemma_lz_from(p, i + 1, d);
    } else if i < p.len() {
        assert(i > d);
    }
}

fn leading_zeros(poly: &Polynomial) -> (r: usize)
    requires
        poly@.len() >= 1,
    ensures
        r == spec_leading_zeros(poly@),
{
    let mut i: usize = 0;
    while i < poly.len()
        invariant
            i <= poly@.len(),
            poly@.len() >= 1,
            lz_from(poly@, i as int) == spec_leading_zeros(poly@),
        decreases poly@.len() - i,
    {
        if poly[i] != 0 {
            return i;
        }
        i = i + 1;
    }
    poly.len() - 1
}

/// One step of long division by `divisor`: the coefficient at `shift` is
/// cancelled by subtracting (xor-ing) the divisor, scaled to match it and
/// lined up with it.
pub open spec fn elim_step(out: Seq<u8>, divisor: Seq<u8>, shift: int) -> Seq<u8> {
    if out[shift] == 0 {
        out
    } else {
        let m = gf_div(out[shift], divisor[0]);
        Seq::new(out.len(), |k: int|
            if shift <= k < shift + divisor.len() {
                out[k] ^ gf_mul(divisor[k - shift], m)
            } else {
                out[k]
            })
    }
}

/// Long division steps at `shift`, `shift + 1`, ..., `last`.
pub open spec fn elim_from(out: Seq<u8>, divisor: Seq<u8>, shift: int, last: int) -> Seq<u8>
    decreases last + 1 - shift,
{
    if shift > last {
        out
    } else {
        elim_from(elim_step(out, divisor, shift), divisor, shift + 1, last)
    }
}

/// The remainder of `dividend` divided by `divisor`, without its leading
/// zero coefficients (but at least one coefficient).
pub open spec fn spec_poly_rem(dividend: Seq<u8>, divisor: Seq<u8>) -> Seq<u8> {
    if dividend.len() < divisor.len() {
        dividend
    } else {
        let o = elim_from(dividend, divisor, 0, dividend.len() - divisor.len());
        o.subrange(spec_leading_zeros(o), o.len() as int)
    }
}

/// Each division step clears the coefficient it works on, and leaves the
/// ones before it alone.
proof fn lemma_elim_step(out: Seq<u8>, divisor: Seq<u8>, shift: int)
    requires
        0 <= shift,
        shift + divisor.len() <= out.len(),
        divisor.len() >= 1,
        divisor[0] != 0,
    ensures
        elim_step(out, divisor, shift).len() == out.len(),
        elim_step(out, divisor, shift)[shift] == 0,
        forall|j: int| 0 <= j < shift ==> elim_step(out, divisor, shift)[j] == out[j],
{
    if out[shift] != 0 {
        lemma_mul_div_inverse(out[shift], divisor[0]);
        lemma_xor_facts(out[shift], 0, 0);
    }
}

/// After all steps, the coefficients before the remainder are all zero.
proof fn lemma_elim_from(out: Seq<u8>, divisor: Seq<u8>, shift: int, last: int)
    requires
        0 <= shift,
        last + divisor.len() <= out.len(),
        divisor.len() >= 1,
        divisor[0] != 0,
        forall|j: int| 0 <= j < shift ==> out[j] == 0,
    ensures
        elim_from(out, divisor, shift, last).len() == out.len(),
        forall|j: int| 0 <= j <= last ==> elim_from(out, divisor, shift, last)[j] == 0,
        shift > last ==> forall|j: int| 0 <= j < shift ==> elim_from(out, divisor, shift, last)[j] == 0,
    decreases last + 1 - shift,
{
    if shift <= last {
        lemma_elim_step(out, divisor, shift);
        lemma_elim_from(elim_step(out, divisor, shift), divisor, shift + 1, last);
    }
}

/// The remainder has fewer coefficients than the divisor (when the divisor
/// has more than one).
pub proof fn lemma_poly_rem_len(dividend: Seq<u8>, divisor: Seq<u8>)
    requires
        divisor.len() >= 2,
        divisor[0] != 0,
    ensures
        spec_poly_rem(dividend, divisor).len() <= divisor.len() - 1 || dividend.len() < divisor.len(),
        dividend.len() >= divisor.len() ==> spec_poly_rem(dividend, divisor).len() >= 1,
{
    if dividend.len() >= divisor.len() {
        let last = dividend.len() - divisor.len();
        lemma_elim_from(dividend, divisor, 0, last);
        let o = elim_from(dividend, divisor, 0, last);
        lemma_lz_from(o, 0, last);
        if spec_leading_zeros(o) == last {
            assert(o[last] == 0);
            lemma_lz_last(o, last);
        }
    }
}

proof fn lemma_lz_last(p: Seq<u8>, d: int)
    requires
        0 <= d < p.len(),
        forall|j: int| 0 <= j <= d ==> p[j] == 0,
        lz_from(p, 0) == d,
    ensures
        d == p.len() - 1,
{
    lemma_lz_from_value(p, 0);
}

proof fn lemma_lz_from_value(p: Seq<u8>, i: int)
    requires
        0 <= i,
    ensures
        lz_from(p, i) == p.len() - 1 || (i <= lz_from(p, i) < p.len() && p[lz_from(p, i)] != 0),
    decreases p.len() - i,
{
    if i < p.len() && p[i] == 0 {
        lemma_lz_from_value(p, i + 1);
    }
}

/// The remainder of dividing one polynomial by another.
pub fn polynomial_remainder(dividend: &Polynomial, divisor: &Polynomial) -> (r: Polynomial)
    requires
        divisor@.len() >= 1,
        divisor@[0] != 0,
    ensures
        r@ == spec_poly_rem(dividend@, divisor@),
{
    let diff = if let Some(d) = dividend.len().checked_sub(divisor.len()) {
        d
    } else {
        return dividend.clone();
    };
    let mut output = dividend.clone();
    assert(output@ =~= dividend@);
    let mut shift: usize = 0;
    while shift <= diff
        invariant
            diff == dividend@.len() - divisor@.len(),
            dividend@.len() <= usize::MAX,
            divisor@.len() >= 1,
            divisor@[0] != 0,
            shift <= diff + 1,
            output@.len() == dividend@.len(),
            elim_from(output@, divisor@, shift as int, diff as int)
                == elim_from(dividend@, divisor@, 0, diff as int),
        decreases diff + 1 - shift,
    {
        let ghost before = output@;
        if output[shift] != 0 {
            let multiplier = table_divide(output[shift], divisor[0]);
            let mut index: usize = 0;
            while index < divisor.len()
                invariant
                    shift + divisor@.len() <= output@.len(),
                    output@.len() <= usize::MAX,
                    output@.len() == before.len(),
                    index <= divisor@.len(),
                    before[shift as int] != 0,
                    multiplier == gf_div(before[shift as int], divisor@[0]),
                    forall|k: int| 0 <= k < output@.len() ==> output@[k] == (
                        if shift <= k < shift + index {
                            before[k] ^ gf_mul(divisor@[k - shift], multiplier)
                        } else {
                            before[k]
                        }),
                decreases divisor@.len() - index,
            {
                let v = output[index + shift] ^ table_multiply(divisor[index], multiplier);
                output.set(index + shift, v);
                index = index + 1;
            }
            assert(output@ =~= elim_step(before, divisor@, shift as int));
        } else {
            assert(output@ =~= elim_step(before, divisor@, shift as int));
        }
        shift = shift + 1;
    }
    let ghost o = output@;
    proof {
        lemma_elim_from(dividend@, divisor@, 0, diff as int);
        lemma_lz_from(o, 0, diff as int);
    }
    let lead = leading_zeros(&output);
    assert(lead >= diff);
    let mut rem: Polynomial = Vec::new();
    let mut k = lead;
    while k < output.len()
        invariant
            lead <= k <= output@.len(),
            output@ == o,
            rem@ == o.subrange(lead as int, k as int),
        decreases output@.len() - k,
    {
        rem.push(output[k]);
        k = k + 1;
    }
    rem
}

/// The generator polynomial that QR codes use for `ec` error correction
/// codewords: a stored one where there is one, otherwise the product
/// (x + 2^0)...(x + 2^(ec-1)).
pub open spec fn spec_qr_generator(ec: nat) -> Seq<u8> {
    match spec_find_errc(ec as int) {
        Some(i) => generator_entry(i),
        None => spec_rs_generator(ec),
    }
}

/// The QR generator polynomial for `ec` codewords is monic, of degree `ec`.
pub proof fn lemma_qr_generator(ec: nat)
    ensures
        spec_qr_generator(ec).len() == ec + 1,
        spec_qr_generator(ec)[0] == 1,
{
    match spec_find_errc(ec as int) {
        Some(i) => {
            lemma_find_errc(ec as int);
            lemma_generator_entry(i);
        },
        None => {
            lemma_rs_generator(ec);
        },
    }
}

/// `message` followed by `ec` zero coefficients: the message times x^ec.
pub open spec fn spec_padded(message: Seq<u8>, ec: nat) -> Seq<u8> {
    message + Seq::new(ec, |i: int| 0u8)
}

/// The Reed-Solomon encoding of `message` with `ec` error correction
/// codewords: the message times x^ec, plus the remainder of its division by
/// the generator polynomial.
pub open spec fn spec_encode(message: Seq<u8>, ec: nat) -> Seq<u8> {
    let padded = spec_padded(message, ec);
    spec_poly_add(padded, spec_poly_rem(padded, spec_qr_generator(ec)))
}

/// The encoding is systematic: it has the message's coefficients first and
/// then `ec` error correction codewords.
pub proof fn lemma_encode_systematic(message: Seq<u8>, ec: nat)
    requires
        ec >= 1,
    ensures
        spec_encode(message, ec).len() == message.len() + ec,
        spec_encode(message, ec).subrange(0, message.len() as int) == message,
{
    let padded = spec_padded(message, ec);
    let g = spec_qr_generator(ec);
    lemma_qr_generator(ec);
    lemma_poly_rem_len(padded, g);
    let rem = spec_poly_rem(padded, g);
    let n = padded.len();
    assert forall|k: int| 0 <= k < message.len() implies spec_encode(message, ec)[k] == message[k] by {
        lemma_xor_facts(message[k], 0, 0);
    }
    assert(spec_encode(message, ec).subrange(0, message.len() as int) =~= message);
}

/// The message followed by its `ec_symbols` error correction codewords.
pub fn encode_message(message: &Polynomial, ec_symbols: u32) -> (r: Polynomial)
    requires
        message@.len() + ec_symbols + 3 <= usize::MAX,
    ensures
        r@ == spec_encode(message@, ec_symbols as nat),
        r@.len() == message@.len() + ec_symbols,
        ec_symbols >= 1 ==> r@.subrange(0, message@.len() as int) == message@,
{
    let generator_polynomial: Polynomial = if let Some(index) = find_errc(ec_symbols as usize) {
        proof { lemma_find_errc(ec_symbols as int); }
        generator_lookup(index)
    } else {
        make_rdsm_generator_polynomial(ec_symbols)
    };
    proof { lemma_qr_generator(ec_symbols as nat); }
    let mut message_padded = message.clone();
    assert(message_padded@ =~= message@);
    let mut i: u32 = 0;
    while i < ec_symbols
        invariant
            i <= ec_symbols,
            message@.len() + ec_symbols + 3 <= usize::MAX,
            message_padded@ =~= message@ + Seq::new(i as nat, |j: int| 0u8),
        decreases ec_symbols - i,
    {
        message_padded.push(0);
        i = i + 1;
    }
    let remainder = polynomial_remainder(&message_padded, &generator_polynomial);
    let r = polynomial_add(&message_padded, &remainder);
    proof {
        if ec_symbols >= 1 {
            lemma_encode_systematic(message@, ec_symbols as nat);
        } else {
            assert(generator_polynomial@.len() == 1);
            let padded = message_padded@;
            if padded.len() >= 1 {
                let o = elim_from(padded, generator_polynomial@, 0, padded.len() - 1);
                lemma_elim_from(padded, generator_polynomial@, 0, padded.len() - 1);
                lemma_lz_from(o, 0, padded.len() - 1);
            }
        }
    }
    r
}

} // verus!
