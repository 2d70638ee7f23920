use vstd::prelude::*;
use vstd::string::StringSliceAdditionalSpecFns;
use crate::image::Bitmap;
use crate::rdsm::poly::{Polynomial, encode_message, spec_encode};
use super::tables::{VersionBlockInfo, get_block_info, spec_block_info, lemma_block_info, lemma_second_group, ec_block_entry, lemma_block_info_entries};
use super::{max_index, bitmap_version, next_data_bit, spec_next_data_bit, format_cell, FORMAT_MASK,
    spec_data_to_fcode, data_to_fcode, set_fcode, mask_flips, blank_pixel, QR, lemma_format_roundtrip,
    spec_total_penalty, spec_bad_version, new_blank_qr_code, qr_mask_xor, mask_applied};
use super::bitstream::{Mode, Token, segs_view, spec_token_stream, make_token_stream, tokens_bits,
    tokens_to_badstream, find_best_version, fixed_bits, mode_count, smallest_fit, overhead_total, fits,
    cc_column, token_valid, tokens_valid, all_valid, lemma_token_stream_valid, lemma_template_counts_bits,
    segment_valid, lemma_smallest_fit_range, segments_tokens};
use super::search::{optimize_mode, text_runs, lemma_text_runs_valid};
use super::bitstream::{is_digit, is_alphanum};
use super::tables::alphanum_value;
use super::tables::{CC_INDICATOR_BITS, DATA_CODEWORDS, TOTAL_CODEWORDS, data_codewords, ECI_UTF8, block_total};
use super::penalties::lemma_qr_penalty_computable;
use vstd::utf8::{encode_utf8, is_ascii_chars};

verus! {

/// A stream of bits, one per byte: a bit is set if its byte is not zero.
pub type Badstream = Vec<u8>;

/// The stream bits of a string of `'0'` and `'1'` characters.
pub open spec fn char_bits(bits: Seq<char>) -> Seq<u8> {
    bits.map_values(|c: char| if c == '1' { 1u8 } else { 0u8 })
}

/// Appends the bits written as `'0'` and `'1'` characters in `bits`.
pub fn push_bits(bits: &str, stream: &mut Badstream)
    requires
        forall|i: int| 0 <= i < bits@.len() ==> #[trigger] bits@[i] == '0' || bits@[i] == '1',
    ensures
        final(stream)@ == old(stream)@ + char_bits(bits@),
{
    broadcast use vstd::string::is_ascii_spec_bytes;
    proof {
        assert(vstd::string::is_ascii(bits));
    }
    let bytes = bits.as_bytes();
    let ghost start = stream@;
    let mut i: usize = 0;
    while i < bytes.len()
        invariant
            bytes@ == bits.spec_bytes(),
            bytes@.len() == bits@.len(),
            forall|k: int| 0 <= k < bits@.len() ==> #[trigger] bytes@[k] == bits@[k] as u8,
            forall|k: int| 0 <= k < bits@.len() ==> #[trigger] bits@[k] == '0' || bits@[k] == '1',
            i <= bytes.len(),
            stream@ == start + char_bits(bits@).subrange(0, i as int),
        decreases bytes.len() - i,
    {
        let b = bytes[i];
        stream.push(if b == 49u8 { 1u8 } else { 0u8 });
        proof {
            assert(stream@ =~= start + char_bits(bits@).subrange(0, i + 1));
        }
        i = i + 1;
    }
    assert(char_bits(bits@).subrange(0, i as int) =~= char_bits(bits@));
}

/// The stream bits of a byte, highest first: each is the byte with all
/// other bits cleared.
pub open spec fn byte_bits(byte: u8) -> Seq<u8> {
    Seq::new(8, |t: int| byte & (1u8 << ((7 - t) as u8)))
}

/// Appends the 8 bits of a byte, highest first.
pub fn push_byte(byte: u8, stream: &mut Badstream)
    ensures
        final(stream)@ == old(stream)@ + byte_bits(byte),
{
    let ghost start = stream@;
    let mut k: u8 = 8;
    while k > 0
        invariant
            k <= 8,
            stream@ == start + byte_bits(byte).subrange(0, 8 - k),
        decreases k,
    {
        k = k - 1;
        stream.push(byte & (1u8 << k));
        proof {
            assert(stream@ =~= start + byte_bits(byte).subrange(0, 8 - k));
        }
    }
    assert(byte_bits(byte).subrange(0, 8) =~= byte_bits(byte));
}

/// The bit that a stream element stands for: 1 if it is not zero.
pub open spec fn stream_bit(b: u8) -> u8 {
    if b != 0 { 1u8 } else { 0u8 }
}

/// Stream bits shifted into a byte one after another, highest first (only
/// the last 8 count).
pub open spec fn pack_bits(s: Seq<u8>) -> u8
    decreases s.len(),
{
    if s.len() == 0 {
        0
    } else {
        ((pack_bits(s.drop_last()) << 1u8) | stream_bit(s.last())) as u8
    }
}

/// The codewords of a stream: its bits in groups of 8, each group packed
/// into a byte; one zero codeword for an empty stream.
pub open spec fn spec_to_polynomial(s: Seq<u8>) -> Seq<u8> {
    if s.len() == 0 {
        seq![0u8]
    } else {
        Seq::new(((s.len() + 7) / 8) as nat, |k: int| pack_bits(s.subrange(8 * k,
            if 8 * k + 8 <= s.len() { 8 * k + 8 } else { s.len() as int })))
    }
}

proof fn lemma_pack_facts(b: u8)
    by (bit_vector)
    ensures
        ((b as u32) >> 8u32) as u8 == 0u8,
        ((b as u32) >> 0u32) as u8 == b,
        forall|j: u32| j < 8 ==> #[trigger] (((((b as u32) >> ((8u32 - j) as u32)) as u8) << 1u8)
            | stream_bit(b & (1u8 << ((7u32 - j) as u8)))) as u8 == ((b as u32) >> ((7u32 - j) as u32)) as u8,
{
}

proof fn lemma_pack_prefix(b: u8, k: int)
    requires
        0 <= k <= 8,
    ensures
        pack_bits(byte_bits(b).subrange(0, k)) == ((b as u32) >> ((8 - k) as u32)) as u8,
    decreases k,
{
    if k == 0 {
        assert(byte_bits(b).subrange(0, 0) =~= Seq::<u8>::empty());
        lemma_pack_facts(b);
    } else {
        lemma_pack_prefix(b, k - 1);
        let s = byte_bits(b).subrange(0, k);
        assert(s.drop_last() =~= byte_bits(b).subrange(0, k - 1));
        let j = (k - 1) as u32;
        assert(s.last() == b & (1u8 << ((7u32 - j) as u8)));
        lemma_pack_facts(b);
        assert((((((b as u32) >> ((8u32 - j) as u32)) as u8) << 1u8) | stream_bit(b & (1u8 << ((7u32 - j) as u8)))) as u8
            == ((b as u32) >> ((7u32 - j) as u32)) as u8);
        assert((8 - (k - 1)) as u32 == (8u32 - j) as u32);
        assert((8 - k) as u32 == (7u32 - j) as u32);
    }
}

/// Packing the stream bits that `push_byte` writes gives back the byte.
pub proof fn lemma_pack_byte(b: u8)
    ensures
        spec_to_polynomial(byte_bits(b)) == seq![b],
{
    lemma_pack_prefix(b, 8);
    assert(byte_bits(b).subrange(0, 8) =~= byte_bits(b));
    lemma_pack_facts(b);
    assert(spec_to_polynomial(byte_bits(b)) =~= seq![b]);
}

/// Packs a stream into codewords, 8 bits each.
pub fn badstream_to_polynomial(input: &Badstream) -> (r: Polynomial)
    ensures
        r@ == spec_to_polynomial(input@),
{
    let mut output: Polynomial = Vec::new();
    let mut pushbyte: u8 = 0;
    let mut i: usize = 0;
    let ghost s = input@;
    while i < input.len()
        invariant
            s == input@,
            i <= s.len(),
            output@.len() == (if i == 0 { 0 } else { (i - 1) / 8 }),
            pushbyte == pack_bits(s.subrange((8 * output@.len()) as int, i as int)),
            forall|k: int| 0 <= k < output@.len() ==> #[trigger] output@[k] == pack_bits(s.subrange(8 * k, 8 * k + 8)),
        decreases s.len() - i,
    {
        if i % 8 == 0 && i != 0 {
            proof {
                assert(8 * ((i - 1) / 8) + 8 == i);
            }
            output.push(pushbyte);
            pushbyte = 0;
            proof {
                assert(s.subrange(i as int, i as int) =~= Seq::<u8>::empty());
            }
        } else {
            proof {
                if i > 0 {
                    assert((i - 1) / 8 == i / 8);
                }
            }
        }
        let ghost q = (8 * output@.len()) as int;
        let bit: u8 = if input[i] != 0 { 1 } else { 0 };
        pushbyte = (pushbyte << 1) | bit;
        proof {
            assert(s.subrange(q, i + 1).drop_last() =~= s.subrange(q, i as int));
            assert(s.subrange(q, i + 1).last() == s[i as int]);
            assert(pack_bits(s.subrange(q, i + 1)) == ((pack_bits(s.subrange(q, i as int)) << 1u8) | stream_bit(s[i as int])) as u8);
        }
        i = i + 1;
    }
    output.push(pushbyte);
    proof {
        let r = output@;
        if s.len() == 0 {
            assert(r =~= seq![0u8]);
        } else {
            assert(r =~= spec_to_polynomial(s));
        }
    }
    output
}

/// The pad codeword at position `i` of the padding: `0xEC`, `0x11`, ...
pub open spec fn pad_codeword(i: int) -> u8 {
    if i % 2 == 0 { 0xECu8 } else { 0x11u8 }
}

/// The 8 bits of a byte as stream bits of value 0 or 1, highest first.
pub open spec fn byte_bit_values(byte: u8) -> Seq<u8> {
    Seq::new(8, |t: int| (byte >> ((7 - t) as u8)) & 1u8)
}

/// The stream bits of `k` pad codewords.
pub open spec fn pad_bits(k: int) -> Seq<u8>
    decreases k,
{
    if k <= 0 {
        Seq::empty()
    } else {
        pad_bits(k - 1) + byte_bit_values(pad_codeword(k - 1))
    }
}

/// The number of zero bits that bring a stream of `len` bits to a codeword
/// boundary.
pub open spec fn fill_bits(len: int) -> int {
    if len % 8 == 0 { 0 } else { 8 - len % 8 }
}

/// A stream of `len` bits can be padded to `codeword_length` codewords: it
/// fits, and if its last codeword is incomplete it is not the last one.
pub open spec fn can_pad(len: int, codeword_length: int) -> bool {
    &&& codeword_length >= 1
    &&& (len + 7) / 8 <= codeword_length
    &&& !((len + 7) / 8 > codeword_length - 1 && len % 8 != 0)
    &&& 8 * codeword_length <= usize::MAX
}

/// The stream padded to `codeword_length` codewords: zero bits up to a
/// codeword boundary, then pad codewords.
pub open spec fn spec_padded_stream(s: Seq<u8>, codeword_length: int) -> Seq<u8> {
    let filled = s.len() + fill_bits(s.len() as int);
    s + Seq::new(fill_bits(s.len() as int) as nat, |i: int| 0u8) + pad_bits(codeword_length - filled / 8)
}

proof fn lemma_pad_bits_len(k: int)
    requires
        k >= 0,
    ensures
        pad_bits(k).len() == 8 * k,
    decreases k,
{
    if k > 0 {
        lemma_pad_bits_len(k - 1);
    }
}

/// Pads a stream to `codeword_length` codewords: zero bits up to a codeword
/// boundary, then the pad codewords 11101100 and 00010001 in turn.
#[verifier::rlimit(40)]
pub fn pad_to(codeword_length: usize, stream: &mut Badstream)
    requires
        can_pad(old(stream)@.len() as int, codeword_length as int),
    ensures
        final(stream)@ == spec_padded_stream(old(stream)@, codeword_length as int),
        final(stream)@.len() == 8 * codeword_length,
{
    let ghost start = stream@;
    let ghost fill = fill_bits(start.len() as int);
    if stream.len() % 8 != 0 {
        let target = stream.len() + (8 - stream.len() % 8);
        while stream.len() < target
            invariant
                target == start.len() + fill,
                start.len() <= stream@.len() <= target,
                stream@ == start + Seq::new((stream@.len() - start.len()) as nat, |i: int| 0u8),
            decreases target - stream@.len(),
        {
            stream.push(0);
            proof {
                assert(stream@ =~= start + Seq::new((stream@.len() - start.len()) as nat, |i: int| 0u8));
            }
        }
    }
    assert(stream@ =~= start + Seq::new(fill as nat, |i: int| 0u8));
    assert((start.len() + fill) % 8 == 0);
    assert((start.len() + fill) / 8 == (start.len() + 7) / 8);
    let ghost filled = stream@;
    let count = codeword_length - stream.len() / 8;
    let mut i: usize = 0;
    proof { lemma_pad_bits_len(0); }
    while i < count
        invariant
            count == codeword_length - filled.len() / 8,
            filled.len() % 8 == 0,
            filled.len() / 8 <= codeword_length,
            8 * codeword_length <= usize::MAX,
            i <= count,
            stream@ == filled + pad_bits(i as int),
            stream@.len() == filled.len() + 8 * i,
        decreases count - i,
    {
        let a: u8 = if i % 2 == 0 { 0xEC } else { 0x11 };
        let ghost before = stream@;
        let mut k: u8 = 8;
        while k > 0
            invariant
                k <= 8,
                stream@ == before + byte_bit_values(a).subrange(0, 8 - k),
            decreases k,
        {
            k = k - 1;
            stream.push((a >> k) & 1);
            proof {
                assert(stream@ =~= before + byte_bit_values(a).subrange(0, 8 - k));
            }
        }
        assert(byte_bit_values(a).subrange(0, 8) =~= byte_bit_values(a));
        proof {
            lemma_pad_bits_len(i + 1);
            assert(stream@ =~= filled + pad_bits(i + 1));
        }
        i = i + 1;
    }
    assert(filled.len() == 8 * (filled.len() / 8));
}

/// The module that the `k`-th bit of a stream goes to, walking the data
/// modules of a symbol of version `version` from the bottom right corner.
pub open spec fn walk_cell(version: int, k: nat) -> Option<(int, int)>
    decreases k,
{
    if k == 0 {
        Some((max_index(version), max_index(version)))
    } else {
        match walk_cell(version, (k - 1) as nat) {
            Some((x, y)) => spec_next_data_bit(x, y, version),
            None => None,
        }
    }
}

proof fn lemma_walk_ends(version: int, a: nat, b: nat)
    requires
        a <= b,
        walk_cell(version, a) is None,
    ensures
        walk_cell(version, b) is None,
    decreases b - a,
{
    if a < b {
        lemma_walk_ends(version, a, (b - 1) as nat);
    }
}

/// The colour of module `(a, b)` after writing the first `n` bits of the
/// stream along the walk: the last bit written there, or the old colour.
pub open spec fn walk_written(old: Bitmap, version: int, stream: Seq<u8>, n: nat, a: int, b: int) -> bool
    decreases n,
{
    if n == 0 {
        old.pixel(a as nat, b as nat)
    } else if walk_cell(version, (n - 1) as nat) == Some((a, b)) {
        stream[n - 1] != 0
    } else {
        walk_written(old, version, stream, (n - 1) as nat, a, b)
    }
}

/// Writes a stream into the data modules of a QR symbol, along the zigzag
/// path from the bottom right corner.
pub fn write_badstream_to_bitmap(stream: &Badstream, bitmap: &mut Bitmap)
    requires
        old(bitmap).wf(),
        bitmap_version(old(bitmap).spec_width(), old(bitmap).spec_height()) is Some,
        stream@.len() == 0 || walk_cell(
            bitmap_version(old(bitmap).spec_width(), old(bitmap).spec_height())->0,
            (stream@.len() - 1) as nat) is Some,
    ensures
        final(bitmap).wf(),
        final(bitmap).spec_width() == old(bitmap).spec_width(),
        final(bitmap).spec_height() == old(bitmap).spec_height(),
        final(bitmap).has_border() == old(bitmap).has_border(),
        forall|a: nat, b: nat| a < final(bitmap).spec_width() && b < final(bitmap).spec_height() ==>
            #[trigger] final(bitmap).pixel(a, b) == walk_written(*old(bitmap),
                bitmap_version(old(bitmap).spec_width(), old(bitmap).spec_height())->0,
                stream@, stream@.len(), a as int, b as int),
{
    let ghost start = *bitmap;
    let ghost v = bitmap_version(start.spec_width(), start.spec_height())->0;
    let version = match super::bitmap_version_of(bitmap) {
        Some(v) => v,
        None => 0,
    };
    let max = bitmap.dims().0 - 1;
    proof {
        assert(max == max_index(v));
    }
    let mut x = max;
    let mut y = max;
    let mut a: usize = 0;
    while a < stream.len()
        invariant
            bitmap.wf(),
            version == v,
            1 <= v <= 40,
            start.wf(),
            bitmap.spec_width() == start.spec_width(),
            bitmap.spec_height() == start.spec_height(),
            bitmap.has_border() == start.has_border(),
            bitmap_version(start.spec_width(), start.spec_height()) == Some(v),
            stream@.len() == 0 || walk_cell(v, (stream@.len() - 1) as nat) is Some,
            a <= stream@.len(),
            a < stream@.len() ==> walk_cell(v, a as nat) == Some((x as int, y as int)),
            forall|p: nat, q: nat| p < bitmap.spec_width() && q < bitmap.spec_height() ==>
                #[trigger] bitmap.pixel(p, q) == walk_written(start, v, stream@, a as nat, p as int, q as int),
        ensures
            a == stream@.len(),
        decreases stream@.len() - a,
    {
        let bit = stream[a];
        let ghost before = *bitmap;
        bitmap.set_bit(x, y, bit != 0);
        proof {
            assert forall|p: nat, q: nat| p < bitmap.spec_width() && q < bitmap.spec_height() implies
                #[trigger] bitmap.pixel(p, q) == walk_written(start, v, stream@, (a + 1) as nat, p as int, q as int) by {
                assert(before.pixel(p, q) == walk_written(start, v, stream@, a as nat, p as int, q as int));
            }
        }
        match next_data_bit(x, y, version) {
            Some((x2, y2)) => {
                x = x2;
                y = y2;
            },
            None => {
                proof {
                    if a + 1 < stream@.len() {
                        lemma_walk_ends(v, (a + 1) as nat, (stream@.len() - 1) as nat);
                    }
                }
                a = a + 1;
                break;
            },
        }
        a = a + 1;
    }
}

/// The data codewords of block `i` of a message split into `bc` blocks of
/// `dcw` codewords followed by blocks of `dcw2` codewords.
pub open spec fn block_data(poly: Seq<u8>, bc: int, dcw: int, dcw2: int, i: int) -> Seq<u8> {
    if i < bc {
        poly.subrange(i * dcw, (i + 1) * dcw)
    } else {
        poly.subrange(bc * dcw + (i - bc) * dcw2, bc * dcw + (i - bc + 1) * dcw2)
    }
}

/// The second group of blocks of a block layout: count, codewords, and data
/// codewords (none if there is no second group).
pub open spec fn second_group(info: VersionBlockInfo) -> (int, int, int) {
    match info.3 {
        Some((bc2, cw2, dcw2)) => (bc2 as int, cw2 as int, dcw2 as int),
        None => (0, 0, 0),
    }
}

/// A message can be split by the layout `info`: it has exactly as many
/// codewords as the blocks hold, and the blocks have error correction.
pub open spec fn splits_into(len: int, info: VersionBlockInfo) -> bool {
    let (bc, cw, dcw) = (info.0 as int, info.1 as int, info.2 as int);
    let (bc2, _, dcw2) = second_group(info);
    &&& len == dcw * bc + dcw2 * bc2
    &&& dcw <= cw
    &&& cw - dcw <= u32::MAX
    &&& dcw2 + (cw - dcw) + 3 <= usize::MAX
    &&& dcw + (cw - dcw) + 3 <= usize::MAX
    &&& bc + bc2 <= usize::MAX
}

/// Splits a message into the blocks of a layout and encodes each block with
/// `cw - dcw` error correction codewords.
pub fn split_to_blocks_and_encode(poly: &Polynomial, info: VersionBlockInfo) -> (r: Vec<Polynomial>)
    requires
        splits_into(poly@.len() as int, info),
    ensures
        r@.len() == info.0 + second_group(info).0,
        forall|i: int| 0 <= i < r@.len() ==> #[trigger] r@[i]@ == spec_encode(
            block_data(poly@, info.0 as int, info.2 as int, second_group(info).2, i), (info.1 - info.2) as nat),
{
    let (bc, cw, dcw, optional) = info;
    let (bc2, dcw2) = match optional {
        Some((b, _, d)) => (b, d),
        None => (0, 0),
    };
    let ghost p = poly@;
    let n = poly.len();
    assert(n == p.len());
    let ec = (cw - dcw) as u32;
    let mut output: Vec<Polynomial> = Vec::new();
    let mut i: usize = 0;
    while i < bc
        invariant
            p == poly@,
            splits_into(p.len() as int, info),
            bc == info.0,
            cw == info.1,
            dcw == info.2,
            bc2 == second_group(info).0,
            dcw2 == second_group(info).2,
            ec == cw - dcw,
            i <= bc,
            output@.len() == i,
            forall|k: int| 0 <= k < i ==> #[trigger] output@[k]@ == spec_encode(block_data(p, bc as int, dcw as int, dcw2 as int, k), ec as nat),
            n == p.len(),
        decreases bc - i,
    {
        proof {
            assert((i + 1) * dcw <= bc * dcw) by (nonlinear_arith) requires i < bc;
            assert(i * dcw + dcw == (i + 1) * dcw) by (nonlinear_arith);
            assert(bc * dcw <= p.len()) by (nonlinear_arith) requires p.len() == dcw * bc + dcw2 * bc2;
        }
        let a = i * dcw;
        let b = a + dcw;
        let mut block: Polynomial = Vec::new();
        let mut k = a;
        while k < b
            invariant
                p == poly@,
                a <= k <= b,
                b <= p.len(),
                block@ == p.subrange(a as int, k as int),
            decreases b - k,
        {
            block.push(poly[k]);
            proof { assert(block@ =~= p.subrange(a as int, k + 1)); }
            k = k + 1;
        }
        let encoded = encode_message(&block, ec);
        output.push(encoded);
        i = i + 1;
    }
    let mut i2: usize = 0;
    while i2 < bc2
        invariant
            p == poly@,
            splits_into(p.len() as int, info),
            bc == info.0,
            cw == info.1,
            dcw == info.2,
            bc2 == second_group(info).0,
            dcw2 == second_group(info).2,
            ec == cw - dcw,
            i2 <= bc2,
            output@.len() == bc + i2,
            forall|k: int| 0 <= k < bc + i2 ==> #[trigger] output@[k]@ == spec_encode(block_data(p, bc as int, dcw as int, dcw2 as int, k), ec as nat),
            n == p.len(),
        decreases bc2 - i2,
    {
        proof {
            assert((i2 + 1) * dcw2 <= bc2 * dcw2) by (nonlinear_arith) requires i2 < bc2;
            assert(i2 * dcw2 + dcw2 == (i2 + 1) * dcw2) by (nonlinear_arith);
            assert(bc * dcw + bc2 * dcw2 == p.len()) by (nonlinear_arith) requires p.len() == dcw * bc + dcw2 * bc2;
        }
        let a = bc * dcw + i2 * dcw2;
        let b = a + dcw2;
        let mut block: Polynomial = Vec::new();
        let mut k = a;
        while k < b
            invariant
                p == poly@,
                a <= k <= b,
                b <= p.len(),
                block@ == p.subrange(a as int, k as int),
            decreases b - k,
        {
            block.push(poly[k]);
            proof { assert(block@ =~= p.subrange(a as int, k + 1)); }
            k = k + 1;
        }
        let encoded = encode_message(&block, ec);
        output.push(encoded);
        proof {
            assert(block_data(p, bc as int, dcw as int, dcw2 as int, bc + i2) == p.subrange(a as int, b as int));
        }
        i2 = i2 + 1;
    }
    output
}

/// The stream bits of a sequence of codewords, each highest bit first.
pub open spec fn codeword_bits(cws: Seq<u8>) -> Seq<u8>
    decreases cws.len(),
{
    if cws.len() == 0 {
        Seq::empty()
    } else {
        codeword_bits(cws.drop_last()) + byte_bits(cws.last())
    }
}

/// Data codeword `i` of each of the first `nb` blocks that has one (a block
/// ends with `ec` error correction codewords).
pub open spec fn data_round(blocks: Seq<Seq<u8>>, ec: int, i: int, nb: int) -> Seq<u8>
    decreases nb,
{
    if nb <= 0 {
        Seq::empty()
    } else {
        data_round(blocks, ec, i, nb - 1) + (if i < blocks[nb - 1].len() - ec {
            seq![blocks[nb - 1][i]]
        } else {
            Seq::empty()
        })
    }
}

/// Data codewords 0 to `n - 1` of all blocks, round by round.
pub open spec fn data_rounds(blocks: Seq<Seq<u8>>, ec: int, n: int) -> Seq<u8>
    decreases n,
{
    if n <= 0 {
        Seq::empty()
    } else {
        data_rounds(blocks, ec, n - 1) + data_round(blocks, ec, n - 1, blocks.len() as int)
    }
}

/// Error correction codeword `i` of each of the first `nb` blocks.
pub open spec fn ec_round(blocks: Seq<Seq<u8>>, ec: int, i: int, nb: int) -> Seq<u8>
    decreases nb,
{
    if nb <= 0 {
        Seq::empty()
    } else {
        ec_round(blocks, ec, i, nb - 1) + seq![blocks[nb - 1][blocks[nb - 1].len() - ec + i]]
    }
}

/// Error correction codewords 0 to `n - 1` of all blocks, round by round.
pub open spec fn ec_rounds(blocks: Seq<Seq<u8>>, ec: int, n: int) -> Seq<u8>
    decreases n,
{
    if n <= 0 {
        Seq::empty()
    } else {
        ec_rounds(blocks, ec, n - 1) + ec_round(blocks, ec, n - 1, blocks.len() as int)
    }
}

/// The codewords of the encoded blocks in the order of the symbol: the data
/// codewords interleaved, then the error correction codewords interleaved.
pub open spec fn interleave(blocks: Seq<Seq<u8>>, ec: int, max_data: int) -> Seq<u8> {
    data_rounds(blocks, ec, max_data) + ec_rounds(blocks, ec, ec)
}

/// The number of data codewords of a version (1 to 40) and level (0 to 3)
/// and the number of data codewords in its longest block.
pub open spec fn data_layout(version: int, level: int) -> (int, int) {
    let (bc, cw, dcw, opt) = spec_block_info(version, level);
    match opt {
        Some((bc2, _, dcw2)) => (bc * dcw + bc2 * dcw2, dcw2),
        None => (bc * dcw, dcw),
    }
}

/// The blocks of a stream after padding it to the data capacity of the
/// version and level, each with its error correction codewords.
pub open spec fn spec_encoded_blocks(stream: Seq<u8>, version: int, level: int) -> Seq<Seq<u8>> {
    let (bc, cw, dcw, opt) = spec_block_info(version, level);
    let (bc2, dcw2) = match opt {
        Some((b, _, d)) => (b, d),
        None => (0, 0),
    };
    let poly = spec_to_polynomial(spec_padded_stream(stream, data_layout(version, level).0));
    Seq::new((bc + bc2) as nat, |i: int| spec_encode(block_data(poly, bc, dcw, dcw2, i), (cw - dcw) as nat))
}

/// The bits that a stream becomes in a symbol of a version and level:
/// padded, split into blocks, error corrected, and interleaved.
pub open spec fn spec_full_block_encode(stream: Seq<u8>, version: int, level: int) -> Seq<u8> {
    let (bc, cw, dcw, opt) = spec_block_info(version, level);
    codeword_bits(interleave(spec_encoded_blocks(stream, version, level), cw - dcw, data_layout(version, level).1))
}

/// A copy of a stream.
fn copy_stream(stream: &Badstream) -> (r: Badstream)
    ensures
        r@ == stream@,
{
    let mut out: Badstream = Vec::new();
    let mut k: usize = 0;
    while k < stream.len()
        invariant
            k <= stream@.len(),
            out@ == stream@.subrange(0, k as int),
        decreases stream@.len() - k,
    {
        out.push(stream[k]);
        proof { assert(out@ =~= stream@.subrange(0, k + 1)); }
        k = k + 1;
    }
    assert(out@ =~= stream@);
    out
}

/// The codewords held by a vector of blocks.
pub open spec fn blocks_view(blocks: Seq<Polynomial>) -> Seq<Seq<u8>> {
    blocks.map_values(|b: Polynomial| b@)
}

/// Writes the codewords of the blocks in the order of the symbol: data
/// codewords round by round up to `max_data`, then the last `ec` codewords
/// of each block round by round.
fn interleave_blocks(blocks: &Vec<Polynomial>, ec_codewords: usize, max_data_codewords: usize) -> (r: Badstream)
    requires
        forall|b: int| 0 <= b < blocks@.len() ==> #[trigger] blocks@[b]@.len() >= ec_codewords,
    ensures
        r@ == codeword_bits(interleave(blocks_view(blocks@), ec_codewords as int, max_data_codewords as int)),
{
    let ghost bv = blocks_view(blocks@);
    let ghost ec = ec_codewords as int;
    let mut output: Badstream = Vec::new();
    // the data codewords, one round per position
    let mut i: usize = 0;
    while i < max_data_codewords
        invariant
            bv == blocks_view(blocks@),
            forall|b: int| 0 <= b < blocks@.len() ==> #[trigger] blocks@[b]@.len() >= ec_codewords,
            ec == ec_codewords,
            i <= max_data_codewords,
            output@ == codeword_bits(data_rounds(bv, ec, i as int)),
        decreases max_data_codewords - i,
    {
        let mut b: usize = 0;
        while b < blocks.len()
            invariant
                bv == blocks_view(blocks@),
                forall|b: int| 0 <= b < blocks@.len() ==> #[trigger] blocks@[b]@.len() >= ec_codewords,
                ec == ec_codewords,
                i < max_data_codewords,
                b <= blocks@.len(),
                output@ == codeword_bits(data_rounds(bv, ec, i as int) + data_round(bv, ec, i as int, b as int)),
            decreases blocks@.len() - b,
        {
            assert(blocks@[b as int]@.len() >= ec_codewords);
            assert(bv[b as int] == blocks@[b as int]@);
            let ghost before = data_rounds(bv, ec, i as int) + data_round(bv, ec, i as int, b as int);
            if i < blocks[b].len() - ec_codewords {
                push_byte(blocks[b][i], &mut output);
                proof {
                    let after = data_rounds(bv, ec, i as int) + data_round(bv, ec, i as int, b + 1);
                    assert(after =~= before.push(bv[b as int][i as int]));
                    assert(after.drop_last() =~= before);
                }
            } else {
                proof {
                    assert(data_round(bv, ec, i as int, b + 1) =~= data_round(bv, ec, i as int, b as int));
                }
            }
            b = b + 1;
        }
        proof {
            assert(data_rounds(bv, ec, i + 1) =~= data_rounds(bv, ec, i as int) + data_round(bv, ec, i as int, bv.len() as int));
        }
        i = i + 1;
    }
    // the error correction codewords, one round per position
    let mut j: usize = 0;
    while j < ec_codewords
        invariant
            bv == blocks_view(blocks@),
            forall|b: int| 0 <= b < blocks@.len() ==> #[trigger] blocks@[b]@.len() >= ec_codewords,
            ec == ec_codewords,
            j <= ec_codewords,
            output@ == codeword_bits(data_rounds(bv, ec, max_data_codewords as int) + ec_rounds(bv, ec, j as int)),
        decreases ec_codewords - j,
    {
        let mut b: usize = 0;
        while b < blocks.len()
            invariant
                bv == blocks_view(blocks@),
                forall|b: int| 0 <= b < blocks@.len() ==> #[trigger] blocks@[b]@.len() >= ec_codewords,
                ec == ec_codewords,
                j < ec_codewords,
                b <= blocks@.len(),
                output@ == codeword_bits(data_rounds(bv, ec, max_data_codewords as int) + ec_rounds(bv, ec, j as int)
                    + ec_round(bv, ec, j as int, b as int)),
            decreases blocks@.len() - b,
        {
            assert(blocks@[b as int]@.len() >= ec_codewords);
            assert(bv[b as int] == blocks@[b as int]@);
            let ghost before = data_rounds(bv, ec, max_data_codewords as int) + ec_rounds(bv, ec, j as int)
                + ec_round(bv, ec, j as int, b as int);
            let offset = blocks[b].len() - ec_codewords;
            push_byte(blocks[b][offset + j], &mut output);
            proof {
                let after = data_rounds(bv, ec, max_data_codewords as int) + ec_rounds(bv, ec, j as int)
                    + ec_round(bv, ec, j as int, b + 1);
                assert(after =~= before.push(bv[b as int][offset + j]));
                assert(after.drop_last() =~= before);
            }
            b = b + 1;
        }
        proof {
            assert(data_rounds(bv, ec, max_data_codewords as int) + ec_rounds(bv, ec, j + 1) =~=
                data_rounds(bv, ec, max_data_codewords as int) + ec_rounds(bv, ec, j as int) + ec_round(bv, ec, j as int, bv.len() as int));
        }
        j = j + 1;
    }
    output
}

/// The bits of `n` codewords number eight times as many.
proof fn lemma_codeword_bits_len(cws: Seq<u8>)
    ensures
        codeword_bits(cws).len() == 8 * cws.len(),
    decreases cws.len(),
{
    if cws.len() > 0 {
        lemma_codeword_bits_len(cws.drop_last());
    }
}

/// The blocks have `d` data codewords each, the `bc2` blocks after the
/// first `bc` one more, and all of them `ec` error correction codewords.
pub open spec fn blocks_shaped(blocks: Seq<Seq<u8>>, ec: int, bc: int, bc2: int, d: int) -> bool {
    &&& blocks.len() == bc + bc2
    &&& forall|b: int| 0 <= b < bc ==> #[trigger] blocks[b].len() == d + ec
    &&& forall|b: int| bc <= b < bc + bc2 ==> #[trigger] blocks[b].len() == d + 1 + ec
}

proof fn lemma_data_round_len(blocks: Seq<Seq<u8>>, ec: int, bc: int, bc2: int, d: int, i: int, nb: int)
    requires
        0 <= bc,
        0 <= bc2,
        0 <= i <= d,
        0 <= nb <= bc + bc2,
        blocks_shaped(blocks, ec, bc, bc2, d),
    ensures
        data_round(blocks, ec, i, nb).len() == if i < d { nb } else if nb > bc { nb - bc } else { 0 },
    decreases nb,
{
    if nb > 0 {
        lemma_data_round_len(blocks, ec, bc, bc2, d, i, nb - 1);
        if nb - 1 < bc {
            assert(blocks[nb - 1].len() == d + ec);
        } else {
            assert(blocks[nb - 1].len() == d + 1 + ec);
        }
    }
}

proof fn lemma_data_rounds_len(blocks: Seq<Seq<u8>>, ec: int, bc: int, bc2: int, d: int, n: int)
    requires
        0 <= bc,
        0 <= bc2,
        0 <= d,
        0 <= n <= d + 1,
        blocks_shaped(blocks, ec, bc, bc2, d),
    ensures
        data_rounds(blocks, ec, n).len() == if n <= d { n * (bc + bc2) } else { d * (bc + bc2) + bc2 },
    decreases n,
{
    if n > 0 {
        lemma_data_rounds_len(blocks, ec, bc, bc2, d, n - 1);
        lemma_data_round_len(blocks, ec, bc, bc2, d, n - 1, bc + bc2);
        assert(data_rounds(blocks, ec, n).len()
            == data_rounds(blocks, ec, n - 1).len() + data_round(blocks, ec, n - 1, bc + bc2).len());
        assert((n - 1) * (bc + bc2) + (bc + bc2) == n * (bc + bc2)) by (nonlinear_arith);
        if n == d + 1 {
            assert(data_rounds(blocks, ec, n - 1).len() == d * (bc + bc2));
            assert(data_round(blocks, ec, n - 1, bc + bc2).len() == bc2);
        }
    } else {
        assert(0 * (bc + bc2) == 0);
    }
}

proof fn lemma_ec_rounds_len(blocks: Seq<Seq<u8>>, ec: int, n: int)
    requires
        0 <= n,
    ensures
        ec_rounds(blocks, ec, n).len() == n * blocks.len(),
    decreases n,
{
    if n > 0 {
        lemma_ec_rounds_len(blocks, ec, n - 1);
        lemma_ec_round_len(blocks, ec, n - 1, blocks.len() as int);
        assert(ec_rounds(blocks, ec, n).len()
            == ec_rounds(blocks, ec, n - 1).len() + ec_round(blocks, ec, n - 1, blocks.len() as int).len());
        let l = blocks.len() as int;
        assert((n - 1) * l + l == n * l) by (nonlinear_arith);
    } else {
        assert(0 * (blocks.len() as int) == 0);
    }
}

proof fn lemma_ec_round_len(blocks: Seq<Seq<u8>>, ec: int, i: int, nb: int)
    requires
        0 <= nb,
    ensures
        ec_round(blocks, ec, i, nb).len() == nb,
    decreases nb,
{
    if nb > 0 {
        lemma_ec_round_len(blocks, ec, i, nb - 1);
    }
}

/// Interleaving blocks of the shape of a version and level gives all of
/// their codewords.
proof fn lemma_interleave_len(blocks: Seq<Seq<u8>>, ec: int, bc: int, bc2: int, d: int)
    requires
        0 <= bc,
        0 <= bc2,
        0 <= d,
        0 <= ec,
        blocks_shaped(blocks, ec, bc, bc2, d),
    ensures
        interleave(blocks, ec, if bc2 > 0 { d + 1 } else { d }).len() == bc * (d + ec) + bc2 * (d + 1 + ec),
{
    let m = if bc2 > 0 { d + 1 } else { d };
    lemma_data_rounds_len(blocks, ec, bc, bc2, d, m);
    lemma_ec_rounds_len(blocks, ec, ec);
    assert(d * (bc + bc2) + ec * (bc + bc2) + bc2 == bc * (d + ec) + bc2 * (d + 1 + ec)) by (nonlinear_arith);
    if bc2 == 0 {
        assert(d * (bc + bc2) == d * (bc + bc2) + 0);
    }
}

proof fn lemma_ec_round_at(blocks: Seq<Seq<u8>>, ec: int, i: int, nb: int, b: int)
    requires
        0 <= b < nb,
    ensures
        ec_round(blocks, ec, i, nb)[b] == blocks[b][blocks[b].len() - ec + i],
    decreases nb,
{
    lemma_ec_round_len(blocks, ec, i, nb - 1);
    if b < nb - 1 {
        lemma_ec_round_at(blocks, ec, i, nb - 1, b);
    }
}

proof fn lemma_ec_rounds_at(blocks: Seq<Seq<u8>>, ec: int, n: int, j: int, b: int)
    requires
        0 <= j < n,
        0 <= b < blocks.len(),
    ensures
        ec_rounds(blocks, ec, n)[j * blocks.len() + b] == blocks[b][blocks[b].len() - ec + j],
    decreases n,
{
    let nb = blocks.len() as int;
    lemma_ec_rounds_len(blocks, ec, n - 1);
    lemma_ec_round_len(blocks, ec, n - 1, nb);
    if j < n - 1 {
        assert(j * nb + b < (n - 1) * nb) by (nonlinear_arith) requires 0 <= j < n - 1, 0 <= b < nb;
        lemma_ec_rounds_at(blocks, ec, n - 1, j, b);
    } else {
        lemma_ec_round_at(blocks, ec, n - 1, nb, b);
    }
}

proof fn lemma_data_round_at(blocks: Seq<Seq<u8>>, ec: int, bc: int, bc2: int, d: int, i: int, nb: int, b: int)
    requires
        0 <= bc,
        0 <= bc2,
        0 <= i < d,
        0 <= b < nb <= bc + bc2,
        blocks_shaped(blocks, ec, bc, bc2, d),
    ensures
        data_round(blocks, ec, i, nb)[b] == blocks[b][i],
    decreases nb,
{
    lemma_data_round_len(blocks, ec, bc, bc2, d, i, nb - 1);
    if b < nb - 1 {
        lemma_data_round_at(blocks, ec, bc, bc2, d, i, nb - 1, b);
    } else {
        if b < bc {
            assert(blocks[b].len() == d + ec);
        } else {
            assert(blocks[b].len() == d + 1 + ec);
        }
    }
}

proof fn lemma_data_round_last(blocks: Seq<Seq<u8>>, ec: int, bc: int, bc2: int, d: int, nb: int, b: int)
    requires
        0 <= bc,
        0 <= bc2,
        0 <= d,
        bc <= b < nb <= bc + bc2,
        blocks_shaped(blocks, ec, bc, bc2, d),
    ensures
        data_round(blocks, ec, d, nb)[b - bc] == blocks[b][d],
    decreases nb,
{
    lemma_data_round_len(blocks, ec, bc, bc2, d, d, nb - 1);
    assert(blocks[nb - 1].len() == d + 1 + ec);
    if b < nb - 1 {
        lemma_data_round_last(blocks, ec, bc, bc2, d, nb - 1, b);
    }
}

proof fn lemma_data_rounds_at(blocks: Seq<Seq<u8>>, ec: int, bc: int, bc2: int, d: int, n: int, i: int, b: int)
    requires
        0 <= bc,
        0 <= bc2,
        0 <= i < d,
        i < n <= d + 1,
        0 <= b < bc + bc2,
        blocks_shaped(blocks, ec, bc, bc2, d),
    ensures
        data_rounds(blocks, ec, n)[i * (bc + bc2) + b] == blocks[b][i],
    decreases n,
{
    let nb = bc + bc2;
    lemma_data_rounds_len(blocks, ec, bc, bc2, d, n - 1);
    if i < n - 1 {
        assert(i * nb + b < (n - 1) * nb) by (nonlinear_arith) requires 0 <= i < n - 1, 0 <= b < nb;
        lemma_data_rounds_at(blocks, ec, bc, bc2, d, n - 1, i, b);
    } else {
        lemma_data_round_len(blocks, ec, bc, bc2, d, i, nb);
        lemma_data_round_at(blocks, ec, bc, bc2, d, i, nb, b);
    }
}

/// The first data codeword of a block of a symbol whose first `bc` blocks
/// hold `dcw` data codewords each and whose later blocks hold one more.
pub open spec fn block_start(bc: int, dcw: int, b: int) -> int {
    if b < bc { b * dcw } else { bc * dcw + (b - bc) * (dcw + 1) }
}

/// The number of data codewords of block `b` of such a symbol.
pub open spec fn block_length(bc: int, dcw: int, b: int) -> int {
    if b < bc { dcw } else { dcw + 1 }
}

/// The codewords of a symbol of a version and level, in the order they are
/// placed: what `full_block_encode` writes, eight bits each.
pub open spec fn symbol_codewords(stream: Seq<u8>, version: int, level: int) -> Seq<u8> {
    let (bc, cw, dcw, opt) = spec_block_info(version, level);
    interleave(spec_encoded_blocks(stream, version, level), cw - dcw, data_layout(version, level).1)
}

/// The order of the codewords in a symbol. The padded data is split into
/// blocks in order, the first `bc` blocks with `dcw` data codewords and the
/// `bc2` later ones with one more, as the version's table gives them. The
/// symbol holds, for each data position `i`, data codeword `i` of every block
/// in block order (the blocks that are one longer last); after all data
/// codewords, for each position `j`, error correction codeword `j` of every
/// block in block order, each block's codewords being those of the
/// Reed-Solomon encoding of that block's data.
proof fn lemma_symbol_layout(version: int, level: int)
    requires
        1 <= version <= 40,
        0 <= level < 4,
    ensures
        ({
            let bc = ec_block_entry(version, level, 0);
            let dcw = ec_block_entry(version, level, 2);
            let ec = ec_block_entry(version, level, 1) - dcw;
            let bc2 = ec_block_entry(version, level, 3);
            let total = bc * dcw + bc2 * (dcw + 1);
            &&& data_layout(version, level) == (total, if bc2 > 0 { dcw + 1 } else { dcw })
            &&& bc >= 1 && dcw >= 1 && bc2 >= 0 && ec >= 7 && total >= 1
            &&& spec_block_info(version, level) == (bc, ec_block_entry(version, level, 1), dcw,
                if bc2 == 0 { None } else { Some((bc2, ec_block_entry(version, level, 1) + 1, dcw + 1)) })
        }),
{
    lemma_block_info(version, level);
    lemma_second_group(version, level);
    lemma_block_info_entries(version, level);
    let bc = ec_block_entry(version, level, 0);
    let dcw = ec_block_entry(version, level, 2);
    let bc2 = ec_block_entry(version, level, 3);
    assert(bc * dcw + bc2 * (dcw + 1) >= 1) by (nonlinear_arith) requires bc >= 1, dcw >= 1, bc2 >= 0;
    if bc2 == 0 {
        assert(bc2 * (dcw + 1) == 0) by (nonlinear_arith) requires bc2 == 0;
    }
}

proof fn lemma_symbol_blocks(stream: Seq<u8>, version: int, level: int)
    requires
        1 <= version <= 40,
        0 <= level < 4,
        can_pad(stream.len() as int, data_layout(version, level).0),
    ensures
        ({
            let bc = ec_block_entry(version, level, 0);
            let dcw = ec_block_entry(version, level, 2);
            let ec = ec_block_entry(version, level, 1) - dcw;
            let bc2 = ec_block_entry(version, level, 3);
            let total = bc * dcw + bc2 * (dcw + 1);
            let poly = spec_to_polynomial(spec_padded_stream(stream, total));
            let blocks = spec_encoded_blocks(stream, version, level);
            &&& poly.len() == total
            &&& blocks_shaped(blocks, ec, bc, bc2, dcw)
            &&& forall|b: int| 0 <= b < bc + bc2 ==> #[trigger] blocks[b] == spec_encode(
                    poly.subrange(block_start(bc, dcw, b), block_start(bc, dcw, b) + block_length(bc, dcw, b)), ec as nat)
            &&& forall|b: int| 0 <= b < bc + bc2 ==> block_start(bc, dcw, b) >= 0
                && #[trigger] (block_start(bc, dcw, b) + block_length(bc, dcw, b)) <= total
        }),
{
    lemma_symbol_layout(version, level);
    let bc = ec_block_entry(version, level, 0);
    let dcw = ec_block_entry(version, level, 2);
    let ec = ec_block_entry(version, level, 1) - dcw;
    let bc2 = ec_block_entry(version, level, 3);
    let nb = bc + bc2;
    let total = bc * dcw + bc2 * (dcw + 1);
    let padded = spec_padded_stream(stream, total);
    let fill = fill_bits(stream.len() as int);
    lemma_pad_bits_len(total - (stream.len() + fill) / 8);
    assert((stream.len() + fill) % 8 == 0);
    assert(padded.len() == 8 * total);
    let poly = spec_to_polynomial(padded);
    assert(poly.len() == total);
    let blocks = spec_encoded_blocks(stream, version, level);
    let dcw2 = if bc2 > 0 { dcw + 1 } else { 0 };
    assert forall|b: int| 0 <= b < nb implies
        #[trigger] block_data(poly, bc, dcw, dcw2, b)
            == poly.subrange(block_start(bc, dcw, b), block_start(bc, dcw, b) + block_length(bc, dcw, b))
        && block_start(bc, dcw, b) >= 0
        && block_start(bc, dcw, b) + block_length(bc, dcw, b) <= total by {
        if b < bc {
            assert((b + 1) * dcw <= bc * dcw) by (nonlinear_arith) requires b < bc, dcw >= 0;
            assert(b * dcw + dcw == (b + 1) * dcw) by (nonlinear_arith);
            assert(b * dcw >= 0) by (nonlinear_arith) requires b >= 0, dcw >= 0;
        } else {
            assert(dcw2 == dcw + 1);
            assert((b - bc + 1) * dcw2 <= bc2 * dcw2) by (nonlinear_arith) requires b - bc < bc2, dcw2 >= 0;
            assert((b - bc) * dcw2 + dcw2 == (b - bc + 1) * dcw2) by (nonlinear_arith);
            assert((b - bc) * dcw2 >= 0 && bc * dcw >= 0) by (nonlinear_arith) requires b >= bc, dcw2 >= 0, bc >= 0, dcw >= 0;
        }
    }
    assert forall|b: int| 0 <= b < nb implies #[trigger] blocks[b] == spec_encode(
        poly.subrange(block_start(bc, dcw, b), block_start(bc, dcw, b) + block_length(bc, dcw, b)), ec as nat) by {
        assert(block_data(poly, bc, dcw, dcw2, b)
            == poly.subrange(block_start(bc, dcw, b), block_start(bc, dcw, b) + block_length(bc, dcw, b)));
    }
    assert forall|b: int| 0 <= b < nb implies #[trigger] blocks[b].len() == block_length(bc, dcw, b) + ec by {
        let data = poly.subrange(block_start(bc, dcw, b), block_start(bc, dcw, b) + block_length(bc, dcw, b));
        crate::rdsm::poly::lemma_encode_systematic(data, ec as nat);
    }
    assert forall|b: int| 0 <= b < bc implies #[trigger] blocks[b].len() == dcw + ec by {
        assert(blocks[b].len() == block_length(bc, dcw, b) + ec);
    }
    assert forall|b: int| bc <= b < bc + bc2 implies #[trigger] blocks[b].len() == dcw + 1 + ec by {
        assert(blocks[b].len() == block_length(bc, dcw, b) + ec);
    }
    assert(blocks.len() == nb);
    assert(blocks_shaped(blocks, ec, bc, bc2, dcw));
    assert forall|b: int| 0 <= b < bc + bc2 implies block_start(bc, dcw, b) >= 0
        && #[trigger] (block_start(bc, dcw, b) + block_length(bc, dcw, b)) <= total by {
        assert(block_data(poly, bc, dcw, dcw2, b)
            == poly.subrange(block_start(bc, dcw, b), block_start(bc, dcw, b) + block_length(bc, dcw, b)));
    }
}

/// Codeword `i` of a block's data is the padded data's codeword at the
/// block's start plus `i`.
proof fn lemma_block_codeword(stream: Seq<u8>, version: int, level: int, b: int, i: int)
    requires
        1 <= version <= 40,
        0 <= level < 4,
        can_pad(stream.len() as int, data_layout(version, level).0),
        0 <= b < ec_block_entry(version, level, 0) + ec_block_entry(version, level, 3),
        0 <= i < block_length(ec_block_entry(version, level, 0), ec_block_entry(version, level, 2), b),
    ensures
        ({
            let bc = ec_block_entry(version, level, 0);
            let dcw = ec_block_entry(version, level, 2);
            let ec = ec_block_entry(version, level, 1) - dcw;
            let bc2 = ec_block_entry(version, level, 3);
            let total = bc * dcw + bc2 * (dcw + 1);
            let poly = spec_to_polynomial(spec_padded_stream(stream, total));
            let data = poly.subrange(block_start(bc, dcw, b), block_start(bc, dcw, b) + block_length(bc, dcw, b));
            &&& spec_encoded_blocks(stream, version, level)[b][i] == poly[block_start(bc, dcw, b) + i]
            &&& spec_encoded_blocks(stream, version, level)[b] == spec_encode(data, ec as nat)
            &&& spec_encoded_blocks(stream, version, level)[b].len() == block_length(bc, dcw, b) + ec
        }),
{
    lemma_symbol_layout(version, level);
    lemma_symbol_blocks(stream, version, level);
    let bc = ec_block_entry(version, level, 0);
    let dcw = ec_block_entry(version, level, 2);
    let ec = ec_block_entry(version, level, 1) - dcw;
    let bc2 = ec_block_entry(version, level, 3);
    let total = bc * dcw + bc2 * (dcw + 1);
    let poly = spec_to_polynomial(spec_padded_stream(stream, total));
    let data = poly.subrange(block_start(bc, dcw, b), block_start(bc, dcw, b) + block_length(bc, dcw, b));
    assert(block_start(bc, dcw, b) + block_length(bc, dcw, b) <= total);
    crate::rdsm::poly::lemma_encode_systematic(data, ec as nat);
    assert(spec_encode(data, ec as nat).subrange(0, data.len() as int)[i] == spec_encode(data, ec as nat)[i]);
}

pub proof fn lemma_symbol_codeword_order(stream: Seq<u8>, version: int, level: int)
    requires
        1 <= version <= 40,
        0 <= level < 4,
        can_pad(stream.len() as int, data_layout(version, level).0),
    ensures
        ({
            let bc = ec_block_entry(version, level, 0);
            let dcw = ec_block_entry(version, level, 2);
            let ec = ec_block_entry(version, level, 1) - dcw;
            let bc2 = ec_block_entry(version, level, 3);
            let nb = bc + bc2;
            let total = bc * dcw + bc2 * (dcw + 1);
            let poly = spec_to_polynomial(spec_padded_stream(stream, total));
            let cws = symbol_codewords(stream, version, level);
            &&& spec_full_block_encode(stream, version, level) == codeword_bits(cws)
            &&& poly.len() == total
            &&& cws.len() == total + ec * nb
            &&& forall|i: int, b: int| 0 <= i < dcw && 0 <= b < nb ==>
                #[trigger] cws[i * nb + b] == poly[block_start(bc, dcw, b) + i]
            &&& forall|b: int| bc <= b < nb ==>
                #[trigger] cws[dcw * nb + (b - bc)] == poly[block_start(bc, dcw, b) + dcw]
            &&& forall|j: int, b: int| 0 <= j < ec && 0 <= b < nb ==>
                #[trigger] cws[total + j * nb + b] == spec_encode(
                    poly.subrange(block_start(bc, dcw, b), block_start(bc, dcw, b) + block_length(bc, dcw, b)),
                    ec as nat)[block_length(bc, dcw, b) + j]
        }),
{
    let bc = ec_block_entry(version, level, 0);
    let dcw = ec_block_entry(version, level, 2);
    let ec = ec_block_entry(version, level, 1) - dcw;
    let bc2 = ec_block_entry(version, level, 3);
    let nb = bc + bc2;
    let total = bc * dcw + bc2 * (dcw + 1);
    lemma_symbol_layout(version, level);
    let poly = spec_to_polynomial(spec_padded_stream(stream, total));
    lemma_symbol_blocks(stream, version, level);
    let blocks = spec_encoded_blocks(stream, version, level);
    let maxd = data_layout(version, level).1;
    let cws = symbol_codewords(stream, version, level);
    assert(cws == interleave(blocks, ec, maxd));
    lemma_data_rounds_len(blocks, ec, bc, bc2, dcw, maxd);
    lemma_ec_rounds_len(blocks, ec, ec);
    let dr = data_rounds(blocks, ec, maxd);
    assert(dr.len() == total) by {
        if bc2 > 0 {
            assert(dcw * (bc + bc2) + bc2 == bc * dcw + bc2 * (dcw + 1)) by (nonlinear_arith);
        } else {
            assert(dcw * (bc + bc2) == bc * dcw + bc2 * (dcw + 1)) by (nonlinear_arith) requires bc2 == 0;
        }
    }
    assert(ec * nb == ec * (blocks.len() as int));
    assert forall|i: int, b: int| 0 <= i < dcw && 0 <= b < nb implies
        #[trigger] cws[i * nb + b] == poly[block_start(bc, dcw, b) + i] by {
        lemma_data_rounds_at(blocks, ec, bc, bc2, dcw, maxd, i, b);
        assert(i * nb + b < dcw * nb) by (nonlinear_arith) requires 0 <= i < dcw, 0 <= b < nb;
        assert(dcw * nb <= total) by (nonlinear_arith) requires total == bc * dcw + bc2 * (dcw + 1), nb == bc + bc2, bc2 >= 0;
        assert(cws[i * nb + b] == dr[i * nb + b]);
        lemma_block_codeword(stream, version, level, b, i);
    }
    assert forall|b: int| bc <= b < nb implies
        #[trigger] cws[dcw * nb + (b - bc)] == poly[block_start(bc, dcw, b) + dcw] by {
        lemma_data_rounds_len(blocks, ec, bc, bc2, dcw, dcw);
        lemma_data_round_last(blocks, ec, bc, bc2, dcw, nb, b);
        lemma_data_round_len(blocks, ec, bc, bc2, dcw, dcw, nb);
        assert(maxd == dcw + 1);
        assert(dr == data_rounds(blocks, ec, dcw) + data_round(blocks, ec, dcw, nb));
        lemma_block_codeword(stream, version, level, b, dcw);
    }
    assert forall|j: int, b: int| 0 <= j < ec && 0 <= b < nb implies
        #[trigger] cws[total + j * nb + b] == spec_encode(
            poly.subrange(block_start(bc, dcw, b), block_start(bc, dcw, b) + block_length(bc, dcw, b)),
            ec as nat)[block_length(bc, dcw, b) + j] by {
        lemma_ec_rounds_at(blocks, ec, ec, j, b);
        assert(j * nb + b < ec * nb) by (nonlinear_arith) requires 0 <= j < ec, 0 <= b < nb;
        lemma_block_codeword(stream, version, level, b, 0);
    }
}

/// Pads a stream to the data capacity of a version and level, adds error
/// correction, and interleaves the blocks: eight bits for each codeword of
/// the symbol.
pub fn full_block_encode(stream: &Badstream, version: u32, level: u8) -> (r: Badstream)
    requires
        1 <= version <= 40,
        level < 4,
        can_pad(stream@.len() as int, data_layout(version as int, level as int).0),
    ensures
        r@ == spec_full_block_encode(stream@, version as int, level as int),
        r@.len() == 8 * TOTAL_CODEWORDS@[version - 1],
{
    proof {
        lemma_block_info(version as int, level as int);
        lemma_second_group(version as int, level as int);
    }
    let block_info = get_block_info(version, level);
    let (block_count, codewords, data_codewords, optional) = block_info;
    let ec_codewords = codewords - data_codewords;
    let (max_data_codewords, total_data_codewords) = match optional {
        Some((block_count_2, _, data_codewords_2)) => (
            data_codewords_2,
            block_count * data_codewords + block_count_2 * data_codewords_2,
        ),
        None => (data_codewords, block_count * data_codewords),
    };
    let mut padded = copy_stream(stream);
    pad_to(total_data_codewords, &mut padded);
    let poly = badstream_to_polynomial(&padded);
    proof {
        assert(poly@.len() == total_data_codewords);
        assert(block_count * data_codewords == data_codewords * block_count) by (nonlinear_arith);
        let (bc2, _, dcw2) = second_group(block_info);
        assert(bc2 * dcw2 == dcw2 * bc2) by (nonlinear_arith);
        match optional {
            Some((b2, _, d2)) => {
                assert(bc2 == b2 && dcw2 == d2);
                assert(total_data_codewords == block_count * data_codewords + b2 * d2);
            },
            None => {
                assert(bc2 == 0 && dcw2 == 0);
                assert(dcw2 * bc2 == 0) by (nonlinear_arith) requires dcw2 == 0;
            },
        }
        assert(poly@.len() == data_codewords * block_count + dcw2 * bc2);
        assert(data_codewords <= codewords);
        assert(codewords - data_codewords <= u32::MAX);
        assert(dcw2 + (codewords - data_codewords) + 3 <= usize::MAX);
        assert(block_count + bc2 <= usize::MAX);
    }
    let blocks = split_to_blocks_and_encode(&poly, block_info);
    proof {
        let bv = blocks_view(blocks@);
        assert(bv =~= spec_encoded_blocks(stream@, version as int, level as int));
        assert forall|b: int| 0 <= b < blocks@.len() implies #[trigger] blocks@[b]@.len() >= ec_codewords by {
            assert(blocks@[b]@ == bv[b]);
            crate::rdsm::poly::lemma_encode_systematic(
                block_data(poly@, block_count as int, data_codewords as int, second_group(block_info).2, b),
                ec_codewords as nat);
        }
        let (bc2, _, dcw2) = second_group(block_info);
        let bc = block_count as int;
        let d = data_codewords as int;
        let ec = ec_codewords as int;
        assert forall|b: int| 0 <= b < bc + bc2 implies #[trigger] bv[b].len() ==
            if b < bc { d + ec } else { d + 1 + ec } by {
            let data = block_data(poly@, bc, d, dcw2, b);
            crate::rdsm::poly::lemma_encode_systematic(data, ec as nat);
            assert(bv[b] == blocks@[b]@);
            if b < bc {
                assert((b + 1) * d <= bc * d) by (nonlinear_arith) requires b < bc, d >= 0;
                assert(b * d + d == (b + 1) * d) by (nonlinear_arith);
                assert(data.len() == d);
            } else {
                assert(dcw2 == d + 1);
                assert((b - bc + 1) * dcw2 <= bc2 * dcw2) by (nonlinear_arith) requires b - bc < bc2, dcw2 >= 0;
                assert((b - bc) * dcw2 + dcw2 == (b - bc + 1) * dcw2) by (nonlinear_arith);
                assert(data.len() == d + 1);
            }
        }
        assert(blocks_shaped(bv, ec, bc, bc2, d));
        lemma_interleave_len(bv, ec, bc, bc2, d);
        lemma_codeword_bits_len(interleave(bv, ec, max_data_codewords as int));
        assert(max_data_codewords as int == if bc2 > 0 { d + 1 } else { d });
        assert(block_total(version as int, level as int) == bc * (d + ec) + bc2 * (d + 1 + ec));
    }
    interleave_blocks(&blocks, ec_codewords, max_data_codewords)
}

/// The bits that `count` characters take in a segment of a mode in a symbol
/// of size class `class`: mode indicator, character count indicator and
/// characters (numeric digits at 10/3 bits each, rounded).
pub open spec fn spec_bit_cost(count: int, class: int, mode: Mode) -> int {
    4 + match mode {
        Mode::Numeric => 4 + cc_column(class, 0) + (10 * count + 2) / 3,
        Mode::AlphaNum => 4 + cc_column(class, 1) + 11 * (count / 2) + 6 * (count % 2),
        _ => 4 + cc_column(class, 2) + 8 * count,
    }
}

/// The number of bits it takes to write `count` characters in a mode and
/// size class.
pub fn bit_cost(count: usize, class: usize, mode: Mode) -> (r: usize)
    requires
        class < 3,
        mode != Mode::Kanji,
        16 * count + 64 <= usize::MAX,
    ensures
        r == spec_bit_cost(count as int, class as int, mode),
{
    let base = class * 4;
    4 + match mode {
        Mode::Numeric => 4 + CC_INDICATOR_BITS[base] + (10 * count + 2) / 3,
        Mode::AlphaNum => 4 + CC_INDICATOR_BITS[base + 1] + 11 * (count / 2) + 6 * (count % 2),
        _ => 4 + CC_INDICATOR_BITS[base + 2] + 8 * count,
    }
}

/// The bits of the first `n` segments, each costed by `spec_bit_cost` with
/// its byte length.
pub open spec fn runs_cost(segs: Seq<(Mode, Seq<char>)>, class: int, n: int) -> int
    decreases n,
{
    if n <= 0 {
        0
    } else {
        runs_cost(segs, class, n - 1) + spec_bit_cost(encode_utf8(segs[n - 1].1).len() as int, class, segs[n - 1].0)
    }
}

/// The bits of the UTF-8 ECI header a text needs.
pub open spec fn eci_header(s: Seq<char>) -> int {
    if is_ascii_chars(s) { 0 } else { 8 }
}

/// The data capacity, in codewords, that the size class `class` (0 or 1) is
/// measured against at a level.
pub open spec fn class_limit(level: int, class: int) -> int {
    if class == 0 { data_codewords(level, 10) } else { data_codewords(level, 27) }
}

/// The cheapest segmentation of a text for size class `class` fits the
/// class's capacity at a level.
pub open spec fn class_fits(s: Seq<char>, level: int, class: int) -> bool {
    let segs = text_runs(s, class);
    fits(class_limit(level, class), runs_cost(segs, class, segs.len() as int) + eci_header(s))
}

/// The size class whose segmentation is used for a text: the first of the
/// classes 0 and 1 that fits, otherwise 2.
pub open spec fn chosen_class(s: Seq<char>, level: int) -> int {
    if class_fits(s, level, 0) { 0 } else if class_fits(s, level, 1) { 1 } else { 2 }
}

/// A text can be segmented and costed without overflow.
pub open spec fn auto_input_ok(s: Seq<char>) -> bool {
    &&& 168 * s.len() + 200 <= u32::MAX
    &&& forall|c: int| 0 <= c < 2 ==> {
        let segs = #[trigger] text_runs(s, c);
        &&& runs_cost(segs, c, segs.len() as int) + 8 <= usize::MAX
        &&& forall|i: int| 0 <= i < segs.len() ==> 16 * encode_utf8(#[trigger] segs[i].1).len() + 64 <= usize::MAX
    }
}

proof fn lemma_runs_cost_grows(segs: Seq<(Mode, Seq<char>)>, class: int, a: int, b: int)
    requires
        0 <= a <= b,
    ensures
        runs_cost(segs, class, a) <= runs_cost(segs, class, b),
    decreases b - a,
{
    if a < b {
        lemma_runs_cost_grows(segs, class, a, b - 1);
        let count = encode_utf8(segs[b - 1].1).len() as int;
        assert(spec_bit_cost(count, class, segs[b - 1].0) >= 0) by {
            assert(CC_INDICATOR_BITS@[class * 4] >= 0);
            assert((10 * count + 2) / 3 >= 0);
        }
    }
}

/// The total bits of the segments and the ECI header.
fn segments_cost(segs: &Vec<(Mode, String)>, class: usize, header: usize) -> (r: usize)
    requires
        class < 2,
        header <= 8,
        forall|i: int| 0 <= i < segs@.len() ==> #[trigger] segs@[i].0 != Mode::Kanji,
        runs_cost(segs_view(segs@), class as int, segs@.len() as int) + 8 <= usize::MAX,
        forall|i: int| 0 <= i < segs@.len() ==> 16 * encode_utf8(#[trigger] segs_view(segs@)[i].1).len() + 64 <= usize::MAX,
    ensures
        r == runs_cost(segs_view(segs@), class as int, segs@.len() as int) + header,
{
    let ghost v = segs_view(segs@);
    let mut total: usize = 0;
    let mut i: usize = 0;
    while i < segs.len()
        invariant
            v == segs_view(segs@),
            class < 2,
            forall|i: int| 0 <= i < segs@.len() ==> #[trigger] segs@[i].0 != Mode::Kanji,
            runs_cost(v, class as int, segs@.len() as int) + 8 <= usize::MAX,
            forall|i: int| 0 <= i < segs@.len() ==> 16 * encode_utf8(#[trigger] v[i].1).len() + 64 <= usize::MAX,
            i <= segs@.len(),
            total == runs_cost(v, class as int, i as int),
        decreases segs@.len() - i,
    {
        proof {
            lemma_runs_cost_grows(v, class as int, i + 1, segs@.len() as int);
            assert(v[i as int] == (segs@[i as int].0, segs@[i as int].1@));
            assert(16 * encode_utf8(v[i as int].1).len() + 64 <= usize::MAX);
        }
        let count = segs[i].1.as_str().len();
        let cost = bit_cost(count, class, segs[i].0);
        total = total + cost;
        i = i + 1;
    }
    total + header
}

/// Segments a text for the smallest size class whose capacity, at the
/// level, its cheapest segmentation fits (see `chosen_class`).
pub fn find_best_mode_optimization(str: String, level: u8) -> (r: Vec<(Mode, String)>)
    requires
        level <= 3,
        auto_input_ok(str@),
    ensures
        segs_view(r@) == text_runs(str@, chosen_class(str@, level as int)),
{
    let maybe_eci_header: usize = if !str.as_str().is_ascii() { 8 } else { 0 };
    let limits = [DATA_CODEWORDS[level as usize * 40 + 9], DATA_CODEWORDS[level as usize * 40 + 26]];
    let mut class: usize = 0;
    while class < 2
        invariant
            level <= 3,
            auto_input_ok(str@),
            class <= 2,
            maybe_eci_header == eci_header(str@),
            limits@[0] == class_limit(level as int, 0),
            limits@[1] == class_limit(level as int, 1),
            forall|c: int| 0 <= c < class ==> !class_fits(str@, level as int, c),
        decreases 2 - class,
    {
        let marked = optimize_mode(&str, class as u8);
        proof {
            let segs = text_runs(str@, class as int);
            assert(segs_view(marked@) == segs);
            assert forall|i: int| 0 <= i < marked@.len() implies #[trigger] marked@[i].0 != Mode::Kanji by {
                assert(segs[i].0 == marked@[i].0);
                crate::qr_standard::search::lemma_runs_modes(str@, class as int, i);
            }
        }
        let cost = segments_cost(&marked, class, maybe_eci_header);
        let limit = limits[class];
        if 8 * limit >= cost {
            let diff = 8 * limit - cost;
            if diff > 7 || diff == 0 {
                proof {
                    let segs = text_runs(str@, class as int);
                    assert(segs.len() == marked@.len());
                    assert(class_fits(str@, level as int, class as int));
                }
                return marked;
            }
        }
        proof {
            let segs = text_runs(str@, class as int);
            assert(segs.len() == marked@.len());
            assert(cost == runs_cost(segs, class as int, segs.len() as int) + eci_header(str@));
            assert(!fits(class_limit(level as int, class as int), cost as int));
        }
        class = class + 1;
    }
    optimize_mode(&str, 2)
}

/// The two bits of an error correction level (0 to 3 for L, M, Q, H) in
/// the format information: `01`, `00`, `11`, `10`.
pub open spec fn level_bits(level: int) -> u8 {
    if level == 0 { 1 } else if level == 1 { 0 } else if level == 2 { 3 } else { 2 }
}

/// The format code (without its mask) of a level and mask pattern.
pub open spec fn qr_format(level: int, mask: int) -> u16 {
    spec_data_to_fcode(level_bits(level), mask as u8)->0
}

/// The colour of module `(a, b)` after writing the format code `fcode`:
/// its bit of the masked code on a format module, `base` elsewhere.
pub open spec fn format_over(version: int, fcode: u16, a: int, b: int, base: bool) -> bool {
    match format_cell(version, a, b) {
        Some(k) => ((fcode ^ FORMAT_MASK) >> (k as u16)) & 1u16 == 1u16,
        None => base,
    }
}

/// `after` is the symbol `before` of version `version` with the format
/// information of `level` and `mask` written and the mask applied.
pub open spec fn mask_result(before: Bitmap, after: Bitmap, version: int, level: int, mask: int) -> bool {
    &&& after.wf()
    &&& after.spec_width() == before.spec_width()
    &&& after.spec_height() == before.spec_height()
    &&& after.has_border() == before.has_border()
    &&& forall|a: nat, b: nat| a < after.spec_width() && b < after.spec_height() ==>
        #[trigger] after.pixel(a, b) == (format_over(version, qr_format(level, mask), a as int, b as int, before.pixel(a, b))
            != mask_flips(mask, before.spec_width(), before.spec_height(), a as int, b as int))
}

/// `bm` is a symbol of version `version`: square and as wide as one.
pub open spec fn symbol_sized(bm: Bitmap, version: int) -> bool {
    &&& bm.wf()
    &&& 1 <= version <= 40
    &&& bm.spec_width() == max_index(version) + 1
    &&& bm.spec_height() == max_index(version) + 1
}

/// Writes the format information of a level and mask pattern into a
/// symbol and applies the mask.
pub fn apply_mask(bitmap: &mut Bitmap, version: u32, level: u8, mask: u8)
    requires
        symbol_sized(*old(bitmap), version as int),
        level <= 3,
        mask <= 7,
    ensures
        mask_result(*old(bitmap), *final(bitmap), version as int, level as int, mask as int),
{
    let level_code: u8 = if level == 0 { 1 } else if level == 1 { 0 } else if level == 2 { 3 } else { 2 };
    proof { lemma_format_roundtrip(level_code, mask); }
    let fcode = match data_to_fcode(level_code, mask) {
        Some(f) => f,
        None => 0,
    };
    let ghost before = *bitmap;
    set_fcode(bitmap, version, fcode);
    let ghost mid = *bitmap;
    proof {
        assert(bitmap.spec_width() * bitmap.spec_height() + 2 <= usize::MAX) by (nonlinear_arith)
            requires bitmap.spec_width() <= 177, bitmap.spec_height() <= 177;
    }
    qr_mask_xor(bitmap, mask);
    proof {
        assert forall|a: nat, b: nat| a < bitmap.spec_width() && b < bitmap.spec_height() implies
            #[trigger] bitmap.pixel(a, b) == (format_over(version as int, qr_format(level as int, mask as int), a as int, b as int, before.pixel(a, b))
                != mask_flips(mask as int, before.spec_width(), before.spec_height(), a as int, b as int)) by {
            assert(mid.pixel(a, b) == format_over(version as int, fcode, a as int, b as int, before.pixel(a, b)));
        }
    }
}

/// Masked symbols with the same modules have the same penalty.
proof fn lemma_penalty_by_pixels(c: Bitmap, d: Bitmap, before: Bitmap, version: int, level: int, mask: int)
    requires
        mask_result(before, c, version, level, mask),
        mask_result(before, d, version, level, mask),
    ensures
        spec_total_penalty(c) == spec_total_penalty(d),
{
    assert forall|a: nat, b: nat| a < c.spec_width() && b < c.spec_height() implies #[trigger] c.pixel(a, b) == d.pixel(a, b) by {
        assert(c.pixel(a, b) == d.pixel(a, b));
    }
    crate::image::lemma_same_pixels_same_bytes(c, d);
    let w = c.spec_width();
    let gc = crate::qr_standard::penalties::grid_of(c, w);
    let gd = crate::qr_standard::penalties::grid_of(d, w);
    assert forall|x: int| 0 <= x < w implies #[trigger] gc[x] == gd[x] by {
        assert(gc[x] =~= gd[x]);
    }
    assert(gc =~= gd);
}

/// Applies the mask pattern with the lowest penalty (the first of them),
/// with its format information.
pub fn apply_best_mask(bitmap: &mut Bitmap, version: u32, level: u8)
    requires
        symbol_sized(*old(bitmap), version as int),
        level <= 3,
    ensures
        exists|k: int| 0 <= k < 8 && #[trigger] mask_result(*old(bitmap), *final(bitmap), version as int, level as int, k)
            && forall|c: Bitmap, j: int| 0 <= j < 8 && #[trigger] mask_result(*old(bitmap), c, version as int, level as int, j) ==>
                spec_total_penalty(c) >= spec_total_penalty(*final(bitmap))
                && (j < k ==> spec_total_penalty(c) > spec_total_penalty(*final(bitmap))),
{
    let ghost start = *bitmap;
    let mut best = Bitmap::new(1, 1);
    let mut penalty: u32 = u32::MAX;
    let ghost mut best_k: int = 0;
    let mut mask: u8 = 0;
    while mask <= 7
        invariant
            symbol_sized(start, version as int),
            start == *bitmap,
            level <= 3,
            mask <= 8,
            mask > 0 ==> 0 <= best_k < mask && mask_result(start, best, version as int, level as int, best_k)
                && penalty == spec_total_penalty(best),
            mask == 0 ==> penalty == u32::MAX,
            forall|c: Bitmap, j: int| 0 <= j < mask && #[trigger] mask_result(start, c, version as int, level as int, j) ==>
                spec_total_penalty(c) >= penalty && (j < best_k ==> spec_total_penalty(c) > penalty),
        decreases 8 - mask,
    {
        let mut candidate = bitmap.clone();
        assert(candidate.bytes() == start.bytes());
        apply_mask(&mut candidate, version, level, mask);
        proof {
            lemma_qr_penalty_computable(candidate);
        }
        let pen = candidate.qr_penalty();
        let ghost old_penalty = penalty;
        let ghost old_k = best_k;
        if pen < penalty {
            best = candidate;
            penalty = pen;
            proof { best_k = mask as int; }
        }
        proof {
            assert forall|c: Bitmap, j: int| 0 <= j < mask + 1 && #[trigger] mask_result(start, c, version as int, level as int, j) implies
                spec_total_penalty(c) >= penalty && (j < best_k ==> spec_total_penalty(c) > penalty) by {
                if j == mask {
                    lemma_penalty_by_pixels(c, candidate, start, version as int, level as int, j);
                }
            }
        }
        mask = mask + 1;
    }
    *bitmap = best;
}

/// The text of a QR code: one string whose segmentation into modes is
/// chosen, or segments with the mode of each given.
#[derive(Clone, Debug)]
pub enum QRInput {
    Auto(String),
    Manual(Vec<(Mode, String)>),
}

/// The segments written for an input at a level.
pub open spec fn input_segments(input: QRInput, level: int) -> Seq<(Mode, Seq<char>)> {
    match input {
        QRInput::Auto(s) => text_runs(s@, chosen_class(s@, level)),
        QRInput::Manual(v) => segs_view(v@),
    }
}

/// The input has characters outside ASCII that need the UTF-8 marker: any
/// in the text, or in an ASCII segment.
pub open spec fn needs_utf8(input: QRInput) -> bool {
    match input {
        QRInput::Auto(s) => !is_ascii_chars(s@),
        QRInput::Manual(v) => exists|i: int| 0 <= i < v@.len() && (#[trigger] v@[i]).0 == Mode::ASCII && !is_ascii_chars(v@[i].1@),
    }
}

/// The tokens written for an input at a level.
pub open spec fn input_tokens(input: QRInput, level: int) -> Seq<Token> {
    spec_token_stream(input_segments(input, level), if needs_utf8(input) { Some(ECI_UTF8) } else { None })
}

proof fn lemma_segments_start(input: Seq<(Mode, Seq<char>)>, n: int)
    requires
        1 <= n <= input.len(),
    ensures
        segments_tokens(input, n).len() >= 1,
        segments_tokens(input, n)[0] is ModeAndCount,
    decreases n,
{
    if n > 1 {
        lemma_segments_start(input, n - 1);
    } else {
        assert(segments_tokens(input, 0).len() == 0);
    }
}

/// A text made into a symbol automatically gets the UTF-8 marker (ECI 26)
/// as its first token exactly when it holds a character outside ASCII
/// (above U+007F); an ASCII text starts with a mode indicator instead.
pub proof fn lemma_auto_utf8_marker(text: String, level: int)
    ensures
        (exists|i: int| 0 <= i < text@.len() && #[trigger] text@[i] > '\u{7f}')
            ==> input_tokens(QRInput::Auto(text), level)[0] == Token::EciChange(26),
        is_ascii_chars(text@)
            ==> !(input_tokens(QRInput::Auto(text), level)[0] is EciChange),
{
    let input = QRInput::Auto(text);
    let segs = input_segments(input, level);
    if exists|i: int| 0 <= i < text@.len() && #[trigger] text@[i] > '\u{7f}' {
        let i = choose|i: int| 0 <= i < text@.len() && #[trigger] text@[i] > '\u{7f}';
        assert(!is_ascii_chars(text@));
        assert(ECI_UTF8 == 26);
    }
    if is_ascii_chars(text@) {
        let ts = input_tokens(input, level);
        assert(ts == segments_tokens(segs, segs.len() as int) + seq![Token::Terminator]);
        if segs.len() > 0 {
            lemma_segments_start(segs, segs.len() as int);
        }
    }
}

/// The character count indicators of each mode among the tokens.
pub open spec fn token_counts(ts: Seq<Token>) -> Seq<usize> {
    seq![mode_count(ts, ts.len() as int, 0) as usize, mode_count(ts, ts.len() as int, 1) as usize,
        mode_count(ts, ts.len() as int, 2) as usize, mode_count(ts, ts.len() as int, 3) as usize]
}

/// The smallest version whose capacity at the level holds the input.
pub open spec fn best_version(input: QRInput, level: int) -> Option<int> {
    let ts = input_tokens(input, level);
    smallest_fit(fixed_bits(ts, ts.len() as int), token_counts(ts), level, 1)
}

/// The level asked for, Q (2) by default.
pub open spec fn qr_level(level_choice: Option<u8>) -> int {
    match level_choice {
        Some(l) => l as int,
        None => 2,
    }
}

/// The version of the symbol: the one asked for, or the smallest that fits.
pub open spec fn qr_version(input: QRInput, version_choice: Option<u32>, level: int) -> int {
    match version_choice {
        Some(v) => v as int,
        None => best_version(input, level)->0,
    }
}

/// The bits written into the data modules of the symbol.
pub open spec fn qr_bits(input: QRInput, version_choice: Option<u32>, level: int) -> Seq<u8> {
    let v = qr_version(input, version_choice, level);
    spec_full_block_encode(tokens_bits(input_tokens(input, level), v), v, level)
}

/// The colour of module `(a, b)` of a blank symbol after writing the first
/// `n` bits along the data path.
pub open spec fn data_pixel(version: int, bits: Seq<u8>, n: nat, a: int, b: int) -> bool
    decreases n,
{
    if n == 0 {
        blank_pixel(version, a, b)
    } else if walk_cell(version, (n - 1) as nat) == Some((a, b)) {
        bits[n - 1] != 0
    } else {
        data_pixel(version, bits, (n - 1) as nat, a, b)
    }
}

/// `bm` is the symbol for an input, version choice and level with mask
/// pattern `mask`.
pub open spec fn is_symbol(bm: Bitmap, input: QRInput, version_choice: Option<u32>, level: int, mask: int) -> bool {
    let v = qr_version(input, version_choice, level);
    let bits = qr_bits(input, version_choice, level);
    &&& symbol_sized(bm, v)
    &&& !bm.has_border()
    &&& forall|a: nat, b: nat| a < bm.spec_width() && b < bm.spec_height() ==>
        #[trigger] bm.pixel(a, b) == (format_over(v, qr_format(level, mask), a as int, b as int,
            data_pixel(v, bits, bits.len(), a as int, b as int))
            != mask_flips(mask, bm.spec_width(), bm.spec_height(), a as int, b as int))
}

/// The input can be turned into tokens at a level: the level is one, and
/// the segments can be written (or the text can be segmented).
pub open spec fn input_ok(input: QRInput, level: int) -> bool {
    &&& 0 <= level <= 3
    &&& match input {
        QRInput::Auto(s) => auto_input_ok(s@),
        QRInput::Manual(segs) => forall|i: int| 0 <= i < segs@.len() ==> segment_valid(#[trigger] segs@[i].0, segs@[i].1@),
    }
}

/// The input can be made into a symbol: its segments can be written, a
/// version holds it (the one asked for, if any, and without a leftover of
/// less than a codeword), and its bits fit the data modules.
pub open spec fn make_qr_ok(input: QRInput, version_choice: Option<u32>, level_choice: Option<u8>) -> bool {
    let level = qr_level(level_choice);
    let ts = input_tokens(input, level);
    let v = qr_version(input, version_choice, level);
    let bits = qr_bits(input, version_choice, level);
    &&& input_ok(input, level)
    &&& ts.len() <= usize::MAX
    &&& fixed_bits(ts, ts.len() as int) <= usize::MAX / 2
    &&& forall|m: int| 0 <= m < 4 ==> #[trigger] mode_count(ts, ts.len() as int, m) * 16 <= usize::MAX / 8
    &&& best_version(input, level) is Some
    &&& (version_choice matches Some(c) ==> 1 <= c <= 40 && best_version(input, level)->0 <= c)
    &&& can_pad(tokens_bits(ts, v).len() as int, data_layout(v, level).0)
    &&& (bits.len() == 0 || walk_cell(v, (bits.len() - 1) as nat) is Some)
}

proof fn lemma_written_data(bm: Bitmap, version: int, bits: Seq<u8>, n: nat, a: int, b: int)
    requires
        bm.pixel(a as nat, b as nat) == blank_pixel(version, a, b),
    ensures
        walk_written(bm, version, bits, n, a, b) == data_pixel(version, bits, n, a, b),
    decreases n,
{
    if n > 0 {
        lemma_written_data(bm, version, bits, (n - 1) as nat, a, b);
    }
}

/// Whether an ASCII segment holds a character outside ASCII.
fn needs_utf8_marker(segments: &Vec<(Mode, String)>) -> (r: bool)
    ensures
        r == exists|i: int| 0 <= i < segments@.len() && (#[trigger] segments@[i]).0 == Mode::ASCII && !is_ascii_chars(segments@[i].1@),
{
    let mut i: usize = 0;
    while i < segments.len()
        invariant
            i <= segments@.len(),
            forall|j: int| 0 <= j < i ==> !((#[trigger] segments@[j]).0 == Mode::ASCII && !is_ascii_chars(segments@[j].1@)),
        decreases segments@.len() - i,
    {
        if segments[i].0 == Mode::ASCII && !segments[i].1.as_str().is_ascii() {
            assert(segments@[i as int].0 == Mode::ASCII && !is_ascii_chars(segments@[i as int].1@));
            return true;
        }
        i = i + 1;
    }
    false
}

/// The tokens of an input at a level.
fn input_to_tokens(input: QRInput, level: u8) -> (r: Vec<Token>)
    requires
        input_ok(input, level as int),
    ensures
        r@ == input_tokens(input, level as int),
        all_valid(r@),
{
    let ghost inp = input;
    let ghost lv = level as int;
    let utf8_encoding = match &input {
        QRInput::Auto(s) => !s.as_str().is_ascii(),
        QRInput::Manual(v) => needs_utf8_marker(v),
    };
    let segments = match input {
        QRInput::Auto(s) => find_best_mode_optimization(s, level),
        QRInput::Manual(v) => v,
    };
    proof {
        assert(segs_view(segments@) == input_segments(inp, lv));
        assert(utf8_encoding == needs_utf8(inp));
        match inp {
            QRInput::Auto(s) => {
                let runs = text_runs(s@, chosen_class(s@, lv));
                crate::qr_standard::search::lemma_text_runs_valid(s@, chosen_class(s@, lv));
                assert(segs_view(segments@) == runs);
                assert forall|i: int| 0 <= i < segments@.len() implies segment_valid(#[trigger] segments@[i].0, segments@[i].1@) by {
                    assert(segs_view(segments@)[i] == (segments@[i].0, segments@[i].1@));
                    assert(runs[i] == segs_view(segments@)[i]);
                    assert(segment_valid(runs[i].0, runs[i].1));
                }
            },
            QRInput::Manual(v) => {},
        }
    }
    let eci = if utf8_encoding { Some(ECI_UTF8) } else { None };
    let tokens = make_token_stream(segments, eci);
    proof {
        assert(ECI_UTF8 == 26);
        lemma_token_stream_valid(input_segments(inp, lv), eci);
    }
    tokens
}

/// The symbol of a version with the bits of the tokens written into its
/// data modules (before format information and mask).
fn tokens_to_symbol(tokens: Vec<Token>, version: u32, level: u8) -> (r: Bitmap)
    requires
        1 <= version <= 40,
        level <= 3,
        all_valid(tokens@),
        can_pad(tokens_bits(tokens@, version as int).len() as int, data_layout(version as int, level as int).0),
        ({
            let bits = spec_full_block_encode(tokens_bits(tokens@, version as int), version as int, level as int);
            bits.len() == 0 || walk_cell(version as int, (bits.len() - 1) as nat) is Some
        }),
    ensures
        symbol_sized(r, version as int),
        !r.has_border(),
        forall|a: nat, b: nat| a < r.spec_width() && b < r.spec_height() ==> #[trigger] r.pixel(a, b)
            == data_pixel(version as int, spec_full_block_encode(tokens_bits(tokens@, version as int), version as int, level as int),
                spec_full_block_encode(tokens_bits(tokens@, version as int), version as int, level as int).len(), a as int, b as int),
{
    let stream = tokens_to_badstream(tokens, version);
    let shuffled = full_block_encode(&stream, version, level);
    let ghost bits = shuffled@;
    let mut bitmap = new_blank_qr_code(version);
    let ghost blank = bitmap;
    proof {
        assert(bitmap_version(bitmap.spec_width(), bitmap.spec_height()) == Some(version as int));
    }
    write_badstream_to_bitmap(&shuffled, &mut bitmap);
    proof {
        assert forall|a: nat, b: nat| a < bitmap.spec_width() && b < bitmap.spec_height() implies
            #[trigger] bitmap.pixel(a, b) == data_pixel(version as int, bits, bits.len(), a as int, b as int) by {
            lemma_written_data(blank, version as int, bits, bits.len(), a as int, b as int);
        }
    }
    bitmap
}

/// Makes the QR symbol for an input: at the version asked for or the
/// smallest that fits, at the level asked for (Q by default), with the mask
/// asked for or the one with the lowest penalty.
pub fn make_qr(input: QRInput, version_choice: Option<u32>, level_choice: Option<u8>, mask_choice: Option<u8>) -> (r: Bitmap)
    requires
        make_qr_ok(input, version_choice, level_choice),
        mask_choice matches Some(m) ==> m <= 7,
    ensures
        mask_choice matches Some(m) ==> is_symbol(r, input, version_choice, qr_level(level_choice), m as int),
        mask_choice is None ==> exists|k: int| 0 <= k < 8 && #[trigger] is_symbol(r, input, version_choice, qr_level(level_choice), k)
            && forall|c: Bitmap, j: int| 0 <= j < 8 && #[trigger] is_symbol(c, input, version_choice, qr_level(level_choice), j) ==>
                spec_total_penalty(c) >= spec_total_penalty(r)
                && (j < k ==> spec_total_penalty(c) > spec_total_penalty(r)),
{
    let ghost inp = input;
    let level = match level_choice {
        Some(l) => l,
        None => 2,
    };
    proof {
        assert(input_ok(inp, level as int));
    }
    let tokens = input_to_tokens(input, level);
    symbol_of_tokens(tokens, Ghost(inp), version_choice, level_choice, mask_choice)
}

/// The symbol of an input from its tokens (see `make_qr`).
#[verifier::rlimit(60)]
fn symbol_of_tokens(tokens: Vec<Token>, Ghost(inp): Ghost<QRInput>, version_choice: Option<u32>,
    level_choice: Option<u8>, mask_choice: Option<u8>) -> (r: Bitmap)
    requires
        make_qr_ok(inp, version_choice, level_choice),
        mask_choice matches Some(m) ==> m <= 7,
        tokens@ == input_tokens(inp, qr_level(level_choice)),
        all_valid(tokens@),
    ensures
        mask_choice matches Some(m) ==> is_symbol(r, inp, version_choice, qr_level(level_choice), m as int),
        mask_choice is None ==> exists|k: int| 0 <= k < 8 && #[trigger] is_symbol(r, inp, version_choice, qr_level(level_choice), k)
            && forall|c: Bitmap, j: int| 0 <= j < 8 && #[trigger] is_symbol(c, inp, version_choice, qr_level(level_choice), j) ==>
                spec_total_penalty(c) >= spec_total_penalty(r)
                && (j < k ==> spec_total_penalty(c) > spec_total_penalty(r)),
{
    let level = match level_choice {
        Some(l) => l,
        None => 2,
    };
    let ghost lv = level as int;
    let ghost ts = tokens@;
    proof {
        assert(ts.len() <= usize::MAX);
        assert(fixed_bits(ts, ts.len() as int) <= usize::MAX / 2);
    }
    let found = find_best_version(&tokens, level);
    proof {
        assert(best_version(inp, lv) == smallest_fit(fixed_bits(ts, ts.len() as int), token_counts(ts), lv, 1));
        lemma_smallest_fit_range(fixed_bits(ts, ts.len() as int), token_counts(ts), lv, 1);
    }
    let best_ver = match found {
        Ok(v) => v,
        Err(_) => 1,
    };
    let version = match version_choice {
        Some(chosen) => chosen,
        None => best_ver,
    };
    proof {
        assert(version == qr_version(inp, version_choice, lv));
    }
    let mut bitmap = tokens_to_symbol(tokens, version, level);
    let ghost written = bitmap;
    match mask_choice {
        Some(mask) => {
            apply_mask(&mut bitmap, version, level, mask);
        },
        None => {
            apply_best_mask(&mut bitmap, version, level);
            proof {
                let k = choose|k: int| 0 <= k < 8 && #[trigger] mask_result(written, bitmap, version as int, lv, k)
                    && forall|c: Bitmap, j: int| 0 <= j < 8 && #[trigger] mask_result(written, c, version as int, lv, j) ==>
                        spec_total_penalty(c) >= spec_total_penalty(bitmap)
                        && (j < k ==> spec_total_penalty(c) > spec_total_penalty(bitmap));
                assert(is_symbol(bitmap, inp, version_choice, lv, k));
                assert forall|c: Bitmap, j: int| 0 <= j < 8 && #[trigger] is_symbol(c, inp, version_choice, lv, j) implies
                    spec_total_penalty(c) >= spec_total_penalty(bitmap)
                    && (j < k ==> spec_total_penalty(c) > spec_total_penalty(bitmap)) by {
                    assert(mask_result(written, c, version as int, lv, j));
                }
            }
        },
    }
    bitmap
}

/// Whether the text of `s` can be written in `mode`.
fn segment_ok(mode: Mode, s: &String) -> (r: bool)
    ensures
        r == segment_valid(mode, s@),
{
    match mode {
        Mode::ASCII => true,
        Mode::Kanji => false,
        _ => {
            let text = s.as_str();
            let n = text.unicode_len();
            let mut i: usize = 0;
            while i < n
                invariant
                    n == s@.len(),
                    text@ == s@,
                    i <= n,
                    mode == Mode::Numeric || mode == Mode::AlphaNum,
                    forall|k: int| 0 <= k < i ==> (if mode == Mode::Numeric { is_digit(#[trigger] s@[k]) } else { is_alphanum(s@[k]) }),
                decreases n - i,
            {
                let c = text.get_char(i);
                let ok = if mode == Mode::Numeric { '0' <= c && c <= '9' } else { alphanum_value(c).is_some() };
                if !ok {
                    return false;
                }
                i = i + 1;
            }
            true
        },
    }
}

/// The segments of a text in a size class can be costed without overflow.
pub open spec fn class_costs_ok(s: Seq<char>, c: int) -> bool {
    let segs = text_runs(s, c);
    &&& runs_cost(segs, c, segs.len() as int) + 8 <= usize::MAX
    &&& forall|i: int| 0 <= i < segs.len() ==> 16 * encode_utf8(#[trigger] segs[i].1).len() + 64 <= usize::MAX
}

/// Whether a text can be segmented and costed without overflow.
fn auto_checked(s: &String) -> (r: bool)
    ensures
        r == auto_input_ok(s@),
{
    let n = s.as_str().unicode_len();
    if n > (4294967295 - 200) / 168 {
        return false;
    }
    let mut class: usize = 0;
    while class < 2
        invariant
            n == s@.len(),
            168 * s@.len() + 200 <= u32::MAX,
            class <= 2,
            forall|c: int| 0 <= c < class ==> class_costs_ok(s@, c),
        decreases 2 - class,
    {
        let segs = optimize_mode(s, class as u8);
        let ghost runs = text_runs(s@, class as int);
        proof { lemma_text_runs_valid(s@, class as int); }
        let mut total: usize = 0;
        let mut i: usize = 0;
        while i < segs.len()
            invariant
                class < 2,
                segs_view(segs@) == runs,
                runs == text_runs(s@, class as int),
                forall|k: int| 0 <= k < runs.len() ==> segment_valid(#[trigger] runs[k].0, runs[k].1),
                i <= segs@.len(),
                total == runs_cost(runs, class as int, i as int),
                forall|k: int| 0 <= k < i ==> 16 * encode_utf8(#[trigger] runs[k].1).len() + 64 <= usize::MAX,
            decreases segs@.len() - i,
        {
            assert(runs[i as int] == (segs@[i as int].0, segs@[i as int].1@));
            let b = segs[i].1.as_str().as_bytes().len();
            assert(b == encode_utf8(runs[i as int].1).len());
            if b > (usize::MAX - 64) / 16 {
                return false;
            }
            assert(segment_valid(runs[i as int].0, runs[i as int].1));
            let cost = bit_cost(b, class, segs[i].0);
            if cost > usize::MAX - total {
                proof { lemma_runs_cost_grows(runs, class as int, i + 1, runs.len() as int); }
                return false;
            }
            total = total + cost;
            i = i + 1;
        }
        if total > usize::MAX - 8 {
            return false;
        }
        class = class + 1;
    }
    assert(class_costs_ok(s@, 0) && class_costs_ok(s@, 1));
    true
}

/// Whether each segment's text can be written in its mode.
fn segments_ok(segs: &Vec<(Mode, String)>) -> (r: bool)
    ensures
        r == forall|k: int| 0 <= k < segs@.len() ==> segment_valid(#[trigger] segs@[k].0, segs@[k].1@),
{
    let mut i: usize = 0;
    while i < segs.len()
        invariant
            i <= segs@.len(),
            forall|k: int| 0 <= k < i ==> segment_valid(#[trigger] segs@[k].0, segs@[k].1@),
        decreases segs@.len() - i,
    {
        if !segment_ok(segs[i].0, &segs[i].1) {
            return false;
        }
        i = i + 1;
    }
    true
}

/// Whether an input can be segmented and written at a level.
fn input_checked(input: &QRInput, level: u8) -> (r: bool)
    ensures
        r == input_ok(*input, level as int),
{
    if level > 3 {
        return false;
    }
    match input {
        QRInput::Auto(s) => auto_checked(s),
        QRInput::Manual(segs) => segments_ok(segs),
    }
}

proof fn lemma_fixed_bits_grow(ts: Seq<Token>, a: int, b: int)
    requires
        0 <= a <= b,
    ensures
        fixed_bits(ts, a) <= fixed_bits(ts, b),
        forall|m: int| #![trigger mode_count(ts, b, m)] mode_count(ts, a, m) <= mode_count(ts, b, m),
    decreases b - a,
{
    if a < b {
        lemma_fixed_bits_grow(ts, a, b - 1);
        assert forall|m: int| #![trigger mode_count(ts, b, m)] mode_count(ts, a, m) <= mode_count(ts, b, m) by {
            assert(mode_count(ts, a, m) <= mode_count(ts, b - 1, m));
            assert(mode_count(ts, b - 1, m) <= mode_count(ts, b, m));
        }
    }
}

/// Whether the fixed bits and the count indicators of the tokens are small
/// enough to size a symbol.
fn overhead_checked(tokens: &Vec<Token>) -> (r: bool)
    ensures
        r == (fixed_bits(tokens@, tokens@.len() as int) <= usize::MAX / 2
            && forall|m: int| 0 <= m < 4 ==> #[trigger] mode_count(tokens@, tokens@.len() as int, m) * 16 <= usize::MAX / 8),
{
    let ghost ts = tokens@;
    let mut sum: usize = 0;
    let mut counts: [usize; 4] = [0, 0, 0, 0];
    let mut i: usize = 0;
    while i < tokens.len()
        invariant
            ts == tokens@,
            i <= ts.len(),
            sum == fixed_bits(ts, i as int),
            sum <= usize::MAX / 2,
            forall|m: int| 0 <= m < 4 ==> #[trigger] counts@[m] == mode_count(ts, i as int, m),
            forall|m: int| 0 <= m < 4 ==> #[trigger] counts@[m] * 16 <= usize::MAX / 8,
        decreases ts.len() - i,
    {
        let bits: usize = match tokens[i] {
            Token::EciChange(d) => if d <= 0x7F { 12 } else if d <= 0x3FFF { 20 } else { 28 },
            Token::ModeAndCount(..) => 4,
            Token::Character(width, _) => width as usize,
            Token::Terminator => 4,
        };
        if bits > usize::MAX / 2 - sum {
            proof { lemma_fixed_bits_grow(ts, i + 1, ts.len() as int); }
            return false;
        }
        sum = sum + bits;
        match tokens[i] {
            Token::ModeAndCount(mode, _) => {
                let m: usize = match mode {
                    Mode::Numeric => 0,
                    Mode::AlphaNum => 1,
                    Mode::ASCII => 2,
                    Mode::Kanji => 3,
                };
                assert(m == mode.rank());
                if counts[m] + 1 > usize::MAX / 128 {
                    proof { lemma_fixed_bits_grow(ts, i + 1, ts.len() as int); }
                    assert(mode_count(ts, i + 1, m as int) == counts@[m as int] + 1);
                    assert(mode_count(ts, ts.len() as int, m as int) * 16 > usize::MAX / 8);
                    return false;
                }
                assert((counts@[m as int] + 1) * 16 <= usize::MAX / 8) by (nonlinear_arith)
                    requires counts@[m as int] + 1 <= usize::MAX / 128;
                counts[m] = counts[m] + 1;
                assert(mode_count(ts, i + 1, m as int) == counts@[m as int]);
            },
            _ => {},
        }
        assert(fixed_bits(ts, i + 1) == sum);
        assert forall|k: int| 0 <= k < 4 implies #[trigger] counts@[k] == mode_count(ts, i + 1, k) by {
            assert(mode_count(ts, i + 1, k) == mode_count(ts, i as int, k) + (match ts[i as int] {
                Token::ModeAndCount(mode, _) => if mode.rank() == k { 1int } else { 0int },
                _ => 0int,
            }));
        }
        i = i + 1;
    }
    assert forall|m: int| 0 <= m < 4 implies #[trigger] mode_count(ts, ts.len() as int, m) * 16 <= usize::MAX / 8 by {
        assert(counts@[m] == mode_count(ts, ts.len() as int, m));
    }
    true
}

/// Whether the data path of a symbol of `version` has a bit `n`.
fn walk_reaches(version: u32, n: usize) -> (r: bool)
    requires
        1 <= version <= 40,
    ensures
        r == (walk_cell(version as int, n as nat) is Some),
{
    let max = (20 + 4 * (version - 1)) as usize;
    let mut x = max;
    let mut y = max;
    let mut k: usize = 0;
    while k < n
        invariant
            1 <= version <= 40,
            k <= n,
            walk_cell(version as int, k as nat) == Some((x as int, y as int)),
        decreases n - k,
    {
        match next_data_bit(x, y, version) {
            Some((a, b)) => {
                x = a;
                y = b;
            },
            None => {
                proof { lemma_walk_stops(version as int, (k + 1) as nat, n as nat); }
                return false;
            },
        }
        k = k + 1;
    }
    true
}

proof fn lemma_walk_stops(version: int, k: nat, n: nat)
    requires
        k <= n,
        walk_cell(version, k) is None,
    ensures
        walk_cell(version, n) is None,
    decreases n - k,
{
    if k < n {
        lemma_walk_stops(version, k + 1, n);
    }
}

/// Whether a stream of `len` bits can be padded to `codeword_length` codewords.
fn pad_ok(len: usize, codeword_length: usize) -> (r: bool)
    ensures
        r == can_pad(len as int, codeword_length as int),
{
    let q = len / 8 + if len % 8 == 0 { 0 } else { 1 };
    assert(q == (len + 7) / 8);
    codeword_length >= 1 && q <= codeword_length && !(q > codeword_length - 1 && len % 8 != 0)
        && codeword_length <= usize::MAX / 8
}

/// The tokens of an input at a level, or nothing where the input cannot be
/// segmented, written or sized.
fn tokens_checked(input: QRInput, level: u8) -> (r: Option<Vec<Token>>)
    ensures
        r is Some <==> (input_ok(input, level as int) && ({
            let ts = input_tokens(input, level as int);
            &&& fixed_bits(ts, ts.len() as int) <= usize::MAX / 2
            &&& forall|m: int| 0 <= m < 4 ==> #[trigger] mode_count(ts, ts.len() as int, m) * 16 <= usize::MAX / 8
        })),
        r matches Some(t) ==> t@ == input_tokens(input, level as int) && all_valid(t@),
{
    if !input_checked(&input, level) {
        return None;
    }
    let tokens = input_to_tokens(input, level);
    if !overhead_checked(&tokens) {
        return None;
    }
    Some(tokens)
}

/// The version of the symbol for the tokens of an input, or nothing where
/// no version holds them, the version asked for does not, or they cannot
/// be laid out.
#[verifier::rlimit(40)]
fn version_checked(tokens: &Vec<Token>, Ghost(inp): Ghost<QRInput>, version_choice: Option<u32>, level: u8) -> (r: Option<u32>)
    requires
        level <= 3,
        tokens@ == input_tokens(inp, level as int),
        all_valid(tokens@),
        fixed_bits(tokens@, tokens@.len() as int) <= usize::MAX / 2,
        forall|m: int| 0 <= m < 4 ==> #[trigger] mode_count(tokens@, tokens@.len() as int, m) * 16 <= usize::MAX / 8,
    ensures
        r is Some <==> ({
            let v = qr_version(inp, version_choice, level as int);
            let bits = qr_bits(inp, version_choice, level as int);
            &&& best_version(inp, level as int) is Some
            &&& (version_choice matches Some(c) ==> 1 <= c <= 40 && best_version(inp, level as int)->0 <= c)
            &&& can_pad(tokens_bits(tokens@, v).len() as int, data_layout(v, level as int).0)
            &&& (bits.len() == 0 || walk_cell(v, (bits.len() - 1) as nat) is Some)
        }),
        r matches Some(v) ==> v == qr_version(inp, version_choice, level as int),
{
    let ghost ts = tokens@;
    let ghost lv = level as int;
    proof {
        assert(token_counts(ts) =~= seq![mode_count(ts, ts.len() as int, 0) as usize,
            mode_count(ts, ts.len() as int, 1) as usize, mode_count(ts, ts.len() as int, 2) as usize,
            mode_count(ts, ts.len() as int, 3) as usize]);
    }
    let best = match find_best_version(tokens, level) {
        Ok(v) => v,
        Err(_) => {
            return None;
        },
    };
    proof {
        lemma_smallest_fit_range(fixed_bits(ts, ts.len() as int), token_counts(ts), lv, 1);
    }
    let version = match version_choice {
        Some(c) => {
            if c < 1 || c > 40 || c < best {
                return None;
            }
            c
        },
        None => best,
    };
    let copy = tokens.clone();
    assert(copy@ == ts);
    let stream = tokens_to_badstream(copy, version);
    proof { lemma_block_info(version as int, lv); }
    let capacity = DATA_CODEWORDS[level as usize * 40 + version as usize - 1];
    assert(capacity == data_layout(version as int, lv).0);
    if !pad_ok(stream.len(), capacity) {
        return None;
    }
    let shuffled = full_block_encode(&stream, version, level);
    if shuffled.len() > 0 && !walk_reaches(version, shuffled.len() - 1) {
        return None;
    }
    Some(version)
}

/// `make_qr`, or nothing for the inputs that it does not take (see
/// `make_qr_ok`): then no version holds the input, the version asked for
/// is too small or not one of 1 to 40, the level or the mask is out of
/// range, or the input is too large to size or to lay out.
pub fn make_qr_checked(input: QRInput, version_choice: Option<u32>, level_choice: Option<u8>,
    mask_choice: Option<u8>) -> (r: Option<Bitmap>)
    ensures
        r is Some <==> (make_qr_ok(input, version_choice, level_choice) && (mask_choice matches Some(m) ==> m <= 7)),
        r matches Some(b) ==> (mask_choice matches Some(m) ==> is_symbol(b, input, version_choice, qr_level(level_choice), m as int)),
        r matches Some(b) ==> (mask_choice is None ==> best_mask_symbol(b, input, version_choice, qr_level(level_choice))),
{
    if let Some(m) = mask_choice {
        if m > 7 {
            return None;
        }
    }
    let level = match level_choice {
        Some(l) => l,
        None => 2,
    };
    let ghost inp = input;
    assert(qr_level(level_choice) == level as int);
    let tokens = match tokens_checked(input, level) {
        Some(t) => t,
        None => {
            return None;
        },
    };
    let n = tokens.len();
    if version_checked(&tokens, Ghost(inp), version_choice, level).is_none() {
        return None;
    }
    assert(make_qr_ok(inp, version_choice, level_choice));
    let bm = symbol_of_tokens(tokens, Ghost(inp), version_choice, level_choice, mask_choice);
    assert(mask_choice is None ==> best_mask_symbol(bm, input, version_choice, qr_level(level_choice)));
    Some(bm)
}

/// `r` is the symbol of the input with the first of the masks of least
/// penalty.
pub open spec fn best_mask_symbol(r: Bitmap, input: QRInput, version_choice: Option<u32>, level: int) -> bool {
    exists|k: int| 0 <= k < 8 && #[trigger] is_symbol(r, input, version_choice, level, k)
        && forall|c: Bitmap, j: int| 0 <= j < 8 && #[trigger] is_symbol(c, input, version_choice, level, j) ==>
            spec_total_penalty(c) >= spec_total_penalty(r)
            && (j < k ==> spec_total_penalty(c) > spec_total_penalty(r))
}

} // verus!
