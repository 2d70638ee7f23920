use vstd::prelude::*;
use crate::image::{Bitmap, row_bytes, byte_bit, spec_index_to_xy, spec_xy_to_index, lemma_xy_index_roundtrip};
use crate::rdsm::galois::{qr_fcode_is_good, qr_generate_fcode, spec_fcode_is_good, spec_generate_fcode,
    lemma_generated_fcode_is_good, carryless_divide, spec_carryless_divide};
use tables::{ap_centers, ap_coord_indices, lemma_ap_centers, lemma_ap_centers_increase};
use penalties::{total_penalty, penalty_computable, spec_total_penalty};

pub mod tables;
pub mod bitstream;
pub mod penalties;
pub mod badstream;
pub mod search;
pub mod datastream;
pub mod path;

verus! {

/// Whether `version` is not one of the QR versions 1 to 40.
pub open spec fn spec_bad_version(version: int) -> bool {
    !(1 <= version <= 40)
}

fn bad_version(version: u32) -> (r: bool)
    ensures
        r == spec_bad_version(version as int),
{
    !(1 <= version && version <= 40)
}

/// The width of a QR symbol of the given version: 21, 25, ..., 177.
pub open spec fn spec_version_size(version: int) -> int {
    21 + 4 * (version - 1)
}

/// The largest coordinate of a QR symbol of the given version.
pub open spec fn max_index(version: int) -> int {
    20 + 4 * (version - 1)
}

/// The standard width of a QR symbol of the given version, if it is one.
pub fn version_to_size(version: u32) -> (r: Option<u32>)
    ensures
        r == (if spec_bad_version(version as int) {
            None
        } else {
            Some(spec_version_size(version as int) as u32)
        }),
{
    if bad_version(version) {
        None
    } else {
        Some(21 + 4 * (version - 1))
    }
}

/// The version whose symbols are `size` modules wide, if there is one.
pub open spec fn spec_size_to_version(size: int) -> Option<int> {
    if size % 4 == 1 && 21 <= size <= 177 {
        Some((size - 17) / 4)
    } else {
        None
    }
}

fn size_to_version(size: usize) -> (r: Option<u32>)
    ensures
        r matches Some(v) ==> spec_size_to_version(size as int) == Some(v as int),
        r is None ==> spec_size_to_version(size as int) is None,
        r matches Some(v) ==> 1 <= v <= 40 && spec_version_size(v as int) == size,
{
    if size % 4 == 1 && 21 <= size && size <= 177 {
        Some((size as u32 - 17) / 4)
    } else {
        None
    }
}

fn version_to_max_index(version: u32) -> (r: usize)
    requires
        !spec_bad_version(version as int),
    ensures
        r == max_index(version as int),
{
    20 + 4 * (version as usize - 1)
}

/// Whether `(x, y)` lies outside a symbol of the given version (always, for
/// a version that is not one).
pub open spec fn spec_out_of_bounds(x: int, y: int, version: int) -> bool {
    spec_bad_version(version) || x > max_index(version) || y > max_index(version)
}

fn out_of_bounds(x: usize, y: usize, version: u32) -> (r: bool)
    ensures
        r == spec_out_of_bounds(x as int, y as int, version as int),
{
    if bad_version(version) {
        true
    } else {
        let m = if x >= y { x } else { y };
        m > 16 + 4 * version as usize
    }
}

pub open spec fn abs_diff(a: int, b: int) -> int {
    if a >= b { a - b } else { b - a }
}

/// The index of the first centre in `c` (from index `i` on) that lies within
/// two modules of `z`.
pub open spec fn first_close(c: Seq<usize>, z: int, i: int) -> Option<int>
    decreases c.len() - i,
{
    if i >= c.len() || i < 0 {
        None
    } else if abs_diff(z, c[i] as int) < 3 {
        Some(i)
    } else {
        first_close(c, z, i + 1)
    }
}

/// Whether `(x, y)` belongs to an alignment pattern: it lies within two
/// modules of a centre in both directions, and that pair of centres is not
/// one of the three that the finder patterns take (first with first, first
/// with last, last with first).
pub open spec fn spec_in_alignment(x: int, y: int, version: int) -> bool {
    let c = ap_centers(version);
    match (first_close(c, x, 0), first_close(c, y, 0)) {
        (Some(h), Some(v)) => !(
            (h == 0 && v == 0) || (h == 0 && v == c.len() - 1) || (v == 0 && h == c.len() - 1)),
        _ => false,
    }
}

fn abs_diff_usize(a: usize, b: usize) -> (r: usize)
    ensures
        r == abs_diff(a as int, b as int),
{
    if a >= b { a - b } else { b - a }
}

fn coord_is_alignment_pattern(x: usize, y: usize, version: u32) -> (r: bool)
    requires
        !spec_out_of_bounds(x as int, y as int, version as int),
    ensures
        r == spec_in_alignment(x as int, y as int, version as int),
{
    let indices = ap_coord_indices(version);
    let ghost c = indices@;
    proof { lemma_ap_centers(version as int); }
    let mut h: usize = 0;
    while h < indices.len()
        invariant
            c == indices@,
            c == ap_centers(version as int),
            h <= c.len(),
            first_close(c, x as int, 0) == first_close(c, x as int, h as int),
        decreases c.len() - h,
    {
        if abs_diff_usize(x, indices[h]) < 3 {
            let mut v: usize = 0;
            while v < indices.len()
                invariant
                    c == indices@,
                    c == ap_centers(version as int),
                    v <= c.len(),
                    h < c.len(),
                    first_close(c, x as int, 0) == Some(h as int),
                    first_close(c, y as int, 0) == first_close(c, y as int, v as int),
                decreases c.len() - v,
            {
                if abs_diff_usize(y, indices[v]) < 3 {
                    let hi = if h >= v { h } else { v };
                    let lo = if h >= v { v } else { h };
                    if hi == 0 || (lo == 0 && hi == indices.len() - 1) {
                        return false;
                    }
                    return true;
                }
                v = v + 1;
            }
            return false;
        }
        h = h + 1;
    }
    false
}

/// What a module of a QR symbol is for: 0 data, 1 finder (position)
/// pattern, 2 timing pattern, 3 format information, 4 alignment pattern, 5
/// version information, 6 the module that is always dark.
pub open spec fn spec_coord_status(x: int, y: int, version: int) -> Option<u8> {
    if spec_out_of_bounds(x, y, version) {
        None
    } else {
        let max = max_index(version);
        Some(if spec_in_alignment(x, y, version) {
            4u8
        } else if x < 8 && y < 8 {
            1u8
        } else if (x <= 7 && max - y <= 7) || (y <= 7 && max - x <= 7) {
            1u8
        } else if x == 6 || y == 6 {
            2u8
        } else if (x == 8 && (y <= 8 || max - y <= 6)) || (y == 8 && (x <= 8 || max - x <= 7)) {
            3u8
        } else if x == 8 && y == max - 7 {
            6u8
        } else if version >= 7 && (if x <= y { x } else { y }) <= 5 && (if x >= y { x } else { y }) >= max - 10 {
            5u8
        } else {
            0u8
        })
    }
}

/// Whether `(x, y)` is a data module of a symbol of the given version.
pub open spec fn spec_coord_is_data(x: int, y: int, version: int) -> bool {
    spec_coord_status(x, y, version) == Some(0u8)
}

/// What module `(x, y)` of a symbol of the version is: a data module (0),
/// part of a fixed pattern or of the format or version information (another
/// number), or nothing outside the symbol.
pub fn coord_status(x: usize, y: usize, version: u32) -> (r: Option<u8>)
    ensures
        r == spec_coord_status(x as int, y as int, version as int),
{
    if out_of_bounds(x, y, version) {
        return None;
    }
    Some(if coord_is_alignment_pattern(x, y, version) {
        4
    } else if x < 8 && y < 8 {
        1
    } else {
        let max = version_to_max_index(version);
        if (x <= 7 && max - y <= 7) || (y <= 7 && max - x <= 7) {
            1
        } else if x == 6 || y == 6 {
            2
        } else if (x == 8 && (y <= 8 || max - y <= 6)) || (y == 8 && (x <= 8 || max - x <= 7)) {
            3
        } else if x == 8 && y == max - 7 {
            6
        } else if version >= 7 && (if x <= y { x } else { y }) <= 5 && (if x >= y { x } else { y }) >= max - 10 {
            5
        } else {
            0
        }
    })
}

/// Whether module `(x, y)` of a symbol of the version holds data.
pub fn coord_is_data(x: usize, y: usize, version: u32) -> (r: bool)
    ensures
        r == spec_coord_is_data(x as int, y as int, version as int),
{
    match coord_status(x, y, version) {
        Some(c) => c == 0,
        None => false,
    }
}

/// One move along the zigzag path that data follows through a symbol whose
/// largest coordinate is `max`: up and down pairs of columns, from the
/// bottom right, skipping the vertical timing pattern.
pub open spec fn zig_step(x: int, y: int, max: int) -> (int, int) {
    let (x1, y1) = if (x % 2 == 0) != (x < 6) {
        (x - 1, y)
    } else {
        let up = (((max - x) / 2) % 2 == 0) != (x < 6);
        if (y == 0 && up) || (y == max && !up) {
            (x - 1, y)
        } else if up {
            (x + 1, y - 1)
        } else {
            (x + 1, y + 1)
        }
    };
    if x1 == 6 {
        (5, y1)
    } else {
        (x1, y1)
    }
}

/// Walks the zigzag path from `(x, y)` for at most `fuel` moves, stopping
/// at the first data module; nothing if the path ends at the bottom left
/// corner first; where the walk stands if the moves run out.
pub open spec fn zig_walk(x: int, y: int, version: int, fuel: nat) -> Option<(int, int)>
    decreases fuel,
{
    if fuel == 0 {
        Some((x, y))
    } else {
        let (a, b) = zig_step(x, y, max_index(version));
        if spec_coord_is_data(a, b, version) {
            Some((a, b))
        } else if a == 0 && b == max_index(version) {
            None
        } else {
            zig_walk(a, b, version, (fuel - 1) as nat)
        }
    }
}

/// The data module that follows the data module `(x, y)` on the zigzag path,
/// if there is one.
pub open spec fn spec_next_data_bit(x: int, y: int, version: int) -> Option<(int, int)> {
    if !spec_coord_is_data(x, y, version) {
        None
    } else {
        zig_walk(x, y, version, ((max_index(version) + 1) * (max_index(version) + 1)) as nat)
    }
}

/// The data module after `(x, y)` on the zigzag path of a symbol of the
/// version, if `(x, y)` is a data module and the path goes on.
pub fn next_data_bit(x: usize, y: usize, version: u32) -> (r: Option<(usize, usize)>)
    ensures
        r matches Some((a, b)) ==> spec_next_data_bit(x as int, y as int, version as int) == Some((a as int, b as int)),
        r is None ==> spec_next_data_bit(x as int, y as int, version as int) is None,
{
    // walk the zigzag path as if the symbol were blank, until the next data
    // module
    if !coord_is_data(x, y, version) {
        return None;
    }
    let max = version_to_max_index(version);
    let ghost v = version as int;
        let (mut cx, mut cy) = (x, y);
    assert((max + 1) * (max + 1) <= 177 * 177) by (nonlinear_arith)
        requires max <= 176;
    let bound = (max + 1) * (max + 1);
    let mut i: usize = 0;
    assert(!(cx == 0 && cy == max)) by {
        assert(!spec_coord_is_data(0, max as int, v));
    }
    assert(!spec_bad_version(v));
    while i < bound
        invariant
            max == max_index(v),
            20 <= max <= 176,
            1 <= v <= 40,
            v == version,
            cx <= max,
            cy <= max,
            !(cx == 0 && cy == max),
            i <= bound,
            bound == (max + 1) * (max + 1),
            zig_walk(cx as int, cy as int, v, (bound - i) as nat) == spec_next_data_bit(x as int, y as int, v),
        decreases bound - i,
    {
        let ghost (px, py) = (cx as int, cy as int);
        let ghost fuel = (bound - i) as nat;
        i = i + 1;
        if (cx % 2 == 0) != (cx < 6) {
            cx = cx - 1;
        } else {
            let up = (((max - cx) / 2) % 2 == 0) != (cx < 6);
            if (cy == 0 && up) || (cy == max && !up) {
                cx = cx - 1;
            } else if up {
                cx = cx + 1;
                cy = cy - 1;
            } else {
                cx = cx + 1;
                cy = cy + 1;
            }
        }
        if cx == 6 {
            cx = cx - 1;
        }
        assert((cx as int, cy as int) == zig_step(px, py, max as int));
        assert(zig_walk(px, py, v, fuel) == (if spec_coord_is_data(cx as int, cy as int, v) {
            Some((cx as int, cy as int))
        } else if cx == 0 && cy == max {
            None
        } else {
            zig_walk(cx as int, cy as int, v, (fuel - 1) as nat)
        }));
        if coord_is_data(cx, cy, version) {
            return Some((cx, cy));
        }
        if cx == 0 && cy == max {
            return None;
        }
    }
    Some((cx, cy))
}

/// The two places of bit `bit` (0 to 14) of the format information of a
/// symbol of the given version: next to the top left finder pattern, and
/// split between the other two.
pub open spec fn spec_format_coords(version: int, bit: int) -> ((int, int), (int, int)) {
    let max = 16 + 4 * version;
    let coord1 = if bit <= 5 {
        (8, bit)
    } else if bit <= 7 {
        (8, bit + 1)
    } else if bit == 8 {
        (7, 8)
    } else {
        (14 - bit, 8)
    };
    let coord2 = if bit <= 7 {
        (max - bit, 8)
    } else {
        (8, bit + (max - 14))
    };
    (coord1, coord2)
}

/// Which bit of the format information module `(a, b)` holds, if it holds
/// one.
pub open spec fn format_cell(version: int, a: int, b: int) -> Option<int> {
    let max = 16 + 4 * version;
    if a == 8 && 0 <= b <= 5 {
        Some(b)
    } else if a == 8 && b == 7 {
        Some(6)
    } else if a == 8 && b == 8 {
        Some(7)
    } else if a == 7 && b == 8 {
        Some(8)
    } else if 0 <= a <= 5 && b == 8 {
        Some(14 - a)
    } else if max - 7 <= a <= max && b == 8 {
        Some(max - a)
    } else if a == 8 && max - 6 <= b <= max {
        Some(b - max + 14)
    } else {
        None
    }
}

/// The format information modules are 30 distinct modules: each of the
/// two places of each bit holds that bit and no other.
pub proof fn lemma_format_cells(version: int, bit: int)
    requires
        1 <= version <= 40,
        0 <= bit <= 14,
    ensures
        format_cell(version, spec_format_coords(version, bit).0.0, spec_format_coords(version, bit).0.1) == Some(bit),
        format_cell(version, spec_format_coords(version, bit).1.0, spec_format_coords(version, bit).1.1) == Some(bit),
        0 <= spec_format_coords(version, bit).0.0 <= max_index(version),
        0 <= spec_format_coords(version, bit).0.1 <= max_index(version),
        0 <= spec_format_coords(version, bit).1.0 <= max_index(version),
        0 <= spec_format_coords(version, bit).1.1 <= max_index(version),
{
}

/// A module that holds a format bit is one of that bit's two places.
pub proof fn lemma_format_cell_place(version: int, a: int, b: int)
    requires
        1 <= version <= 40,
        format_cell(version, a, b) is Some,
    ensures
        0 <= format_cell(version, a, b)->0 <= 14,
        spec_format_coords(version, format_cell(version, a, b)->0).0 == (a, b)
            || spec_format_coords(version, format_cell(version, a, b)->0).1 == (a, b),
{
}

fn format_info_coords(version: u32, bit: u32) -> (r: Option<((usize, usize), (usize, usize))>)
    ensures
        spec_bad_version(version as int) || bit > 14 ==> r is None,
        !(spec_bad_version(version as int) || bit > 14) ==> (r matches Some((c1, c2)) && spec_format_coords(version as int, bit as int)
            == ((c1.0 as int, c1.1 as int), (c2.0 as int, c2.1 as int))),
{
    if bad_version(version) || bit > 14 {
        return None;
    }
    let max = (16 + 4 * version) as usize;
    let bit = bit as usize;
    let coord1 = if bit <= 5 {
        (8, bit)
    } else if bit <= 7 {
        (8, bit + 1)
    } else if bit == 8 {
        (7, 8)
    } else {
        (14 - bit, 8)
    };
    let coord2 = if bit <= 7 {
        (max - bit, 8)
    } else {
        (8, bit + (max - 14))
    };
    Some((coord1, coord2))
}

/// The mask that QR symbols apply to their format information, 0x5412.
pub const FORMAT_MASK: u16 = 0b0101_0100_0001_0010;

/// The format information read from one of its two places (`first` for the
/// one next to the top left finder pattern), at offset `(ox, oy)`: bits 14
/// down to `bit`, the highest first.
pub open spec fn format_read(bm: Bitmap, version: int, ox: int, oy: int, first: bool, bit: int) -> nat
    decreases 15 - bit,
{
    if bit > 14 || bit < 0 {
        0
    } else {
        let c = if first { spec_format_coords(version, bit).0 } else { spec_format_coords(version, bit).1 };
        format_read(bm, version, ox, oy, first, bit + 1) * 2 + (if bm.pixel((c.0 + ox) as nat, (c.1 + oy) as nat) { 1nat } else { 0nat })
    }
}

/// Whether both places of the format information, at offset `(ox, oy)`, lie
/// inside the bitmap.
pub open spec fn format_in_range(bm: Bitmap, version: int, ox: int, oy: int) -> bool {
    forall|bit: int| 0 <= bit <= 14 ==> {
        let (c1, c2) = #[trigger] spec_format_coords(version, bit);
        &&& c1.0 + ox < bm.spec_width()
        &&& c1.1 + oy < bm.spec_height()
        &&& c2.0 + ox < bm.spec_width()
        &&& c2.1 + oy < bm.spec_height()
    }
}

/// The format code of a symbol whose top left module is at `(ox, oy)`, with
/// its mask removed: nothing if the version is not one, if a module lies
/// outside the bitmap, or if the two copies differ.
pub open spec fn spec_get_fcode(bm: Bitmap, version: int, ox: int, oy: int) -> Option<u16> {
    if spec_bad_version(version) || !format_in_range(bm, version, ox, oy) {
        None
    } else if format_read(bm, version, ox, oy, true, 0) != format_read(bm, version, ox, oy, false, 0) {
        None
    } else {
        Some(((format_read(bm, version, ox, oy, true, 0) as u16) ^ FORMAT_MASK) as u16)
    }
}

proof fn lemma_format_read_bound(bm: Bitmap, version: int, ox: int, oy: int, first: bool, bit: int)
    requires
        0 <= bit <= 15,
    ensures
        format_read(bm, version, ox, oy, first, bit) < vstd::arithmetic::power2::pow2((15 - bit) as nat),
    decreases 15 - bit,
{
    vstd::arithmetic::power2::lemma2_to64();
    if bit <= 14 {
        lemma_format_read_bound(bm, version, ox, oy, first, bit + 1);
        vstd::arithmetic::power2::lemma_pow2_unfold((15 - bit) as nat);
    }
}

proof fn lemma_shl1(o: u16)
    requires
        o < 0x8000,
    ensures
        (o << 1u16) == o * 2,
        o * 2 + 1 <= u16::MAX,
{
    assert((o << 1u16) == o * 2) by (bit_vector)
        requires o < 0x8000;
}

/// Reads the format code of a symbol whose top left module is at `offset`:
/// nothing unless its two copies agree.
pub fn get_fcode(input: &Bitmap, version: u32, offset: (usize, usize)) -> (r: Option<u16>)
    requires
        input.wf(),
        spec_bad_version(version as int) || (offset.0 + max_index(version as int) <= usize::MAX
            && offset.1 + max_index(version as int) <= usize::MAX),
    ensures
        r == spec_get_fcode(*input, version as int, offset.0 as int, offset.1 as int),
{
    let (ox, oy) = offset;
    let mut output1: u16 = 0;
    let mut output2: u16 = 0;
    if bad_version(version) {
        return None;
    }
    let ghost v = version as int;
    let mut bit: u32 = 15;
    while bit > 0
        invariant
            1 <= v <= 40,
            v == version,
            bit <= 15,
            ox == offset.0,
            oy == offset.1,
            ox + max_index(v) <= usize::MAX,
            oy + max_index(v) <= usize::MAX,
            input.wf(),
            output1 as nat == format_read(*input, v, ox as int, oy as int, true, bit as int),
            output2 as nat == format_read(*input, v, ox as int, oy as int, false, bit as int),
            forall|k: int| bit <= k <= 14 ==> {
                let (c1, c2) = #[trigger] spec_format_coords(v, k);
                &&& c1.0 + ox < input.spec_width()
                &&& c1.1 + oy < input.spec_height()
                &&& c2.0 + ox < input.spec_width()
                &&& c2.1 + oy < input.spec_height()
            },
        decreases bit,
    {
        bit = bit - 1;
        proof {
            lemma_format_cells(v, bit as int);
            lemma_format_read_bound(*input, v, ox as int, oy as int, true, bit as int + 1);
            lemma_format_read_bound(*input, v, ox as int, oy as int, false, bit as int + 1);
            assert(vstd::arithmetic::power2::pow2((15 - (bit + 1)) as nat) <= 0x4000) by {
                vstd::arithmetic::power2::lemma2_to64();
                if bit > 0 {
                    vstd::arithmetic::power2::lemma_pow2_strictly_increases((15 - (bit + 1)) as nat, 14);
                }
            }
            lemma_shl1(output1);
            lemma_shl1(output2);
        }
        let coords = format_info_coords(version, bit);
        let ((x1, y1), (x2, y2)) = match coords {
            Some(c) => c,
            None => return None,
        };
        output1 = output1 << 1;
        let b1 = match input.get_bit(x1 + ox, y1 + oy) {
            Some(b) => b,
            None => {
                proof {
                    let k = bit as int;
                    assert(!format_in_range(*input, v, ox as int, oy as int)) by {
                        let (c1, c2) = spec_format_coords(v, k);
                        assert(!(c1.0 + ox < input.spec_width() && c1.1 + oy < input.spec_height()));
                    }
                }
                return None;
            },
        };
        output1 = output1 + if b1 { 1u16 } else { 0u16 };
        output2 = output2 << 1;
        let b2 = match input.get_bit(x2 + ox, y2 + oy) {
            Some(b) => b,
            None => {
                proof {
                    let k = bit as int;
                    assert(!format_in_range(*input, v, ox as int, oy as int)) by {
                        let (c1, c2) = spec_format_coords(v, k);
                        assert(!(c2.0 + ox < input.spec_width() && c2.1 + oy < input.spec_height()));
                    }
                }
                return None;
            },
        };
        output2 = output2 + if b2 { 1u16 } else { 0u16 };
    }
    if output1 != output2 {
        return None;
    }
    Some(output1 ^ FORMAT_MASK)
}

/// The error correction level and mask pattern that a format code (with its
/// mask removed) carries, if it is a codeword of the format code.
pub open spec fn spec_interpret_format(fcode: u16) -> Option<(u8, u8)> {
    if !spec_fcode_is_good(fcode) {
        None
    } else {
        Some((((fcode >> 13u16) & 0b11u16) as u8, ((fcode >> 10u16) & 0b111u16) as u8))
    }
}

/// Returns the error correction level bits and mask pattern of a format code.
pub fn interpret_format(fcode: u16) -> (r: Option<(u8, u8)>)
    ensures
        r == spec_interpret_format(fcode),
{
    if !qr_fcode_is_good(fcode) {
        return None;
    }
    let correction = (0b11 & (fcode >> 13)) as u8;
    let maskpat = (0b111 & (fcode >> 10)) as u8;
    proof {
        assert(0b11u16 & (fcode >> 13u16) == (fcode >> 13u16) & 0b11u16) by (bit_vector);
        assert(0b111u16 & (fcode >> 10u16) == (fcode >> 10u16) & 0b111u16) by (bit_vector);
    }
    Some((correction, maskpat))
}

/// The format code (without its mask) of an error correction level (its two
/// bits, 0 to 3) and a mask pattern (0 to 7).
pub open spec fn spec_data_to_fcode(correction_level: u8, mask_pattern: u8) -> Option<u16> {
    if correction_level > 3 || mask_pattern > 7 {
        None
    } else {
        Some(spec_generate_fcode(((correction_level << 3u8) | mask_pattern) as u8))
    }
}

/// The format code of an error correction level (0 to 3) and a masking
/// pattern (0 to 7).
pub fn data_to_fcode(correction_level: u8, mask_pattern: u8) -> (r: Option<u16>)
    ensures
        r == spec_data_to_fcode(correction_level, mask_pattern),
{
    if correction_level > 3 || mask_pattern > 7 {
        return None;
    }
    proof {
        assert(((correction_level << 3u8) | mask_pattern) < 32) by (bit_vector)
            requires correction_level <= 3, mask_pattern <= 7;
    }
    qr_generate_fcode((correction_level << 3) | mask_pattern)
}

/// Reading a format code back gives the level and mask it was made from.
pub proof fn lemma_format_roundtrip(correction_level: u8, mask_pattern: u8)
    requires
        correction_level <= 3,
        mask_pattern <= 7,
    ensures
        spec_data_to_fcode(correction_level, mask_pattern) matches Some(f)
            && spec_interpret_format(f) == Some((correction_level, mask_pattern))
            && f < 0x8000,
{
    let fmt = ((correction_level << 3u8) | mask_pattern) as u8;
    assert(fmt < 32 && (fmt >> 3u8) == correction_level && (fmt & 7u8) == mask_pattern) by (bit_vector)
        requires correction_level <= 3, mask_pattern <= 7, fmt == ((correction_level << 3u8) | mask_pattern) as u8;
    lemma_generated_fcode_is_good(fmt);
    let f = spec_generate_fcode(fmt);
    assert(f >> 10u16 == fmt as u16 ==> ((f >> 13u16) & 0b11u16) as u8 == (fmt >> 3u8)
        && ((f >> 10u16) & 0b111u16) as u8 == (fmt & 7u8) && f < 0x8000) by (bit_vector)
        requires fmt < 32;
}

/// The colour of each module after writing the format code `fcode`: the bit
/// of the masked code that the module holds, or its old colour.
pub open spec fn format_written(old: Bitmap, version: int, fcode: u16, a: nat, b: nat) -> bool {
    match format_cell(version, a as int, b as int) {
        Some(k) => ((fcode ^ FORMAT_MASK) >> (k as u16)) & 1u16 == 1u16,
        None => old.pixel(a, b),
    }
}

/// Writes the format code into both of its places.
pub fn set_fcode(input: &mut Bitmap, version: u32, fcode: u16)
    requires
        old(input).wf(),
        !spec_bad_version(version as int),
    ensures
        final(input).wf(),
        final(input).spec_width() == old(input).spec_width(),
        final(input).spec_height() == old(input).spec_height(),
        final(input).has_border() == old(input).has_border(),
        forall|a: nat, b: nat| a < final(input).spec_width() && b < final(input).spec_height() ==>
            #[trigger] final(input).pixel(a, b) == (if a <= max_index(version as int) && b <= max_index(version as int) {
                format_written(*old(input), version as int, fcode, a, b)
            } else {
                old(input).pixel(a, b)
            }),
{
    let ghost v = version as int;
    let ghost start = *input;
    let mut bit: u32 = 0;
    while bit <= 14
        invariant
            1 <= v <= 40,
            v == version,
            bit <= 15,
            input.wf(),
            input.spec_width() == start.spec_width(),
            input.spec_height() == start.spec_height(),
            input.has_border() == start.has_border(),
            forall|a: nat, b: nat| a < input.spec_width() && b < input.spec_height() ==>
                #[trigger] input.pixel(a, b) == (match format_cell(v, a as int, b as int) {
                    Some(k) => if k < bit { ((fcode ^ FORMAT_MASK) >> (k as u16)) & 1u16 == 1u16 } else { start.pixel(a, b) },
                    None => start.pixel(a, b),
                }),
        decreases 15 - bit,
    {
        proof { lemma_format_cells(v, bit as int); }
        let ((x1, y1), (x2, y2)) = match format_info_coords(version, bit) {
            Some(c) => c,
            None => return,
        };
        let value = (fcode ^ FORMAT_MASK) & (1u16 << bit as u16) != 0;
        proof {
            assert(((fcode ^ FORMAT_MASK) & (1u16 << bit as u16) != 0) == (((fcode ^ FORMAT_MASK) >> (bit as u16)) & 1u16 == 1u16))
                by (bit_vector) requires bit < 15;
        }
        let ghost mid0 = *input;
        input.set_bit(x1, y1, value);
        input.set_bit(x2, y2, value);
        proof {
            assert forall|a: nat, b: nat| a < input.spec_width() && b < input.spec_height() implies
                #[trigger] input.pixel(a, b) == (match format_cell(v, a as int, b as int) {
                    Some(k) => if k < bit + 1 { ((fcode ^ FORMAT_MASK) >> (k as u16)) & 1u16 == 1u16 } else { start.pixel(a, b) },
                    None => start.pixel(a, b),
                }) by {
                if format_cell(v, a as int, b as int) is Some {
                    lemma_format_cell_place(v, a as int, b as int);
                }
            }
        }
        bit = bit + 1;
    }
    proof {
        assert forall|a: nat, b: nat| a < input.spec_width() && b < input.spec_height() implies
            #[trigger] input.pixel(a, b) == (if a <= max_index(v) && b <= max_index(v) {
                format_written(start, v, fcode, a, b)
            } else {
                start.pixel(a, b)
            }) by {
            if format_cell(v, a as int, b as int) is Some {
                lemma_format_cell_place(v, a as int, b as int);
            }
        }
    }
}

proof fn lemma_format_read_written(bm: Bitmap, version: int, x: u16, first: bool, k: int)
    requires
        bm.wf(),
        1 <= version <= 40,
        bm.spec_width() > max_index(version),
        bm.spec_height() > max_index(version),
        x < 0x8000,
        0 <= k <= 15,
        forall|bit: int| 0 <= bit <= 14 ==> {
            let c = if first { (#[trigger] spec_format_coords(version, bit)).0 } else { spec_format_coords(version, bit).1 };
            bm.pixel(c.0 as nat, c.1 as nat) == ((x >> (bit as u16)) & 1u16 == 1u16)
        },
    ensures
        format_read(bm, version, 0, 0, first, k) == (x >> (k as u16)) as nat,
    decreases 15 - k,
{
    if k == 15 {
        assert(x >> 15u16 == 0) by (bit_vector) requires x < 0x8000;
    } else {
        lemma_format_read_written(bm, version, x, first, k + 1);
        let kk = k as u16;
        assert((x >> kk) == (x >> ((kk + 1) as u16)) * 2 + ((x >> kk) & 1u16)) by (bit_vector)
            requires kk < 15;
        let c = if first { spec_format_coords(version, k).0 } else { spec_format_coords(version, k).1 };
        assert(bm.pixel(c.0 as nat, c.1 as nat) == ((x >> kk) & 1u16 == 1u16));
        assert((x >> kk) & 1u16 == 1u16 || (x >> kk) & 1u16 == 0u16) by (bit_vector);
        assert(((kk + 1) as u16) as int == k + 1);
    }
}

/// Reading the format code back after writing it gives the code that was
/// written, whenever the bitmap is large enough for the version.
pub proof fn lemma_get_after_set_fcode(before: Bitmap, after: Bitmap, version: int, fcode: u16)
    requires
        before.wf(),
        after.wf(),
        1 <= version <= 40,
        after.spec_width() == before.spec_width(),
        after.spec_height() == before.spec_height(),
        before.spec_width() > max_index(version),
        before.spec_height() > max_index(version),
        fcode < 0x8000,
        forall|a: nat, b: nat| a < after.spec_width() && b < after.spec_height() ==>
            #[trigger] after.pixel(a, b) == (if a <= max_index(version) && b <= max_index(version) {
                format_written(before, version, fcode, a, b)
            } else {
                before.pixel(a, b)
            }),
    ensures
        spec_get_fcode(after, version, 0, 0) == Some(fcode),
{
    let x = fcode ^ FORMAT_MASK;
    assert(x < 0x8000) by (bit_vector) requires fcode < 0x8000, x == fcode ^ 0x5412u16;
    assert forall|bit: int| 0 <= bit <= 14 implies {
        let (c1, c2) = #[trigger] spec_format_coords(version, bit);
        &&& c1.0 + 0 < after.spec_width()
        &&& c1.1 + 0 < after.spec_height()
        &&& c2.0 + 0 < after.spec_width()
        &&& c2.1 + 0 < after.spec_height()
    } by {
        lemma_format_cells(version, bit);
    }
    assert forall|bit: int| 0 <= bit <= 14 implies {
        let c = (#[trigger] spec_format_coords(version, bit)).0;
        after.pixel(c.0 as nat, c.1 as nat) == ((x >> (bit as u16)) & 1u16 == 1u16)
    } by {
        lemma_format_cells(version, bit);
    }
    assert forall|bit: int| 0 <= bit <= 14 implies {
        let c = if false { (#[trigger] spec_format_coords(version, bit)).0 } else { spec_format_coords(version, bit).1 };
        after.pixel(c.0 as nat, c.1 as nat) == ((x >> (bit as u16)) & 1u16 == 1u16)
    } by {
        lemma_format_cells(version, bit);
    }
    lemma_format_read_written(after, version, x, true, 0);
    lemma_format_read_written(after, version, x, false, 0);
    assert(x >> 0u16 == x) by (bit_vector);
    assert((x ^ FORMAT_MASK) == fcode) by (bit_vector) requires x == fcode ^ 0x5412u16;
}

/// The 18-bit version information of a version (7 and up): the version in
/// the top six bits, then the remainder of its (18, 6) BCH code with the
/// generator 0x1F25.
pub open spec fn spec_generate_vcode(version: u32) -> u32 {
    ((version << 12u32) | spec_carryless_divide(version << 12u32, 0x1F25)) as u32
}

/// The version information code: the version followed by its BCH
/// remainder.
pub fn qr_generate_vcode(version: u32) -> (r: u32)
    ensures
        r == spec_generate_vcode(version),
{
    (version << 12) | carryless_divide(version << 12, 0x1F25)
}

/// The two places of bit `bit` (0 to 17) of the version information of a
/// symbol of the given version: below the top right finder pattern and its
/// mirror image, right of the bottom left one.
pub open spec fn spec_version_coords(version: int, bit: int) -> ((int, int), (int, int)) {
    let short = bit % 3 + max_index(version) - 10;
    let long = bit / 3;
    ((short, long), (long, short))
}

/// Which bit of the version information module `(a, b)` holds, if any.
pub open spec fn version_cell(version: int, a: int, b: int) -> Option<int> {
    let base = max_index(version) - 10;
    if base <= a <= base + 2 && 0 <= b <= 5 {
        Some((a - base) + 3 * b)
    } else if base <= b <= base + 2 && 0 <= a <= 5 {
        Some((b - base) + 3 * a)
    } else {
        None
    }
}

proof fn lemma_version_cells(version: int, bit: int)
    requires
        7 <= version <= 40,
        0 <= bit <= 17,
    ensures
        version_cell(version, spec_version_coords(version, bit).0.0, spec_version_coords(version, bit).0.1) == Some(bit),
        version_cell(version, spec_version_coords(version, bit).1.0, spec_version_coords(version, bit).1.1) == Some(bit),
{
}

proof fn lemma_version_cell_place(version: int, a: int, b: int)
    requires
        7 <= version <= 40,
        version_cell(version, a, b) is Some,
    ensures
        0 <= version_cell(version, a, b)->0 <= 17,
        spec_version_coords(version, version_cell(version, a, b)->0).0 == (a, b)
            || spec_version_coords(version, version_cell(version, a, b)->0).1 == (a, b),
{
}

fn version_info_coords(version: u32, bit: u32) -> (r: Option<((usize, usize), (usize, usize))>)
    ensures
        spec_bad_version(version as int) || version < 7 || bit > 17 ==> r is None,
        !(spec_bad_version(version as int) || version < 7 || bit > 17) ==> (r matches Some((c1, c2))
            && spec_version_coords(version as int, bit as int)
            == ((c1.0 as int, c1.1 as int), (c2.0 as int, c2.1 as int))),
{
    if bad_version(version) || version < 7 || bit > 17 {
        return None;
    }
    let max = version_to_max_index(version);
    let bit = bit as usize;
    let short = bit % 3 + max - 10;
    let long = bit / 3;
    Some(((short, long), (long, short)))
}

/// The colour of each module after writing the version information `vcode`:
/// the bit that the module holds, or its old colour.
pub open spec fn version_written(old: Bitmap, version: int, vcode: u32, a: nat, b: nat) -> bool {
    match version_cell(version, a as int, b as int) {
        Some(k) => (vcode >> (k as u32)) & 1u32 == 1u32,
        None => old.pixel(a, b),
    }
}

/// Writes the version information code into both of its places.
pub fn set_vcode(input: &mut Bitmap, version: u32, vcode: u32)
    requires
        old(input).wf(),
        7 <= version <= 40,
    ensures
        final(input).wf(),
        final(input).spec_width() == old(input).spec_width(),
        final(input).spec_height() == old(input).spec_height(),
        final(input).has_border() == old(input).has_border(),
        forall|a: nat, b: nat| a < final(input).spec_width() && b < final(input).spec_height() ==>
            #[trigger] final(input).pixel(a, b) == version_written(*old(input), version as int, vcode, a, b),
{
    let ghost v = version as int;
    let ghost start = *input;
    let mut bit: u32 = 0;
    while bit <= 17
        invariant
            7 <= v <= 40,
            v == version,
            bit <= 18,
            input.wf(),
            input.spec_width() == start.spec_width(),
            input.spec_height() == start.spec_height(),
            input.has_border() == start.has_border(),
            forall|a: nat, b: nat| a < input.spec_width() && b < input.spec_height() ==>
                #[trigger] input.pixel(a, b) == (match version_cell(v, a as int, b as int) {
                    Some(k) => if k < bit { (vcode >> (k as u32)) & 1u32 == 1u32 } else { start.pixel(a, b) },
                    None => start.pixel(a, b),
                }),
        decreases 18 - bit,
    {
        proof { lemma_version_cells(v, bit as int); }
        let ((x1, y1), (x2, y2)) = match version_info_coords(version, bit) {
            Some(c) => c,
            None => return,
        };
        let value = vcode & (1u32 << bit) != 0;
        proof {
            assert((vcode & (1u32 << bit) != 0) == ((vcode >> bit) & 1u32 == 1u32)) by (bit_vector)
                requires bit < 18;
        }
        input.set_bit(x1, y1, value);
        input.set_bit(x2, y2, value);
        proof {
            assert forall|a: nat, b: nat| a < input.spec_width() && b < input.spec_height() implies
                #[trigger] input.pixel(a, b) == (match version_cell(v, a as int, b as int) {
                    Some(k) => if k < bit + 1 { (vcode >> (k as u32)) & 1u32 == 1u32 } else { start.pixel(a, b) },
                    None => start.pixel(a, b),
                }) by {
                if version_cell(v, a as int, b as int) is Some {
                    lemma_version_cell_place(v, a as int, b as int);
                }
            }
        }
        bit = bit + 1;
    }
}

/// Whether the alignment pattern centred on `(x, y)` is drawn: the three
/// centres that would overlap the finder patterns are left out.
pub open spec fn ap_pair_kept(c: Seq<usize>, x: usize, y: usize) -> bool {
    !((x == 6 || y == 6) && (x == y || x == c.last() || y == c.last()))
}

/// The pairs `(x, c[j])` kept, for the first `j` centres `c[j]`.
pub open spec fn ap_row(c: Seq<usize>, x: usize, j: int) -> Seq<(usize, usize)>
    decreases j,
{
    if j <= 0 {
        Seq::empty()
    } else {
        ap_row(c, x, j - 1) + (if ap_pair_kept(c, x, c[j - 1]) { seq![(x, c[j - 1])] } else { Seq::empty() })
    }
}

/// The pairs kept with the first `i` centres as x coordinate, row by row.
pub open spec fn ap_rows(c: Seq<usize>, i: int) -> Seq<(usize, usize)>
    decreases i,
{
    if i <= 0 {
        Seq::empty()
    } else {
        ap_rows(c, i - 1) + ap_row(c, c[i - 1], c.len() as int)
    }
}

/// The centres of the alignment patterns of a version: every pair of the
/// version's centres, x first, except the three that the finder patterns
/// take.
pub open spec fn spec_alignment_pairs(version: int) -> Seq<(usize, usize)> {
    ap_rows(ap_centers(version), ap_centers(version).len() as int)
}

proof fn lemma_ap_row_from(c: Seq<usize>, x: usize, j: int)
    requires
        0 <= j <= c.len(),
    ensures
        forall|k: int| 0 <= k < ap_row(c, x, j).len() ==> #[trigger] ap_row(c, x, j)[k].0 == x
            && c.contains(ap_row(c, x, j)[k].1),
    decreases j,
{
    if j > 0 {
        lemma_ap_row_from(c, x, j - 1);
        let prev = ap_row(c, x, j - 1);
        assert forall|k: int| 0 <= k < ap_row(c, x, j).len() implies #[trigger] ap_row(c, x, j)[k].0 == x
            && c.contains(ap_row(c, x, j)[k].1) by {
            if k >= prev.len() {
                assert(ap_row(c, x, j)[k] == (x, c[j - 1]));
            } else {
                assert(ap_row(c, x, j)[k] == prev[k]);
            }
        }
    }
}

#[verifier::spinoff_prover]
proof fn lemma_ap_rows_from(c: Seq<usize>, i: int)
    requires
        0 <= i <= c.len(),
    ensures
        forall|k: int| 0 <= k < ap_rows(c, i).len() ==> c.contains(#[trigger] ap_rows(c, i)[k].0)
            && c.contains(ap_rows(c, i)[k].1),
    decreases i,
{
    if i > 0 {
        lemma_ap_rows_from(c, i - 1);
        lemma_ap_row_from(c, c[i - 1], c.len() as int);
        let prev = ap_rows(c, i - 1);
        let row = ap_row(c, c[i - 1], c.len() as int);
        assert forall|k: int| 0 <= k < ap_rows(c, i).len() implies c.contains(#[trigger] ap_rows(c, i)[k].0)
            && c.contains(ap_rows(c, i)[k].1) by {
            if k >= prev.len() {
                assert(ap_rows(c, i)[k] == row[k - prev.len()]);
                assert(row[k - prev.len()].0 == c[i - 1]);
            } else {
                assert(ap_rows(c, i)[k] == prev[k]);
            }
        }
    }
}

/// Every alignment pattern centre lies at least 6 modules from each edge.
pub proof fn lemma_alignment_pairs(version: int)
    requires
        1 <= version <= 40,
    ensures
        forall|k: int| 0 <= k < spec_alignment_pairs(version).len() ==>
            6 <= (#[trigger] spec_alignment_pairs(version)[k]).0 <= 10 + 4 * version
            && 6 <= spec_alignment_pairs(version)[k].1 <= 10 + 4 * version,
{
    let c = ap_centers(version);
    lemma_ap_centers(version);
    lemma_ap_rows_from(c, c.len() as int);
    assert forall|k: int| 0 <= k < spec_alignment_pairs(version).len() implies
        6 <= (#[trigger] spec_alignment_pairs(version)[k]).0 <= 10 + 4 * version
        && 6 <= spec_alignment_pairs(version)[k].1 <= 10 + 4 * version by {
        let p = spec_alignment_pairs(version)[k];
        assert(p == ap_rows(c, c.len() as int)[k]);
        assert(c.contains(ap_rows(c, c.len() as int)[k].0));
        assert(c.contains(p.0) && c.contains(p.1));
        let a = choose|a: int| 0 <= a < c.len() && c[a] == p.0;
        let b = choose|b: int| 0 <= b < c.len() && c[b] == p.1;
        assert(6 <= c[a] <= 10 + 4 * version);
        assert(6 <= c[b] <= 10 + 4 * version);
    }
}

/// The centre pairs `(c[i], c[j])` of a version's centres `c` that the
/// finder patterns do not take: all but (first, first), (first, last) and
/// (last, first).
pub open spec fn ap_index_pair(c: Seq<usize>, i: int, j: int) -> bool {
    &&& 0 <= i < c.len()
    &&& 0 <= j < c.len()
    &&& !(i == 0 && j == 0)
    &&& !(i == 0 && j == c.len() - 1)
    &&& !(i == c.len() - 1 && j == 0)
}

proof fn lemma_ap_row_has(c: Seq<usize>, x: usize, j: int, jj: int)
    requires
        0 <= jj < j <= c.len(),
        ap_pair_kept(c, x, c[jj]),
    ensures
        ap_row(c, x, j).contains((x, c[jj])),
    decreases j,
{
    if jj < j - 1 {
        lemma_ap_row_has(c, x, j - 1, jj);
        let k = choose|k: int| 0 <= k < ap_row(c, x, j - 1).len() && #[trigger] ap_row(c, x, j - 1)[k] == (x, c[jj]);
        assert(ap_row(c, x, j)[k] == (x, c[jj]));
    } else {
        assert(ap_row(c, x, j)[ap_row(c, x, j - 1).len() as int] == (x, c[jj]));
    }
}

proof fn lemma_ap_rows_has(c: Seq<usize>, i: int, ii: int, jj: int)
    requires
        0 <= ii < i <= c.len(),
        0 <= jj < c.len(),
        ap_pair_kept(c, c[ii], c[jj]),
    ensures
        ap_rows(c, i).contains((c[ii], c[jj])),
    decreases i,
{
    if ii < i - 1 {
        lemma_ap_rows_has(c, i - 1, ii, jj);
        let k = choose|k: int| 0 <= k < ap_rows(c, i - 1).len() && #[trigger] ap_rows(c, i - 1)[k] == (c[ii], c[jj]);
        assert(ap_rows(c, i)[k] == (c[ii], c[jj]));
    } else {
        lemma_ap_row_has(c, c[ii], c.len() as int, jj);
        let row = ap_row(c, c[ii], c.len() as int);
        let k = choose|k: int| 0 <= k < row.len() && #[trigger] row[k] == (c[ii], c[jj]);
        assert(ap_rows(c, i)[ap_rows(c, i - 1).len() + k] == (c[ii], c[jj]));
    }
}

proof fn lemma_ap_row_kept(c: Seq<usize>, x: usize, j: int)
    requires
        0 <= j <= c.len(),
    ensures
        forall|k: int| 0 <= k < ap_row(c, x, j).len() ==> #[trigger] ap_row(c, x, j)[k] == ap_row(c, x, j)[k] &&
            exists|jj: int| #![trigger c[jj]] 0 <= jj < c.len() && ap_row(c, x, j)[k] == (x, c[jj]) && ap_pair_kept(c, x, c[jj]),
    decreases j,
{
    if j > 0 {
        lemma_ap_row_kept(c, x, j - 1);
        let prev = ap_row(c, x, j - 1);
        assert forall|k: int| 0 <= k < ap_row(c, x, j).len() implies #[trigger] ap_row(c, x, j)[k] == ap_row(c, x, j)[k] &&
            exists|jj: int| #![trigger c[jj]] 0 <= jj < c.len() && ap_row(c, x, j)[k] == (x, c[jj]) && ap_pair_kept(c, x, c[jj]) by {
            if k >= prev.len() {
                assert(ap_row(c, x, j)[k] == (x, c[j - 1]));
            } else {
                assert(ap_row(c, x, j)[k] == prev[k]);
            }
        }
    }
}

proof fn lemma_ap_rows_kept(c: Seq<usize>, i: int)
    requires
        0 <= i <= c.len(),
    ensures
        forall|k: int| 0 <= k < ap_rows(c, i).len() ==>
            #[trigger] ap_rows(c, i)[k] == ap_rows(c, i)[k] &&
            exists|ii: int, jj: int| #![trigger c[ii], c[jj]] 0 <= ii < c.len() && 0 <= jj < c.len()
                && ap_rows(c, i)[k] == (c[ii], c[jj]) && ap_pair_kept(c, c[ii], c[jj]),
    decreases i,
{
    if i > 0 {
        lemma_ap_rows_kept(c, i - 1);
        lemma_ap_row_kept(c, c[i - 1], c.len() as int);
        let prev = ap_rows(c, i - 1);
        let row = ap_row(c, c[i - 1], c.len() as int);
        assert forall|k: int| 0 <= k < ap_rows(c, i).len() implies
            #[trigger] ap_rows(c, i)[k] == ap_rows(c, i)[k] &&
            exists|ii: int, jj: int| #![trigger c[ii], c[jj]] 0 <= ii < c.len() && 0 <= jj < c.len()
                && ap_rows(c, i)[k] == (c[ii], c[jj]) && ap_pair_kept(c, c[ii], c[jj]) by {
            if k >= prev.len() {
                assert(ap_rows(c, i)[k] == row[k - prev.len()]);
                assert(row[k - prev.len()] == row[k - prev.len()]);
                let jj = choose|jj: int| #![trigger c[jj]] 0 <= jj < c.len() && row[k - prev.len()] == (c[i - 1], c[jj])
                    && ap_pair_kept(c, c[i - 1], c[jj]);
                assert(ap_rows(c, i)[k] == (c[i - 1], c[jj]));
                assert(c[i - 1] == c[i - 1]);
            } else {
                assert(ap_rows(c, i)[k] == prev[k]);
                assert(prev[k] == prev[k]);
                let (ii, jj) = choose|ii: int, jj: int| #![trigger c[ii], c[jj]] 0 <= ii < c.len() && 0 <= jj < c.len()
                    && prev[k] == (c[ii], c[jj]) && ap_pair_kept(c, c[ii], c[jj]);
                assert(c[ii] == c[ii] && c[jj] == c[jj]);
            }
        }
    }
}

/// A pair of a version's centres is kept exactly when it is not one of the
/// three that the finder patterns take.
proof fn lemma_kept_iff_index_pair(version: int, i: int, j: int)
    requires
        1 <= version <= 40,
        0 <= i < ap_centers(version).len(),
        0 <= j < ap_centers(version).len(),
    ensures
        ap_pair_kept(ap_centers(version), ap_centers(version)[i], ap_centers(version)[j])
            <==> ap_index_pair(ap_centers(version), i, j),
{
    let c = ap_centers(version);
    lemma_ap_centers(version);
    lemma_ap_centers_increase(version);
    let n = c.len() as int;
    assert(c[i] == 6 <==> i == 0) by {
        if i > 0 { assert(c[0] < c[i]); }
    }
    assert(c[j] == 6 <==> j == 0) by {
        if j > 0 { assert(c[0] < c[j]); }
    }
    assert(c[i] == c.last() <==> i == n - 1) by {
        if i < n - 1 { assert(c[i] < c[n - 1]); }
    }
    assert(c[j] == c.last() <==> j == n - 1) by {
        if j < n - 1 { assert(c[j] < c[n - 1]); }
    }
    assert(c[i] == c[j] <==> i == j) by {
        if i < j { assert(c[i] < c[j]); }
        if j < i { assert(c[j] < c[i]); }
    }
}

/// `p` is `(c[i], c[j])` for a pair of centres that the finder patterns do
/// not take.
pub open spec fn is_centre_pair(c: Seq<usize>, p: (usize, usize)) -> bool {
    exists|i: int, j: int| #![trigger c[i], c[j]] ap_index_pair(c, i, j) && p == (c[i], c[j])
}

/// The alignment patterns of a blank symbol are centred on the pairs of the
/// version's centres that the finder patterns do not take, and only there:
/// every such pair has its pattern (centre and ring) drawn dark, and every
/// pattern drawn is centred on such a pair.
pub proof fn lemma_alignment_patterns_drawn(version: int)
    requires
        1 <= version <= 40,
    ensures
        forall|i: int, j: int, a: int, b: int| ap_index_pair(ap_centers(version), i, j)
            && #[trigger] near_alignment((ap_centers(version)[i], ap_centers(version)[j]), a, b)
            ==> blank_drawn(version, a, b)
                && (version_cell(version, a, b) is None ==> blank_pixel(version, a, b)),
        forall|k: int| 0 <= k < spec_alignment_pairs(version).len() ==>
            is_centre_pair(ap_centers(version), #[trigger] spec_alignment_pairs(version)[k]),
{
    let c = ap_centers(version);
    let pairs = spec_alignment_pairs(version);
    assert forall|i: int, j: int, a: int, b: int| ap_index_pair(c, i, j)
        && #[trigger] near_alignment((c[i], c[j]), a, b)
        implies blank_drawn(version, a, b) && (version_cell(version, a, b) is None ==> blank_pixel(version, a, b)) by {
        lemma_kept_iff_index_pair(version, i, j);
        lemma_ap_rows_has(c, c.len() as int, i, j);
        let k = choose|k: int| 0 <= k < pairs.len() && #[trigger] pairs[k] == (c[i], c[j]);
        assert(near_alignment(pairs[k], a, b));
    }
    lemma_ap_rows_kept(c, c.len() as int);
    assert forall|k: int| 0 <= k < pairs.len() implies is_centre_pair(c, #[trigger] pairs[k]) by {
        assert(ap_rows(c, c.len() as int)[k] == ap_rows(c, c.len() as int)[k]);
        let (i, j) = choose|ii: int, jj: int| #![trigger c[ii], c[jj]] 0 <= ii < c.len() && 0 <= jj < c.len()
            && ap_rows(c, c.len() as int)[k] == (c[ii], c[jj]) && ap_pair_kept(c, c[ii], c[jj]);
        lemma_kept_iff_index_pair(version, i, j);
        assert(c[i] == c[i] && c[j] == c[j]);
    }
}

/// The centres of the alignment patterns of a version.
pub fn alignment_pattern_coords(version: u32) -> (r: Vec<(usize, usize)>)
    requires
        1 <= version <= 40,
    ensures
        r@ == spec_alignment_pairs(version as int),
{
    let indices = ap_coord_indices(version);
    let ghost c = indices@;
    let mut output: Vec<(usize, usize)> = Vec::new();
    let mut i: usize = 0;
    proof { lemma_ap_centers(version as int); }
    while i < indices.len()
        invariant
            c == indices@,
            i <= c.len(),
            output@ == ap_rows(c, i as int),
        decreases c.len() - i,
    {
        let x = indices[i];
        let mut j: usize = 0;
        while j < indices.len()
            invariant
                c == indices@,
                i < c.len(),
                j <= c.len(),
                x == c[i as int],
                output@ == ap_rows(c, i as int) + ap_row(c, x, j as int),
            decreases c.len() - j,
        {
            let y = indices[j];
            let last = indices[indices.len() - 1];
            if (x == 6 || y == 6) && (x == y || x == last || y == last) {
                assert(ap_row(c, x, j + 1) =~= ap_row(c, x, j as int));
            } else {
                output.push((x, y));
                assert(ap_row(c, x, j + 1) =~= ap_row(c, x, j as int).push((x, y)));
            }
            j = j + 1;
        }
        assert(ap_rows(c, i + 1) =~= ap_rows(c, i as int) + ap_row(c, x, c.len() as int));
        i = i + 1;
    }
    output
}

/// Whether `(a, b)` belongs to the alignment pattern centred on `c`: the
/// centre, or the ring two modules away from it.
pub open spec fn near_alignment(c: (usize, usize), a: int, b: int) -> bool {
    let dx = abs_diff(a, c.0 as int);
    let dy = abs_diff(b, c.1 as int);
    (dx == 0 && dy == 0) || (dx <= 2 && dy <= 2 && (dx == 2 || dy == 2))
}

/// Whether a module of a finder pattern, at `(p, q)` from its corner (both
/// 0 to 6), is dark: all but the ring between the outer square and the
/// centre.
pub open spec fn finder_dark(p: int, q: int) -> bool {
    !((abs_diff(p, 3) == 2 && abs_diff(q, 3) != 3) || (abs_diff(q, 3) == 2 && abs_diff(p, 3) != 3))
}

/// The dark modules drawn before the version information on a blank symbol:
/// alignment patterns, timing patterns, the three finder patterns, and the
/// module that is always dark.
pub open spec fn blank_drawn(version: int, a: int, b: int) -> bool {
    let max = max_index(version);
    let pairs = spec_alignment_pairs(version);
    ||| exists|k: int| 0 <= k < pairs.len() && near_alignment(#[trigger] pairs[k], a, b)
    ||| (b == 6 && 8 <= a <= max - 8 && a % 2 == 0)
    ||| (a == 6 && 8 <= b <= max - 8 && b % 2 == 0)
    ||| (0 <= a <= 6 && 0 <= b <= 6 && finder_dark(a, b))
    ||| (0 <= a <= 6 && max - 6 <= b <= max && finder_dark(max - b, a))
    ||| (max - 6 <= a <= max && 0 <= b <= 6 && finder_dark(b, max - a))
    ||| (a == 8 && b == max - 7)
}

/// The colour of module `(a, b)` of a blank symbol of the given version:
/// the version information where there is one, otherwise the patterns.
pub open spec fn blank_pixel(version: int, a: int, b: int) -> bool {
    if version >= 7 && version_cell(version, a, b) is Some {
        (spec_generate_vcode(version as u32) >> (version_cell(version, a, b)->0 as u32)) & 1u32 == 1u32
    } else {
        blank_drawn(version, a, b)
    }
}

/// Sets module `(x, y)` dark.
fn set_dark(output: &mut Bitmap, x: usize, y: usize)
    requires
        old(output).wf(),
    ensures
        final(output).wf(),
        final(output).spec_width() == old(output).spec_width(),
        final(output).spec_height() == old(output).spec_height(),
        final(output).has_border() == old(output).has_border(),
        forall|a: nat, b: nat| a < final(output).spec_width() && b < final(output).spec_height() ==>
            #[trigger] final(output).pixel(a, b) == (old(output).pixel(a, b) || (a == x && b == y)),
{
    output.set_bit(x, y, true);
}

/// Draws the alignment pattern centred on `(x, y)`.
fn draw_alignment(output: &mut Bitmap, x: usize, y: usize)
    requires
        old(output).wf(),
        2 <= x,
        2 <= y,
        x + 2 < old(output).spec_width(),
        y + 2 < old(output).spec_height(),
    ensures
        final(output).wf(),
        final(output).spec_width() == old(output).spec_width(),
        final(output).spec_height() == old(output).spec_height(),
        final(output).has_border() == old(output).has_border(),
        forall|a: nat, b: nat| a < final(output).spec_width() && b < final(output).spec_height() ==>
            #[trigger] final(output).pixel(a, b) == (old(output).pixel(a, b) || near_alignment((x, y), a as int, b as int)),
{
    let ghost start = *output;
    set_dark(output, x, y);
    let mut i: usize = 0;
    while i <= 3
        invariant
            i <= 4,
            2 <= x,
            2 <= y,
            x + 2 < output.spec_width(),
            y + 2 < output.spec_height(),
            output.wf(),
            output.spec_width() == start.spec_width(),
            output.spec_height() == start.spec_height(),
            output.has_border() == start.has_border(),
            forall|a: nat, b: nat| a < output.spec_width() && b < output.spec_height() ==>
                #[trigger] output.pixel(a, b) == (start.pixel(a, b) || (a == x && b == y)
                    || (b == y - 2 && x - 1 <= a < x - 1 + i)
                    || (a == x + 2 && y - 1 <= b < y - 1 + i)
                    || (b == y + 2 && x + 1 - i < a <= x + 1)
                    || (a == x - 2 && y + 1 - i < b <= y + 1)),
        decreases 4 - i,
    {
        // each side of the ring, clockwise
        set_dark(output, (x - 1) + i, y - 2);
        set_dark(output, x + 2, (y - 1) + i);
        set_dark(output, (x + 1) - i, y + 2);
        set_dark(output, x - 2, (y + 1) - i);
        i = i + 1;
    }
}

pub(crate) fn new_blank_qr_code(version: u32) -> (r: Bitmap)
    requires
        1 <= version <= 40,
    ensures
        r.wf(),
        r.spec_width() == max_index(version as int) + 1,
        r.spec_height() == max_index(version as int) + 1,
        !r.has_border(),
        forall|a: nat, b: nat| a <= max_index(version as int) && b <= max_index(version as int) ==>
            #[trigger] r.pixel(a, b) == blank_pixel(version as int, a as int, b as int),
{
    let ghost v = version as int;
    let max = version_to_max_index(version);
    proof {
        assert((max + 1) * row_bytes((max + 1) as nat) <= 177 * 23) by (nonlinear_arith)
            requires max <= 176, row_bytes((max + 1) as nat) <= 23;
    }
    let mut output = Bitmap::new(max + 1, max + 1);
    let ghost pairs = spec_alignment_pairs(v);
    // draw alignment patterns
    let alignment_coords = alignment_pattern_coords(version);
    proof { lemma_alignment_pairs(v); }
    let mut k: usize = 0;
    while k < alignment_coords.len()
        invariant
            alignment_coords@ == pairs,
            pairs == spec_alignment_pairs(v),
            v == version,
            1 <= v <= 40,
            max == max_index(v),
            k <= pairs.len(),
            output.wf(),
            output.spec_width() == max + 1,
            output.spec_height() == max + 1,
            !output.has_border(),
            forall|j: int| 0 <= j < pairs.len() ==>
                6 <= (#[trigger] pairs[j]).0 <= 10 + 4 * v && 6 <= pairs[j].1 <= 10 + 4 * v,
            forall|a: nat, b: nat| a <= max && b <= max ==>
                #[trigger] output.pixel(a, b) == exists|j: int| 0 <= j < k && near_alignment(#[trigger] pairs[j], a as int, b as int),
        decreases pairs.len() - k,
    {
        let (x, y) = alignment_coords[k];
        assert(pairs[k as int] == (x, y));
        draw_alignment(&mut output, x, y);
        proof {
            assert forall|a: nat, b: nat| a <= max && b <= max implies
                #[trigger] output.pixel(a, b) == exists|j: int| 0 <= j < k + 1 && near_alignment(#[trigger] pairs[j], a as int, b as int) by {
                if near_alignment(pairs[k as int], a as int, b as int) {
                    assert(0 <= k < k + 1);
                }
            }
        }
        k = k + 1;
    }
    // draw timing patterns
    let mut i: usize = 8;
    while i <= max - 8
        invariant
            8 <= i <= max - 7,
            v == version,
            1 <= v <= 40,
            max == max_index(v),
            output.wf(),
            output.spec_width() == max + 1,
            output.spec_height() == max + 1,
            !output.has_border(),
            forall|a: nat, b: nat| a <= max && b <= max ==>
                #[trigger] output.pixel(a, b) == ((exists|j: int| 0 <= j < pairs.len() && near_alignment(#[trigger] pairs[j], a as int, b as int))
                    || (b == 6 && 8 <= a < i && a % 2 == 0) || (a == 6 && 8 <= b < i && b % 2 == 0)),
        decreases max - i,
    {
        if i % 2 == 0 {
            set_dark(&mut output, i, 6);
            set_dark(&mut output, 6, i);
        }
        i = i + 1;
    }
    // draw finder (position) patterns
    let mut x: usize = 0;
    while x <= 6
        invariant
            x <= 7,
            v == version,
            1 <= v <= 40,
            max == max_index(v),
            output.wf(),
            output.spec_width() == max + 1,
            output.spec_height() == max + 1,
            !output.has_border(),
            forall|a: nat, b: nat| a <= max && b <= max ==>
                #[trigger] output.pixel(a, b) == ((exists|j: int| 0 <= j < pairs.len() && near_alignment(#[trigger] pairs[j], a as int, b as int))
                    || (b == 6 && 8 <= a <= max - 8 && a % 2 == 0) || (a == 6 && 8 <= b <= max - 8 && b % 2 == 0)
                    || (a < x && b <= 6 && finder_dark(a as int, b as int))
                    || (b < x && max - 6 <= a && finder_dark(b as int, max - a))
                    || (a <= 6 && max - b < x && finder_dark(max - b, a as int))),
        decreases 7 - x,
    {
        let mut y: usize = 0;
        while y <= 6
            invariant
                x <= 6,
                y <= 7,
                v == version,
                1 <= v <= 40,
                max == max_index(v),
                output.wf(),
                output.spec_width() == max + 1,
                output.spec_height() == max + 1,
                !output.has_border(),
                forall|a: nat, b: nat| a <= max && b <= max ==>
                    #[trigger] output.pixel(a, b) == ((exists|j: int| 0 <= j < pairs.len() && near_alignment(#[trigger] pairs[j], a as int, b as int))
                        || (b == 6 && 8 <= a <= max - 8 && a % 2 == 0) || (a == 6 && 8 <= b <= max - 8 && b % 2 == 0)
                        || ((a < x || (a == x && b < y)) && b <= 6 && finder_dark(a as int, b as int))
                        || ((b < x || (b == x && max - a < y)) && max - 6 <= a && finder_dark(b as int, max - a))
                        || (a <= 6 && (max - b < x || (max - b == x && a < y)) && finder_dark(max - b, a as int))),
            decreases 7 - y,
        {
            if (abs_diff_usize(x, 3) == 2 && abs_diff_usize(y, 3) != 3)
                || (abs_diff_usize(y, 3) == 2 && abs_diff_usize(x, 3) != 3) {
                // the light ring around the centre of the pattern
                y = y + 1;
                continue;
            }
            set_dark(&mut output, x, y);
            set_dark(&mut output, y, max - x);
            set_dark(&mut output, max - y, x);
            y = y + 1;
        }
        x = x + 1;
    }
    // draw the module that is always dark
    set_dark(&mut output, 8, max - 7);
    proof {
        assert forall|a: nat, b: nat| a <= max && b <= max implies
            #[trigger] output.pixel(a, b) == blank_drawn(v, a as int, b as int) by {
        }
    }
    // draw version information
    if version >= 7 {
        let vcode = qr_generate_vcode(version);
        set_vcode(&mut output, version, vcode);
    }
    output
}

/// The value of a QR masking pattern (0 to 7) at `(x, y)`; the pattern
/// flips the modules where it is zero.
pub open spec fn mask_formula(mask: int, x: int, y: int) -> int {
    if mask == 0 {
        (x + y) % 2
    } else if mask == 1 {
        y % 2
    } else if mask == 2 {
        x % 3
    } else if mask == 3 {
        (x + y) % 3
    } else if mask == 4 {
        (x / 3 + y / 2) % 2
    } else if mask == 5 {
        (x * y) % 2 + (x * y) % 3
    } else if mask == 6 {
        ((x * y) % 3 + x * y) % 2
    } else {
        ((x * y) % 3 + x + y) % 2
    }
}

/// The version of a square bitmap whose width is a QR symbol width.
pub open spec fn bitmap_version(w: nat, h: nat) -> Option<int> {
    if w != h {
        None
    } else {
        spec_size_to_version(w as int)
    }
}

/// Whether masking pattern `mask` flips module `(x, y)` of a `w` by `h`
/// bitmap: the pattern is zero there, and the module is a data module (or
/// the bitmap is not a QR symbol, whose every module is masked).
pub open spec fn mask_flips(mask: int, w: nat, h: nat, x: int, y: int) -> bool {
    &&& match bitmap_version(w, h) {
        None => true,
        Some(v) => spec_coord_is_data(x, y, v),
    }
    &&& mask_formula(mask, x, y) == 0
}

/// Whether bit `j` of byte `n` of a `w` by `h` bitmap is flipped by the
/// masking pattern.
pub open spec fn mask_byte_bit(mask: int, w: nat, h: nat, n: nat, j: nat) -> bool {
    match spec_index_to_xy(n, j, w, h) {
        Some((x, y)) => mask_flips(mask, w, h, x as int, y as int),
        None => false,
    }
}

pub(crate) proof fn lemma_shift_in(m: u8, b: bool, t: u8)
    requires
        t < 8,
    ensures
        byte_bit(((m << 1u8) | (if b { 1u8 } else { 0u8 })) as u8, 0) == b,
        t < 7 ==> byte_bit(((m << 1u8) | (if b { 1u8 } else { 0u8 })) as u8, t as int + 1) == byte_bit(m, t as int),
{
    let c: u8 = if b { 1u8 } else { 0u8 };
    assert((((m << 1u8) | c) >> 0u8) & 1u8 == c) by (bit_vector) requires c <= 1;
    assert(t < 7 ==> (((m << 1u8) | c) >> ((t + 1) as u8)) & 1u8 == (m >> t) & 1u8) by (bit_vector)
        requires c <= 1, t < 8;
}

pub(crate) proof fn lemma_xor_bit(a: u8, m: u8, j: u8)
    requires
        j < 8,
    ensures
        byte_bit(a ^ m, j as int) == (byte_bit(a, j as int) != byte_bit(m, j as int)),
{
    assert((((a ^ m) >> j) & 1u8 == 1u8) == (((a >> j) & 1u8 == 1u8) != ((m >> j) & 1u8 == 1u8))) by (bit_vector)
        requires j < 8;
}

/// Applies (xors) the masking pattern `mask` to the bitmap: to its data
/// modules if the bitmap is a QR symbol, to all of its modules otherwise.
pub(crate) fn qr_mask_xor(input: &mut Bitmap, mask: u8)
    requires
        old(input).wf(),
        mask < 8,
        old(input).spec_width() * old(input).spec_height() + 2 <= usize::MAX,
    ensures
        final(input).wf(),
        final(input).spec_width() == old(input).spec_width(),
        final(input).spec_height() == old(input).spec_height(),
        final(input).has_border() == old(input).has_border(),
        forall|a: nat, b: nat| a < final(input).spec_width() && b < final(input).spec_height() ==>
            #[trigger] final(input).pixel(a, b) == (old(input).pixel(a, b)
                != mask_flips(mask as int, old(input).spec_width(), old(input).spec_height(), a as int, b as int)),
        mask_applied(*old(input), *final(input), mask as int),
{
    let (w, h) = input.dims();
    let maybe_version = if w != h { None } else { size_to_version(w) };
    let ghost old_bytes = input.bytes();
    let ghost start = *input;
    let len = input.debug_bits().len();
    let mut vec_index: usize = 0;
    while vec_index < len
        invariant
            input.wf(),
            start.wf(),
            mask < 8,
            w == start.spec_width(),
            h == start.spec_height(),
            w * h + 2 <= usize::MAX,
            input.spec_width() == w,
            input.spec_height() == h,
            input.has_border() == start.has_border(),
            old_bytes == start.bytes(),
            len == old_bytes.len(),
            input.bytes().len() == len,
            maybe_version matches Some(v) ==> bitmap_version(w as nat, h as nat) == Some(v as int) && 1 <= v <= 40,
            maybe_version is None ==> bitmap_version(w as nat, h as nat) is None,
            vec_index <= len,
            forall|n: int| vec_index <= n < len ==> input.bytes()[n] == old_bytes[n],
            forall|n: int, j: int| 0 <= n < vec_index && 0 <= j < 8 ==>
                #[trigger] byte_bit(input.bytes()[n], j) == (byte_bit(old_bytes[n], j)
                    != mask_byte_bit(mask as int, w as nat, h as nat, n as nat, j as nat)),
        decreases len - vec_index,
    {
        let mut mask_byte = 0u8;
        let mut bit_index: u8 = 8;
        while bit_index > 0
            invariant
                input.wf(),
                mask < 8,
                w == input.spec_width(),
                h == input.spec_height(),
                w * h + 2 <= usize::MAX,
                maybe_version matches Some(v) ==> bitmap_version(w as nat, h as nat) == Some(v as int) && 1 <= v <= 40,
                maybe_version is None ==> bitmap_version(w as nat, h as nat) is None,
                bit_index <= 8,
                forall|j: int| bit_index <= j < 8 ==>
                    #[trigger] byte_bit(mask_byte, j - bit_index) == mask_byte_bit(mask as int, w as nat, h as nat, vec_index as nat, j as nat),
                bit_index == 8 ==> mask_byte == 0,
            decreases bit_index,
        {
            let ghost old_bi = bit_index;
            bit_index = bit_index - 1;
            let ghost prev = mask_byte;
            let mut flip = false;
            match input.debug_index_to_xy(vec_index, bit_index) {
                Some((x, y)) => {
                    let applies = match maybe_version {
                        None => true,
                        Some(v) => coord_is_data(x, y, v),
                    };
                    if applies {
                        proof {
                            assert(x < w && y < h);
                            assert(x * y <= w * h) by (nonlinear_arith) requires x < w, y < h;
                            assert(x + y + 2 <= w * h + 1) by (nonlinear_arith) requires x < w, y < h;
                        }
                        let value = match mask {
                            0 => (x + y) % 2,
                            1 => y % 2,
                            2 => x % 3,
                            3 => (x + y) % 3,
                            4 => (x / 3 + y / 2) % 2,
                            5 => (x * y) % 2 + (x * y) % 3,
                            6 => ((x * y) % 3 + x * y) % 2,
                            _ => ((x * y) % 3 + x + y) % 2,
                        };
                        flip = value == 0;
                    }
                },
                None => {},
            }
            mask_byte = (mask_byte << 1) | if flip { 1u8 } else { 0u8 };
            proof {
                assert(flip == mask_byte_bit(mask as int, w as nat, h as nat, vec_index as nat, bit_index as nat));
                assert forall|j: int| bit_index <= j < 8 implies
                    #[trigger] byte_bit(mask_byte, j - bit_index) == mask_byte_bit(mask as int, w as nat, h as nat, vec_index as nat, j as nat) by {
                    if j == bit_index {
                        lemma_shift_in(prev, flip, 0);
                    } else {
                        let t = (j - bit_index - 1) as u8;
                        assert(t as int == j - old_bi);
                        assert(byte_bit(prev, j - old_bi) == mask_byte_bit(mask as int, w as nat, h as nat, vec_index as nat, j as nat));
                        lemma_shift_in(prev, flip, t);
                        assert(t as int + 1 == j - bit_index);
                    }
                }
            }
        }
        let ghost before = input.bytes();
        let bits = input.debug_bits_mut();
        let nv = bits[vec_index] ^ mask_byte;
        bits.set(vec_index, nv);
        proof {
            assert(input.bytes() == before.update(vec_index as int, nv));
            assert(before[vec_index as int] == old_bytes[vec_index as int]);
            assert forall|n: int, j: int| 0 <= n < vec_index + 1 && 0 <= j < 8 implies
                #[trigger] byte_bit(input.bytes()[n], j) == (byte_bit(old_bytes[n], j)
                    != mask_byte_bit(mask as int, w as nat, h as nat, n as nat, j as nat)) by {
                if n == vec_index {
                    lemma_xor_bit(old_bytes[n], mask_byte, j as u8);
                    assert(byte_bit(mask_byte, j - 0) == mask_byte_bit(mask as int, w as nat, h as nat, n as nat, j as nat));
                    assert(j as u8 as int == j);
                } else {
                    assert(input.bytes()[n] == before[n]);
                    assert(byte_bit(before[n], j) == (byte_bit(old_bytes[n], j)
                        != mask_byte_bit(mask as int, w as nat, h as nat, n as nat, j as nat)));
                }
            }
        }
        vec_index = vec_index + 1;
    }
    proof {
        assert forall|a: nat, b: nat| a < input.spec_width() && b < input.spec_height() implies
            #[trigger] input.pixel(a, b) == (start.pixel(a, b)
                != mask_flips(mask as int, w as nat, h as nat, a as int, b as int)) by {
            lemma_xy_index_roundtrip(a, b, w as nat, h as nat);
            let n = b * row_bytes(w as nat) + a / 8;
            let j = 7 - a % 8;
            assert(spec_xy_to_index(a, b, w as nat, h as nat) == Some((n as nat, j as nat)));
            assert(0 <= n < len) by {
                crate::image::lemma_index_in_bounds(a, b, w as nat, h as nat);
            }
            assert(byte_bit(input.bytes()[n as int], j as int) == (byte_bit(old_bytes[n as int], j as int)
                != mask_byte_bit(mask as int, w as nat, h as nat, n as nat, j as nat)));
        }
    }
}


/// The mask pattern that the format information of a QR symbol (with its
/// top left module at the origin) names, if it can be read.
pub open spec fn spec_read_mask(bm: Bitmap) -> Option<u8> {
    match bitmap_version(bm.spec_width(), bm.spec_height()) {
        None => None,
        Some(v) => match spec_get_fcode(bm, v, 0, 0) {
            None => None,
            Some(f) => match spec_interpret_format(f) {
                None => None,
                Some((_, m)) => Some(m),
            },
        },
    }
}

/// The version of a square bitmap as wide as a QR symbol.
pub(crate) fn bitmap_version_of(input: &Bitmap) -> (r: Option<u32>)
    requires
        input.wf(),
    ensures
        r matches Some(v) ==> bitmap_version(input.spec_width(), input.spec_height()) == Some(v as int)
            && 1 <= v <= 40,
        r is None ==> bitmap_version(input.spec_width(), input.spec_height()) is None,
{
    let (w, h) = input.dims();
    if w != h {
        None
    } else {
        size_to_version(w)
    }
}

/// Reads the mask pattern from the format information of a QR symbol.
fn read_mask(input: &Bitmap) -> (r: Option<u8>)
    requires
        input.wf(),
    ensures
        r == spec_read_mask(*input),
        r matches Some(m) ==> m < 8,
{
    match bitmap_version_of(input) {
        None => None,
        Some(version) => match get_fcode(input, version, (0, 0)) {
            None => None,
            Some(fcode) => match interpret_format(fcode) {
                None => None,
                Some((_, mask)) => {
                    proof {
                        assert(((fcode >> 10u16) & 0b111u16) < 8) by (bit_vector);
                    }
                    Some(mask)
                },
            },
        },
    }
}

/// Removes the mask of a QR symbol, the one its format information names.
fn unmask(input: &mut Bitmap)
    requires
        old(input).wf(),
        spec_read_mask(*old(input)) is Some,
        old(input).spec_width() * old(input).spec_height() + 2 <= usize::MAX,
    ensures
        final(input).wf(),
        final(input).spec_width() == old(input).spec_width(),
        final(input).spec_height() == old(input).spec_height(),
        final(input).has_border() == old(input).has_border(),
        forall|a: nat, b: nat| a < final(input).spec_width() && b < final(input).spec_height() ==>
            #[trigger] final(input).pixel(a, b) == (old(input).pixel(a, b) != mask_flips(
                spec_read_mask(*old(input))->0 as int, old(input).spec_width(), old(input).spec_height(),
                a as int, b as int)),
{
    match read_mask(input) {
        Some(mask) => qr_mask_xor(input, mask),
        None => {},
    }
}

/// The mask pattern that the format information of a QR symbol names.
pub fn errc(input: &Bitmap) -> (r: u8)
    requires
        input.wf(),
        spec_read_mask(*input) is Some,
    ensures
        Some(r) == spec_read_mask(*input),
{
    match read_mask(input) {
        Some(mask) => mask,
        None => 0,
    }
}

/// An image that can hold a QR symbol.
pub trait QR: Sized {
    /// The image is well formed.
    spec fn qr_wf(&self) -> bool;

    /// The image is small enough that every module can be masked.
    spec fn qr_maskable(&self) -> bool;

    /// The masking penalty of the image can be computed without overflow.
    spec fn qr_penalty_computable(&self) -> bool;

    /// The mask pattern that the image's format information names.
    spec fn qr_read_mask(&self) -> Option<u8>;

    /// Applies (xors) masking pattern `pattern` (0 to 7).
    fn qr_mask_xor(&mut self, pattern: u8)
        requires
            old(self).qr_wf(),
            old(self).qr_maskable(),
            pattern < 8,
        ensures
            final(self).qr_wf(),
    ;

    /// The masking penalty of the image.
    fn qr_penalty(&self) -> u32
        requires
            self.qr_penalty_computable(),
    ;

    /// The QR version of the image, if it is square and as wide as a symbol.
    fn qr_version(&self) -> Option<u32>
        requires
            self.qr_wf(),
    ;

    /// A blank symbol of version `version` (1 to 40): function patterns
    /// drawn, data modules light.
    fn new_blank_qr(version: u32) -> (r: Self)
        requires
            1 <= version <= 40,
        ensures
            r.qr_wf(),
    ;

    /// Removes the mask that the image's format information names.
    fn unmask(&mut self)
        requires
            old(self).qr_wf(),
            old(self).qr_maskable(),
            old(self).qr_read_mask() is Some,
        ensures
            final(self).qr_wf(),
    ;

    /// Whether the image has the size of a QR symbol.
    fn is_valid_size(&self) -> (r: bool)
        requires
            self.qr_wf(),
    {
        self.qr_version().is_some()
    }
}

impl QR for Bitmap {
    open spec fn qr_wf(&self) -> bool {
        self.wf()
    }

    open spec fn qr_maskable(&self) -> bool {
        self.spec_width() * self.spec_height() + 2 <= usize::MAX
    }

    open spec fn qr_penalty_computable(&self) -> bool {
        penalty_computable(*self)
    }

    open spec fn qr_read_mask(&self) -> Option<u8> {
        spec_read_mask(*self)
    }

    fn qr_mask_xor(&mut self, pattern: u8)
        ensures
            mask_applied(*old(self), *final(self), pattern as int),
            final(self).spec_width() == old(self).spec_width(),
            final(self).spec_height() == old(self).spec_height(),
            final(self).has_border() == old(self).has_border(),
            forall|a: nat, b: nat| a < final(self).spec_width() && b < final(self).spec_height() ==>
                #[trigger] final(self).pixel(a, b) == (old(self).pixel(a, b)
                    != mask_flips(pattern as int, old(self).spec_width(), old(self).spec_height(), a as int, b as int)),
    {
        qr_mask_xor(self, pattern)
    }

    fn qr_penalty(&self) -> (r: u32)
        ensures
            r == spec_total_penalty(*self),
    {
        total_penalty(self)
    }

    fn qr_version(&self) -> (r: Option<u32>)
        ensures
            r matches Some(v) ==> bitmap_version(self.spec_width(), self.spec_height()) == Some(v as int)
                && 1 <= v <= 40,
            r is None ==> bitmap_version(self.spec_width(), self.spec_height()) is None,
    {
        bitmap_version_of(self)
    }

    fn new_blank_qr(version: u32) -> (r: Bitmap)
        ensures
            r.spec_width() == max_index(version as int) + 1,
            r.spec_height() == max_index(version as int) + 1,
            !r.has_border(),
            forall|a: nat, b: nat| a <= max_index(version as int) && b <= max_index(version as int) ==>
                #[trigger] r.pixel(a, b) == blank_pixel(version as int, a as int, b as int),
    {
        new_blank_qr_code(version)
    }

    fn unmask(&mut self)
        ensures
            final(self).spec_width() == old(self).spec_width(),
            final(self).spec_height() == old(self).spec_height(),
            final(self).has_border() == old(self).has_border(),
            forall|a: nat, b: nat| a < final(self).spec_width() && b < final(self).spec_height() ==>
                #[trigger] final(self).pixel(a, b) == (old(self).pixel(a, b) != mask_flips(
                    spec_read_mask(*old(self))->0 as int, old(self).spec_width(), old(self).spec_height(),
                    a as int, b as int)),
    {
        unmask(self)
    }
}

/// `after` is `before` with masking pattern `mask` applied: same size and
/// border, the modules that the pattern flips flipped, the others kept.
pub open spec fn mask_applied(before: Bitmap, after: Bitmap, mask: int) -> bool {
    &&& after.spec_width() == before.spec_width()
    &&& after.spec_height() == before.spec_height()
    &&& after.has_border() == before.has_border()
    &&& forall|a: nat, b: nat| a < after.spec_width() && b < after.spec_height() ==>
        #[trigger] after.pixel(a, b) == (before.pixel(a, b)
            != mask_flips(mask, before.spec_width(), before.spec_height(), a as int, b as int))
}

/// Masking twice with the same pattern gives back the symbol it started
/// from: the mask is its own inverse.
pub proof fn lemma_mask_twice(before: Bitmap, once: Bitmap, twice: Bitmap, mask: int)
    requires
        mask_applied(before, once, mask),
        mask_applied(once, twice, mask),
    ensures
        twice.spec_width() == before.spec_width(),
        twice.spec_height() == before.spec_height(),
        forall|a: nat, b: nat| a < twice.spec_width() && b < twice.spec_height() ==>
            #[trigger] twice.pixel(a, b) == before.pixel(a, b),
{
    assert forall|a: nat, b: nat| a < twice.spec_width() && b < twice.spec_height() implies
        #[trigger] twice.pixel(a, b) == before.pixel(a, b) by {
        assert(once.pixel(a, b) == (before.pixel(a, b) != mask_flips(mask, before.spec_width(), before.spec_height(), a as int, b as int)));
    }
}

} // verus!
