use vstd::prelude::*;
use crate::rdsm::lookup::generator_ec;
use super::bitstream::Mode;

verus! {

/// Where the generator polynomial for `input` error correction codewords is
/// stored among the precomputed ones, if it is.
pub open spec fn spec_find_errc(input: int) -> Option<int> {
    if input == 7 || input == 17 {
        Some((input - 7) / 2)
    } else if input == 13 || input == 15 {
        Some((input - 9) / 2)
    } else if input % 2 == 1 {
        None
    } else if 18 <= input <= 36 {
        Some((input - 6) / 2)
    } else if input == 10 || input == 16 || 40 <= input <= 68 {
        Some((input - 8) / 2)
    } else {
        None
    }
}

/// Reverse lookup of the index of the precomputed generator polynomial for
/// `input` error correction codewords.
pub fn find_errc(input: usize) -> (r: Option<usize>)
    ensures
        r matches Some(i) ==> spec_find_errc(input as int) == Some(i as int),
        r is None ==> spec_find_errc(input as int) is None,
{
    if input == 7 || input == 17 {
        Some((input - 7) / 2)
    } else if input == 13 || input == 15 {
        Some((input - 9) / 2)
    } else if input % 2 == 1 {
        None
    } else if 18 <= input && input <= 36 {
        Some((input - 6) / 2)
    } else if input == 10 || input == 16 || (40 <= input && input <= 68) {
        Some((input - 8) / 2)
    } else {
        None
    }
}

/// The index found for `input` names a stored generator polynomial that
/// makes exactly `input` error correction codewords.
pub proof fn lemma_find_errc(input: int)
    requires
        spec_find_errc(input) is Some,
    ensures
        0 <= spec_find_errc(input)->0 < 31,
        generator_ec(spec_find_errc(input)->0) == input,
{
    if input == 0 {} else if input == 1 {} else if input == 2 {} else if input == 3 {} else if input == 4 {} else if input == 5 {} else if input == 6 {} else if input == 7 {}
    else if input == 8 {} else if input == 9 {} else if input == 10 {} else if input == 11 {} else if input == 12 {} else if input == 13 {} else if input == 14 {} else if input == 15 {}
    else if input == 16 {} else if input == 17 {} else if input == 18 {} else if input == 19 {} else if input == 20 {} else if input == 21 {} else if input == 22 {} else if input == 23 {}
    else if input == 24 {} else if input == 25 {} else if input == 26 {} else if input == 27 {} else if input == 28 {} else if input == 29 {} else if input == 30 {} else if input == 31 {}
    else if input == 32 {} else if input == 33 {} else if input == 34 {} else if input == 35 {} else if input == 36 {} else if input == 37 {} else if input == 38 {} else if input == 39 {}
    else if input == 40 {} else if input == 41 {} else if input == 42 {} else if input == 43 {} else if input == 44 {} else if input == 45 {} else if input == 46 {} else if input == 47 {}
    else if input == 48 {} else if input == 49 {} else if input == 50 {} else if input == 51 {} else if input == 52 {} else if input == 53 {} else if input == 54 {} else if input == 55 {}
    else if input == 56 {} else if input == 57 {} else if input == 58 {} else if input == 59 {} else if input == 60 {} else if input == 61 {} else if input == 62 {} else if input == 63 {}
    else if input == 64 {} else if input == 65 {} else if input == 66 {} else if input == 67 {} else if input == 68 {}
}

/// The centres of the alignment patterns of every version, one version after
/// another; a version's centres serve as both x and y coordinates.
pub const AP_COORD_DATA: [usize; 178] = [
    6, 18, 6, 22, 6, 26, 6, 30, 6, 34, 6, 22, 38, 6, 24, 42, 6, 26, 46, 6, 28, 50, 6, 30, 54, 6, 32, 58, 6, 34, 62, 6, 26, 46, 66, 6, 26, 48, 70, 6, 26, 50, 74, 6, 30, 54, 78, 6, 30, 56, 82, 6, 30, 58, 86, 6, 34, 62, 90, 6, 28, 50, 72, 94, 6, 26, 50, 74, 98, 6, 30, 54, 78, 102, 6, 28, 54, 80, 106, 6, 32, 58, 84, 110, 6, 30, 58, 86, 114, 6, 34, 62, 90, 118, 6, 26, 50, 74, 98, 122, 6, 30, 54, 78, 102, 126, 6, 26, 52, 78, 104, 130, 6, 30, 56, 82, 108, 134, 6, 34, 60, 86, 112, 138, 6, 30, 58, 86, 114, 142, 6, 34, 62, 90, 118, 146, 6, 30, 54, 78, 102, 126, 150, 6, 24, 50, 76, 102, 128, 154, 6, 28, 54, 80, 106, 132, 158, 6, 32, 58, 84, 110, 136, 162, 6, 26, 54, 82, 110, 138, 166, 6, 30, 58, 86, 114, 142, 170,
];

/// Where each version's alignment pattern centres start in `AP_COORD_DATA`
/// (version `v` at index `v - 1`); the last entry is where the last ends.
pub const AP_COORD_OFFSETS: [usize; 41] = [
    0, 0, 2, 4, 6, 8, 10, 13, 16, 19, 22, 25, 28, 31, 35, 39, 43, 47, 51, 55, 59, 64, 69, 74, 79, 84, 89, 94, 100, 106, 112, 118, 124, 130, 136, 143, 150, 157, 164, 171, 178,
];

/// The centres of the alignment patterns of version `version` (1 to 40),
/// along either axis, in increasing order.
pub closed spec fn ap_centers(version: int) -> Seq<usize> {
    AP_COORD_DATA@.subrange(AP_COORD_OFFSETS@[version - 1] as int, AP_COORD_OFFSETS@[version] as int)
}

proof fn lemma_ap_offsets(version: int)
    requires
        1 <= version <= 40,
    ensures
        AP_COORD_OFFSETS@[version - 1] <= AP_COORD_OFFSETS@[version] <= 178,
        AP_COORD_OFFSETS@[version] - AP_COORD_OFFSETS@[version - 1] <= 7,
        version == 1 <==> AP_COORD_OFFSETS@[version - 1] == AP_COORD_OFFSETS@[version],
{
    if version == 1 {} else if version == 2 {} else if version == 3 {} else if version == 4 {} else if version == 5 {} else if version == 6 {} else if version == 7 {} else if version == 8 {}
    else if version == 9 {} else if version == 10 {} else if version == 11 {} else if version == 12 {} else if version == 13 {} else if version == 14 {} else if version == 15 {} else if version == 16 {}
    else if version == 17 {} else if version == 18 {} else if version == 19 {} else if version == 20 {} else if version == 21 {} else if version == 22 {} else if version == 23 {} else if version == 24 {}
    else if version == 25 {} else if version == 26 {} else if version == 27 {} else if version == 28 {} else if version == 29 {} else if version == 30 {} else if version == 31 {} else if version == 32 {}
    else if version == 33 {} else if version == 34 {} else if version == 35 {} else if version == 36 {} else if version == 37 {} else if version == 38 {} else if version == 39 {} else if version == 40 {}
}

/// The alignment pattern centres of a version lie between 6 and the
/// version's largest coordinate minus 6; the first is 6 and the last is the
/// largest coordinate minus 6; there are none for version 1 only.
pub proof fn lemma_ap_centers(version: int)
    requires
        1 <= version <= 40,
    ensures
        ap_centers(version).len() <= 7,
        version == 1 <==> ap_centers(version).len() == 0,
        forall|i: int| 0 <= i < ap_centers(version).len() ==>
            6 <= #[trigger] ap_centers(version)[i] <= 10 + 4 * version,
        ap_centers(version).len() > 0 ==> ap_centers(version)[0] == 6,
        ap_centers(version).len() > 0 ==> ap_centers(version)[ap_centers(version).len() - 1] == 10 + 4 * version,
{
    lemma_ap_offsets(version);
    if version == 1 {} else if version == 2 {} else if version == 3 {} else if version == 4 {} else if version == 5 {} else if version == 6 {} else if version == 7 {} else if version == 8 {}
    else if version == 9 {} else if version == 10 {} else if version == 11 {} else if version == 12 {} else if version == 13 {} else if version == 14 {} else if version == 15 {} else if version == 16 {}
    else if version == 17 {} else if version == 18 {} else if version == 19 {} else if version == 20 {} else if version == 21 {} else if version == 22 {} else if version == 23 {} else if version == 24 {}
    else if version == 25 {} else if version == 26 {} else if version == 27 {} else if version == 28 {} else if version == 29 {} else if version == 30 {} else if version == 31 {} else if version == 32 {}
    else if version == 33 {} else if version == 34 {} else if version == 35 {} else if version == 36 {} else if version == 37 {} else if version == 38 {} else if version == 39 {} else if version == 40 {}
}

/// The alignment pattern centres of a version increase strictly.
pub proof fn lemma_ap_centers_increase(version: int)
    requires
        1 <= version <= 40,
    ensures
        forall|i: int, j: int| 0 <= i < j < ap_centers(version).len() ==>
            #[trigger] ap_centers(version)[i] < #[trigger] ap_centers(version)[j],
{
    lemma_ap_offsets(version);
    assert forall|i: int, j: int| 0 <= i < j < ap_centers(version).len() implies
        #[trigger] ap_centers(version)[i] < #[trigger] ap_centers(version)[j] by {
        if version == 1 {} else if version == 2 {} else if version == 3 {} else if version == 4 {} else if version == 5 {} else if version == 6 {} else if version == 7 {} else if version == 8 {} else if version == 9 {} else if version == 10 {} else if version == 11 {} else if version == 12 {} else if version == 13 {} else if version == 14 {} else if version == 15 {} else if version == 16 {} else if version == 17 {} else if version == 18 {} else if version == 19 {} else if version == 20 {} else if version == 21 {} else if version == 22 {} else if version == 23 {} else if version == 24 {} else if version == 25 {} else if version == 26 {} else if version == 27 {} else if version == 28 {} else if version == 29 {} else if version == 30 {} else if version == 31 {} else if version == 32 {} else if version == 33 {} else if version == 34 {} else if version == 35 {} else if version == 36 {} else if version == 37 {} else if version == 38 {} else if version == 39 {} else if version == 40 {}
    }
}

/// Copies out the alignment pattern centres of version `version`.
pub fn ap_coord_indices(version: u32) -> (r: Vec<usize>)
    requires
        1 <= version <= 40,
    ensures
        r@ == ap_centers(version as int),
{
    proof { lemma_ap_offsets(version as int); }
    let start = AP_COORD_OFFSETS[(version - 1) as usize];
    let end = AP_COORD_OFFSETS[version as usize];
    let mut out: Vec<usize> = Vec::new();
    let mut k = start;
    while k < end
        invariant
            start <= k <= end,
            end <= 178,
            start == AP_COORD_OFFSETS@[version - 1],
            end == AP_COORD_OFFSETS@[version as int],
            out@ == AP_COORD_DATA@.subrange(start as int, k as int),
        decreases end - k,
    {
        out.push(AP_COORD_DATA[k]);
        k = k + 1;
    }
    out
}

/// The total number of codewords of each version (version `v` at `v - 1`).
pub const TOTAL_CODEWORDS: [usize; 40] = [
    26, 44, 70, 100, 134, 172, 196, 242, 292, 346, 404, 466, 532, 581, 655, 733, 815, 901, 991, 1085, 1156, 1258, 1364, 1474, 1588, 1706, 1828, 1921, 2051, 2185, 2323, 2465, 2611, 2761, 2876, 3034, 3196, 3362, 3532, 3706,
];

/// The error correction block layout of every version (in order) and level
/// (L, M, Q, H): the number of blocks of the first kind, the codewords and
/// the data codewords of such a block, and the number of blocks of the second
/// kind (each holds one codeword and one data codeword more).
pub const EC_BLOCK_TABLE: [usize; 640] = [
    1, 26, 19, 0, 1, 26, 16, 0, 1, 26, 13, 0, 1, 26, 9, 0,
    1, 44, 34, 0, 1, 44, 28, 0, 1, 44, 22, 0, 1, 44, 16, 0,
    1, 70, 55, 0, 1, 70, 44, 0, 2, 35, 17, 0, 2, 35, 13, 0,
    1, 100, 80, 0, 2, 50, 32, 0, 2, 50, 24, 0, 4, 25, 9, 0,
    1, 134, 108, 0, 2, 67, 43, 0, 2, 33, 15, 2, 2, 33, 11, 2,
    2, 86, 68, 0, 4, 43, 27, 0, 4, 43, 19, 0, 4, 43, 15, 0,
    2, 98, 78, 0, 4, 49, 31, 0, 2, 32, 14, 4, 4, 39, 13, 1,
    2, 121, 97, 0, 2, 60, 38, 2, 4, 40, 18, 2, 4, 40, 14, 2,
    2, 146, 116, 0, 3, 58, 36, 2, 4, 36, 16, 4, 4, 36, 12, 4,
    2, 86, 68, 2, 4, 69, 43, 1, 6, 43, 19, 2, 6, 43, 15, 2,
    4, 101, 81, 0, 1, 80, 50, 4, 4, 50, 22, 4, 3, 36, 12, 8,
    2, 116, 92, 2, 6, 58, 36, 2, 4, 46, 20, 6, 7, 42, 14, 4,
    4, 133, 107, 0, 8, 59, 37, 1, 8, 44, 20, 4, 12, 33, 11, 4,
    3, 145, 115, 1, 4, 64, 40, 5, 11, 36, 16, 5, 11, 36, 12, 5,
    5, 109, 87, 1, 5, 65, 41, 5, 5, 54, 24, 7, 11, 36, 12, 7,
    5, 122, 98, 1, 7, 73, 45, 3, 15, 43, 19, 2, 3, 45, 15, 13,
    1, 135, 107, 5, 10, 74, 46, 1, 1, 50, 22, 15, 2, 42, 14, 17,
    5, 150, 120, 1, 9, 69, 43, 4, 17, 50, 22, 1, 2, 42, 14, 19,
    3, 141, 113, 4, 3, 70, 44, 11, 17, 47, 21, 4, 9, 39, 13, 16,
    3, 135, 107, 5, 3, 67, 41, 13, 15, 54, 24, 5, 15, 43, 15, 10,
    4, 144, 116, 4, 17, 68, 42, 0, 17, 50, 22, 6, 19, 46, 16, 6,
    2, 139, 111, 7, 17, 74, 46, 0, 7, 54, 24, 16, 34, 37, 13, 0,
    4, 151, 121, 5, 4, 75, 47, 14, 11, 54, 24, 14, 16, 45, 15, 14,
    6, 147, 117, 4, 6, 73, 45, 14, 11, 54, 24, 16, 30, 46, 16, 2,
    8, 132, 106, 4, 8, 75, 47, 13, 7, 54, 24, 22, 22, 45, 15, 13,
    10, 142, 114, 2, 19, 74, 46, 4, 28, 50, 22, 6, 33, 46, 16, 4,
    8, 152, 122, 4, 22, 73, 45, 3, 8, 53, 23, 26, 12, 45, 15, 28,
    3, 147, 117, 10, 3, 73, 45, 23, 4, 54, 24, 31, 11, 45, 15, 31,
    7, 146, 116, 7, 21, 73, 45, 7, 1, 53, 23, 37, 19, 45, 15, 26,
    5, 145, 115, 10, 19, 75, 47, 10, 15, 54, 24, 25, 23, 45, 15, 25,
    13, 145, 115, 3, 2, 74, 46, 29, 42, 54, 24, 1, 23, 45, 15, 28,
    17, 145, 115, 0, 10, 74, 46, 23, 10, 54, 24, 35, 19, 45, 15, 35,
    17, 145, 115, 1, 14, 74, 46, 21, 29, 54, 24, 19, 11, 45, 15, 46,
    13, 145, 115, 6, 14, 74, 46, 23, 44, 54, 24, 7, 59, 46, 16, 1,
    12, 151, 121, 7, 12, 75, 47, 26, 39, 54, 24, 14, 22, 45, 15, 41,
    6, 151, 121, 14, 6, 75, 47, 34, 46, 54, 24, 10, 2, 45, 15, 64,
    17, 152, 122, 4, 29, 74, 46, 14, 49, 54, 24, 10, 24, 45, 15, 46,
    4, 152, 122, 18, 13, 74, 46, 32, 48, 54, 24, 14, 42, 45, 15, 32,
    20, 147, 117, 4, 40, 75, 47, 7, 43, 54, 24, 22, 10, 45, 15, 67,
    19, 148, 118, 6, 18, 75, 47, 31, 34, 54, 24, 34, 20, 45, 15, 61,
];

/// Block layout of a version and level: the number of blocks of the first
/// kind, the codewords per such block and the data codewords per such block,
/// and, if there are blocks of a second kind, the same three numbers for them.
pub type VersionBlockInfo = (usize, usize, usize, Option<(usize, usize, usize)>);

/// Entry `k` of the block layout of a version (1 to 40) and level (0 to 3).
pub closed spec fn ec_block_entry(version: int, level: int, k: int) -> int {
    EC_BLOCK_TABLE@[(version - 1) * 16 + level * 4 + k] as int
}

/// The block layout of a version (1 to 40) and level (0 to 3).
pub closed spec fn spec_block_info(version: int, level: int) -> (int, int, int, Option<(int, int, int)>) {
    let bc1 = ec_block_entry(version, level, 0);
    let cw1 = ec_block_entry(version, level, 1);
    let dcw1 = ec_block_entry(version, level, 2);
    let bc2 = ec_block_entry(version, level, 3);
    (bc1, cw1, dcw1, if bc2 == 0 { None } else { Some((bc2, cw1 + 1, dcw1 + 1)) })
}

/// The number of data codewords of a version and level, summed over the
/// blocks.
pub open spec fn block_data_total(version: int, level: int) -> int {
    let (bc1, cw1, dcw1, opt) = spec_block_info(version, level);
    match opt {
        Some((bc2, cw2, dcw2)) => bc1 * dcw1 + bc2 * dcw2,
        None => bc1 * dcw1,
    }
}

/// The number of codewords of a version and level, summed over the blocks.
pub open spec fn block_total(version: int, level: int) -> int {
    let (bc1, cw1, dcw1, opt) = spec_block_info(version, level);
    match opt {
        Some((bc2, cw2, dcw2)) => bc1 * cw1 + bc2 * cw2,
        None => bc1 * cw1,
    }
}

/// The block layout of a version and level is the version's row of the
/// table.
pub proof fn lemma_block_info_entries(version: int, level: int)
    ensures
        spec_block_info(version, level).0 == ec_block_entry(version, level, 0),
        spec_block_info(version, level).1 == ec_block_entry(version, level, 1),
        spec_block_info(version, level).2 == ec_block_entry(version, level, 2),
{
}

/// The blocks of the second kind, if any, have one codeword and one data
/// codeword more than those of the first kind.
pub proof fn lemma_second_group(version: int, level: int)
    ensures
        spec_block_info(version, level).3 matches Some((a, b, c)) ==> a == ec_block_entry(version, level, 3)
            && b == spec_block_info(version, level).1 + 1 && c == spec_block_info(version, level).2 + 1,
        spec_block_info(version, level).3 is None <==> ec_block_entry(version, level, 3) == 0,
{
}

/// The sums of a block layout, from the layout's numbers.
proof fn block_values(version: int, level: int, bc1: int, cw1: int, dcw1: int, bc2: int, total: int, data: int)
    requires
        ec_block_entry(version, level, 0) == bc1,
        ec_block_entry(version, level, 1) == cw1,
        ec_block_entry(version, level, 2) == dcw1,
        ec_block_entry(version, level, 3) == bc2,
        bc1 * cw1 + bc2 * (cw1 + 1) == total,
        bc1 * dcw1 + bc2 * (dcw1 + 1) == data,
    ensures
        block_total(version, level) == total,
        block_data_total(version, level) == data,
{
}

/// The block layout of a version and level adds up: the blocks hold all the
/// codewords of the version and all the data codewords of the level, every
/// block has data, and the error correction codewords per block number
/// between 7 and 30.
pub proof fn lemma_block_info(version: int, level: int)
    requires
        1 <= version <= 40,
        0 <= level < 4,
    ensures
        1 <= spec_block_info(version, level).0 <= 81,
        spec_block_info(version, level).2 >= 1,
        7 <= spec_block_info(version, level).1 - spec_block_info(version, level).2 <= 30,
        spec_block_info(version, level).1 <= 3706,
        0 <= ec_block_entry(version, level, 3) <= 81,
        block_total(version, level) == TOTAL_CODEWORDS@[version - 1],
        block_data_total(version, level) == data_codewords(level, version),
        TOTAL_CODEWORDS@[version - 1] <= 3706,
{
    if version == 1 {
        if level == 0 {
            block_values(1, 0, 1, 26, 19, 0, 26, 19);
        } else if level == 1 {
            block_values(1, 1, 1, 26, 16, 0, 26, 16);
        } else if level == 2 {
            block_values(1, 2, 1, 26, 13, 0, 26, 13);
        } else if level == 3 {
            block_values(1, 3, 1, 26, 9, 0, 26, 9);
        }
    }
    else if version == 2 {
        if level == 0 {
            block_values(2, 0, 1, 44, 34, 0, 44, 34);
        } else if level == 1 {
            block_values(2, 1, 1, 44, 28, 0, 44, 28);
        } else if level == 2 {
            block_values(2, 2, 1, 44, 22, 0, 44, 22);
        } else if level == 3 {
            block_values(2, 3, 1, 44, 16, 0, 44, 16);
        }
    }
    else if version == 3 {
        if level == 0 {
            block_values(3, 0, 1, 70, 55, 0, 70, 55);
        } else if level == 1 {
            block_values(3, 1, 1, 70, 44, 0, 70, 44);
        } else if level == 2 {
            block_values(3, 2, 2, 35, 17, 0, 70, 34);
        } else if level == 3 {
            block_values(3, 3, 2, 35, 13, 0, 70, 26);
        }
    }
    else if version == 4 {
        if level == 0 {
            block_values(4, 0, 1, 100, 80, 0, 100, 80);
        } else if level == 1 {
            block_values(4, 1, 2, 50, 32, 0, 100, 64);
        } else if level == 2 {
            block_values(4, 2, 2, 50, 24, 0, 100, 48);
        } else if level == 3 {
            block_values(4, 3, 4, 25, 9, 0, 100, 36);
        }
    }
    else if version == 5 {
        if level == 0 {
            block_values(5, 0, 1, 134, 108, 0, 134, 108);
        } else if level == 1 {
            block_values(5, 1, 2, 67, 43, 0, 134, 86);
        } else if level == 2 {
            block_values(5, 2, 2, 33, 15, 2, 134, 62);
        } else if level == 3 {
            block_values(5, 3, 2, 33, 11, 2, 134, 46);
        }
    }
    else if version == 6 {
        if level == 0 {
            block_values(6, 0, 2, 86, 68, 0, 172, 136);
        } else if level == 1 {
            block_values(6, 1, 4, 43, 27, 0, 172, 108);
        } else if level == 2 {
            block_values(6, 2, 4, 43, 19, 0, 172, 76);
        } else if level == 3 {
            block_values(6, 3, 4, 43, 15, 0, 172, 60);
        }
    }
    else if version == 7 {
        if level == 0 {
            block_values(7, 0, 2, 98, 78, 0, 196, 156);
        } else if level == 1 {
            block_values(7, 1, 4, 49, 31, 0, 196, 124);
        } else if level == 2 {
            block_values(7, 2, 2, 32, 14, 4, 196, 88);
        } else if level == 3 {
            block_values(7, 3, 4, 39, 13, 1, 196, 66);
        }
    }
    else if version == 8 {
        if level == 0 {
            block_values(8, 0, 2, 121, 97, 0, 242, 194);
        } else if level == 1 {
            block_values(8, 1, 2, 60, 38, 2, 242, 154);
        } else if level == 2 {
            block_values(8, 2, 4, 40, 18, 2, 242, 110);
        } else if level == 3 {
            block_values(8, 3, 4, 40, 14, 2, 242, 86);
        }
    }
    else if version == 9 {
        if level == 0 {
            block_values(9, 0, 2, 146, 116, 0, 292, 232);
        } else if level == 1 {
            block_values(9, 1, 3, 58, 36, 2, 292, 182);
        } else if level == 2 {
            block_values(9, 2, 4, 36, 16, 4, 292, 132);
        } else if level == 3 {
            block_values(9, 3, 4, 36, 12, 4, 292, 100);
        }
    }
    else if version == 10 {
        if level == 0 {
            block_values(10, 0, 2, 86, 68, 2, 346, 274);
        } else if level == 1 {
            block_values(10, 1, 4, 69, 43, 1, 346, 216);
        } else if level == 2 {
            block_values(10, 2, 6, 43, 19, 2, 346, 154);
        } else if level == 3 {
            block_values(10, 3, 6, 43, 15, 2, 346, 122);
        }
    }
    else if version == 11 {
        if level == 0 {
            block_values(11, 0, 4, 101, 81, 0, 404, 324);
        } else if level == 1 {
            block_values(11, 1, 1, 80, 50, 4, 404, 254);
        } else if level == 2 {
            block_values(11, 2, 4, 50, 22, 4, 404, 180);
        } else if level == 3 {
            block_values(11, 3, 3, 36, 12, 8, 404, 140);
        }
    }
    else if version == 12 {
        if level == 0 {
            block_values(12, 0, 2, 116, 92, 2, 466, 370);
        } else if level == 1 {
            block_values(12, 1, 6, 58, 36, 2, 466, 290);
        } else if level == 2 {
            block_values(12, 2, 4, 46, 20, 6, 466, 206);
        } else if level == 3 {
            block_values(12, 3, 7, 42, 14, 4, 466, 158);
        }
    }
    else if version == 13 {
        if level == 0 {
            block_values(13, 0, 4, 133, 107, 0, 532, 428);
        } else if level == 1 {
            block_values(13, 1, 8, 59, 37, 1, 532, 334);
        } else if level == 2 {
            block_values(13, 2, 8, 44, 20, 4, 532, 244);
        } else if level == 3 {
            block_values(13, 3, 12, 33, 11, 4, 532, 180);
        }
    }
    else if version == 14 {
        if level == 0 {
            block_values(14, 0, 3, 145, 115, 1, 581, 461);
        } else if level == 1 {
            block_values(14, 1, 4, 64, 40, 5, 581, 365);
        } else if level == 2 {
            block_values(14, 2, 11, 36, 16, 5, 581, 261);
        } else if level == 3 {
            block_values(14, 3, 11, 36, 12, 5, 581, 197);
        }
    }
    else if version == 15 {
        if level == 0 {
            block_values(15, 0, 5, 109, 87, 1, 655, 523);
        } else if level == 1 {
            block_values(15, 1, 5, 65, 41, 5, 655, 415);
        } else if level == 2 {
            block_values(15, 2, 5, 54, 24, 7, 655, 295);
        } else if level == 3 {
            block_values(15, 3, 11, 36, 12, 7, 655, 223);
        }
    }
    else if version == 16 {
        if level == 0 {
            block_values(16, 0, 5, 122, 98, 1, 733, 589);
        } else if level == 1 {
            block_values(16, 1, 7, 73, 45, 3, 733, 453);
        } else if level == 2 {
            block_values(16, 2, 15, 43, 19, 2, 733, 325);
        } else if level == 3 {
            block_values(16, 3, 3, 45, 15, 13, 733, 253);
        }
    }
    else if version == 17 {
        if level == 0 {
            block_values(17, 0, 1, 135, 107, 5, 815, 647);
        } else if level == 1 {
            block_values(17, 1, 10, 74, 46, 1, 815, 507);
        } else if level == 2 {
            block_values(17, 2, 1, 50, 22, 15, 815, 367);
        } else if level == 3 {
            block_values(17, 3, 2, 42, 14, 17, 815, 283);
        }
    }
    else if version == 18 {
        if level == 0 {
            block_values(18, 0, 5, 150, 120, 1, 901, 721);
        } else if level == 1 {
            block_values(18, 1, 9, 69, 43, 4, 901, 563);
        } else if level == 2 {
            block_values(18, 2, 17, 50, 22, 1, 901, 397);
        } else if level == 3 {
            block_values(18, 3, 2, 42, 14, 19, 901, 313);
        }
    }
    else if version == 19 {
        if level == 0 {
            block_values(19, 0, 3, 141, 113, 4, 991, 795);
        } else if level == 1 {
            block_values(19, 1, 3, 70, 44, 11, 991, 627);
        } else if level == 2 {
            block_values(19, 2, 17, 47, 21, 4, 991, 445);
        } else if level == 3 {
            block_values(19, 3, 9, 39, 13, 16, 991, 341);
        }
    }
    else if version == 20 {
        if level == 0 {
            block_values(20, 0, 3, 135, 107, 5, 1085, 861);
        } else if level == 1 {
            block_values(20, 1, 3, 67, 41, 13, 1085, 669);
        } else if level == 2 {
            block_values(20, 2, 15, 54, 24, 5, 1085, 485);
        } else if level == 3 {
            block_values(20, 3, 15, 43, 15, 10, 1085, 385);
        }
    }
    else if version == 21 {
        if level == 0 {
            block_values(21, 0, 4, 144, 116, 4, 1156, 932);
        } else if level == 1 {
            block_values(21, 1, 17, 68, 42, 0, 1156, 714);
        } else if level == 2 {
            block_values(21, 2, 17, 50, 22, 6, 1156, 512);
        } else if level == 3 {
            block_values(21, 3, 19, 46, 16, 6, 1156, 406);
        }
    }
    else if version == 22 {
        if level == 0 {
            block_values(22, 0, 2, 139, 111, 7, 1258, 1006);
        } else if level == 1 {
            block_values(22, 1, 17, 74, 46, 0, 1258, 782);
        } else if level == 2 {
            block_values(22, 2, 7, 54, 24, 16, 1258, 568);
        } else if level == 3 {
            block_values(22, 3, 34, 37, 13, 0, 1258, 442);
        }
    }
    else if version == 23 {
        if level == 0 {
            block_values(23, 0, 4, 151, 121, 5, 1364, 1094);
        } else if level == 1 {
            block_values(23, 1, 4, 75, 47, 14, 1364, 860);
        } else if level == 2 {
            block_values(23, 2, 11, 54, 24, 14, 1364, 614);
        } else if level == 3 {
            block_values(23, 3, 16, 45, 15, 14, 1364, 464);
        }
    }
    else if version == 24 {
        if level == 0 {
            block_values(24, 0, 6, 147, 117, 4, 1474, 1174);
        } else if level == 1 {
            block_values(24, 1, 6, 73, 45, 14, 1474, 914);
        } else if level == 2 {
            block_values(24, 2, 11, 54, 24, 16, 1474, 664);
        } else if level == 3 {
            block_values(24, 3, 30, 46, 16, 2, 1474, 514);
        }
    }
    else if version == 25 {
        if level == 0 {
            block_values(25, 0, 8, 132, 106, 4, 1588, 1276);
        } else if level == 1 {
            block_values(25, 1, 8, 75, 47, 13, 1588, 1000);
        } else if level == 2 {
            block_values(25, 2, 7, 54, 24, 22, 1588, 718);
        } else if level == 3 {
            block_values(25, 3, 22, 45, 15, 13, 1588, 538);
        }
    }
    else if version == 26 {
        if level == 0 {
            block_values(26, 0, 10, 142, 114, 2, 1706, 1370);
        } else if level == 1 {
            block_values(26, 1, 19, 74, 46, 4, 1706, 1062);
        } else if level == 2 {
            block_values(26, 2, 28, 50, 22, 6, 1706, 754);
        } else if level == 3 {
            block_values(26, 3, 33, 46, 16, 4, 1706, 596);
        }
    }
    else if version == 27 {
        if level == 0 {
            block_values(27, 0, 8, 152, 122, 4, 1828, 1468);
        } else if level == 1 {
            block_values(27, 1, 22, 73, 45, 3, 1828, 1128);
        } else if level == 2 {
            block_values(27, 2, 8, 53, 23, 26, 1828, 808);
        } else if level == 3 {
            block_values(27, 3, 12, 45, 15, 28, 1828, 628);
        }
    }
    else if version == 28 {
        if level == 0 {
            block_values(28, 0, 3, 147, 117, 10, 1921, 1531);
        } else if level == 1 {
            block_values(28, 1, 3, 73, 45, 23, 1921, 1193);
        } else if level == 2 {
            block_values(28, 2, 4, 54, 24, 31, 1921, 871);
        } else if level == 3 {
            block_values(28, 3, 11, 45, 15, 31, 1921, 661);
        }
    }
    else if version == 29 {
        if level == 0 {
            block_values(29, 0, 7, 146, 116, 7, 2051, 1631);
        } else if level == 1 {
            block_values(29, 1, 21, 73, 45, 7, 2051, 1267);
        } else if level == 2 {
            block_values(29, 2, 1, 53, 23, 37, 2051, 911);
        } else if level == 3 {
            block_values(29, 3, 19, 45, 15, 26, 2051, 701);
        }
    }
    else if version == 30 {
        if level == 0 {
            block_values(30, 0, 5, 145, 115, 10, 2185, 1735);
        } else if level == 1 {
            block_values(30, 1, 19, 75, 47, 10, 2185, 1373);
        } else if level == 2 {
            block_values(30, 2, 15, 54, 24, 25, 2185, 985);
        } else if level == 3 {
            block_values(30, 3, 23, 45, 15, 25, 2185, 745);
        }
    }
    else if version == 31 {
        if level == 0 {
            block_values(31, 0, 13, 145, 115, 3, 2323, 1843);
        } else if level == 1 {
            block_values(31, 1, 2, 74, 46, 29, 2323, 1455);
        } else if level == 2 {
            block_values(31, 2, 42, 54, 24, 1, 2323, 1033);
        } else if level == 3 {
            block_values(31, 3, 23, 45, 15, 28, 2323, 793);
        }
    }
    else if version == 32 {
        if level == 0 {
            block_values(32, 0, 17, 145, 115, 0, 2465, 1955);
        } else if level == 1 {
            block_values(32, 1, 10, 74, 46, 23, 2465, 1541);
        } else if level == 2 {
            block_values(32, 2, 10, 54, 24, 35, 2465, 1115);
        } else if level == 3 {
            block_values(32, 3, 19, 45, 15, 35, 2465, 845);
        }
    }
    else if version == 33 {
        if level == 0 {
            block_values(33, 0, 17, 145, 115, 1, 2611, 2071);
        } else if level == 1 {
            block_values(33, 1, 14, 74, 46, 21, 2611, 1631);
        } else if level == 2 {
            block_values(33, 2, 29, 54, 24, 19, 2611, 1171);
        } else if level == 3 {
            block_values(33, 3, 11, 45, 15, 46, 2611, 901);
        }
    }
    else if version == 34 {
        if level == 0 {
            block_values(34, 0, 13, 145, 115, 6, 2761, 2191);
        } else if level == 1 {
            block_values(34, 1, 14, 74, 46, 23, 2761, 1725);
        } else if level == 2 {
            block_values(34, 2, 44, 54, 24, 7, 2761, 1231);
        } else if level == 3 {
            block_values(34, 3, 59, 46, 16, 1, 2761, 961);
        }
    }
    else if version == 35 {
        if level == 0 {
            block_values(35, 0, 12, 151, 121, 7, 2876, 2306);
        } else if level == 1 {
            block_values(35, 1, 12, 75, 47, 26, 2876, 1812);
        } else if level == 2 {
            block_values(35, 2, 39, 54, 24, 14, 2876, 1286);
        } else if level == 3 {
            block_values(35, 3, 22, 45, 15, 41, 2876, 986);
        }
    }
    else if version == 36 {
        if level == 0 {
            block_values(36, 0, 6, 151, 121, 14, 3034, 2434);
        } else if level == 1 {
            block_values(36, 1, 6, 75, 47, 34, 3034, 1914);
        } else if level == 2 {
            block_values(36, 2, 46, 54, 24, 10, 3034, 1354);
        } else if level == 3 {
            block_values(36, 3, 2, 45, 15, 64, 3034, 1054);
        }
    }
    else if version == 37 {
        if level == 0 {
            block_values(37, 0, 17, 152, 122, 4, 3196, 2566);
        } else if level == 1 {
            block_values(37, 1, 29, 74, 46, 14, 3196, 1992);
        } else if level == 2 {
            block_values(37, 2, 49, 54, 24, 10, 3196, 1426);
        } else if level == 3 {
            block_values(37, 3, 24, 45, 15, 46, 3196, 1096);
        }
    }
    else if version == 38 {
        if level == 0 {
            block_values(38, 0, 4, 152, 122, 18, 3362, 2702);
        } else if level == 1 {
            block_values(38, 1, 13, 74, 46, 32, 3362, 2102);
        } else if level == 2 {
            block_values(38, 2, 48, 54, 24, 14, 3362, 1502);
        } else if level == 3 {
            block_values(38, 3, 42, 45, 15, 32, 3362, 1142);
        }
    }
    else if version == 39 {
        if level == 0 {
            block_values(39, 0, 20, 147, 117, 4, 3532, 2812);
        } else if level == 1 {
            block_values(39, 1, 40, 75, 47, 7, 3532, 2216);
        } else if level == 2 {
            block_values(39, 2, 43, 54, 24, 22, 3532, 1582);
        } else if level == 3 {
            block_values(39, 3, 10, 45, 15, 67, 3532, 1222);
        }
    }
    else if version == 40 {
        if level == 0 {
            block_values(40, 0, 19, 148, 118, 6, 3706, 2956);
        } else if level == 1 {
            block_values(40, 1, 18, 75, 47, 31, 3706, 2334);
        } else if level == 2 {
            block_values(40, 2, 34, 54, 24, 34, 3706, 1666);
        } else if level == 3 {
            block_values(40, 3, 20, 45, 15, 61, 3706, 1276);
        }
    }
}

/// The error correction block layout of a version and level.
pub fn get_block_info(version: u32, level: u8) -> (r: VersionBlockInfo)
    requires
        1 <= version <= 40,
        level < 4,
    ensures
        r.0 == spec_block_info(version as int, level as int).0,
        r.1 == spec_block_info(version as int, level as int).1,
        r.2 == spec_block_info(version as int, level as int).2,
        r.3 matches Some((a, b, c)) ==> spec_block_info(version as int, level as int).3 == Some((a as int, b as int, c as int)),
        r.3 is None ==> spec_block_info(version as int, level as int).3 is None,
{
    proof { lemma_block_info(version as int, level as int); }
    let base = (version as usize - 1) * 16 + level as usize * 4;
    let bc1 = EC_BLOCK_TABLE[base];
    let cw1 = EC_BLOCK_TABLE[base + 1];
    let dcw1 = EC_BLOCK_TABLE[base + 2];
    let bc2 = EC_BLOCK_TABLE[base + 3];
    let opt = if bc2 == 0 { None } else { Some((bc2, cw1 + 1, dcw1 + 1)) };
    (bc1, cw1, dcw1, opt)
}

/// The number of data codewords of each level (L, M, Q, H, 40 versions each).
pub const DATA_CODEWORDS: [usize; 160] = [
    19, 34, 55, 80, 108, 136, 156, 194, 232, 274, 324, 370, 428, 461, 523, 589, 647, 721, 795, 861, 932, 1006, 1094, 1174, 1276, 1370, 1468, 1531, 1631, 1735, 1843, 1955, 2071, 2191, 2306, 2434, 2566, 2702, 2812, 2956,
    16, 28, 44, 64, 86, 108, 124, 154, 182, 216, 254, 290, 334, 365, 415, 453, 507, 563, 627, 669, 714, 782, 860, 914, 1000, 1062, 1128, 1193, 1267, 1373, 1455, 1541, 1631, 1725, 1812, 1914, 1992, 2102, 2216, 2334,
    13, 22, 34, 48, 62, 76, 88, 110, 132, 154, 180, 206, 244, 261, 295, 325, 367, 397, 445, 485, 512, 568, 614, 664, 718, 754, 808, 871, 911, 985, 1033, 1115, 1171, 1231, 1286, 1354, 1426, 1502, 1582, 1666,
    9, 16, 26, 36, 46, 60, 66, 86, 100, 122, 140, 158, 180, 197, 223, 253, 283, 313, 341, 385, 406, 442, 464, 514, 538, 596, 628, 661, 701, 745, 793, 845, 901, 961, 986, 1054, 1096, 1142, 1222, 1276
];

/// The data codewords available at a level (0 to 3) and version (1 to 40).
pub open spec fn data_codewords(level: int, version: int) -> int {
    DATA_CODEWORDS@[level * 40 + version - 1] as int
}

/// Bits of the character count indicator, by size class (versions 1 to 9,
/// 10 to 26, 27 to 40) and mode (numeric, alphanumeric, ASCII, kanji).
pub const CC_INDICATOR_BITS: [usize; 12] = [10, 9, 8, 8, 12, 11, 16, 10, 14, 13, 16, 12];

/// The column of a mode in `CC_INDICATOR_BITS`.
pub open spec fn mode_column(mode: Mode) -> int {
    mode.rank()
}

/// Bits of the character count indicator of a mode in a size class (0 to 2).
pub open spec fn spec_cc_bits(class: int, mode: Mode) -> int {
    CC_INDICATOR_BITS@[class * 4 + mode_column(mode)] as int
}

/// The character count indicator lengths of the three size classes.
pub proof fn lemma_cc_bits(class: int, mode: Mode)
    requires
        0 <= class < 3,
    ensures
        8 <= spec_cc_bits(class, mode) <= 16,
        class == 0 ==> spec_cc_bits(class, mode) == (match mode {
            Mode::Numeric => 10int, Mode::AlphaNum => 9, Mode::ASCII => 8, Mode::Kanji => 8 }),
        class == 1 ==> spec_cc_bits(class, mode) == (match mode {
            Mode::Numeric => 12int, Mode::AlphaNum => 11, Mode::ASCII => 16, Mode::Kanji => 10 }),
        class == 2 ==> spec_cc_bits(class, mode) == (match mode {
            Mode::Numeric => 14int, Mode::AlphaNum => 13, Mode::ASCII => 16, Mode::Kanji => 12 }),
{
}

/// The length of the character count indicator of a mode in a size class.
pub fn cc_indicator_bit_size(class: u8, mode: Mode) -> (r: usize)
    requires
        class < 3,
    ensures
        r == spec_cc_bits(class as int, mode),
{
    let column: usize = match mode {
        Mode::Numeric => 0,
        Mode::AlphaNum => 1,
        Mode::ASCII => 2,
        Mode::Kanji => 3,
    };
    CC_INDICATOR_BITS[class as usize * 4 + column]
}

/// The size class of a version: 0 for versions 1 to 9, 1 for 10 to 26, 2
/// for 27 to 40.
pub open spec fn spec_version_class(version: int) -> int {
    if version <= 9 {
        0
    } else if version <= 26 {
        1
    } else {
        2
    }
}

/// The size class of a version: 0 for 1 to 9, 1 for 10 to 26, 2 for 27 to 40.
pub fn version_to_class(version: u32) -> (r: u8)
    requires
        1 <= version <= 40,
    ensures
        r == spec_version_class(version as int),
{
    if version <= 9 {
        0
    } else if version <= 26 {
        1
    } else {
        2
    }
}

/// The characters of the alphanumeric mode, in the order of their values.
pub open spec fn alphanum_set() -> Seq<char> {
    seq!['0', '1', '2', '3', '4', '5', '6', '7', '8', '9',
        'A', 'B', 'C', 'D', 'E', 'F', 'G', 'H', 'I', 'J', 'K', 'L', 'M',
        'N', 'O', 'P', 'Q', 'R', 'S', 'T', 'U', 'V', 'W', 'X', 'Y', 'Z',
        ' ', '$', '%', '*', '+', '-', '.', '/', ':']
}

/// The value of `c` in the alphanumeric mode: its first position in the set.
pub open spec fn spec_alphanum_value(c: char) -> Option<int> {
    if '0' <= c <= '9' {
        Some(c as int - '0' as int)
    } else if 'A' <= c <= 'Z' {
        Some(c as int - 'A' as int + 10)
    } else if c == ' ' {
        Some(36)
    } else if c == '$' {
        Some(37)
    } else if c == '%' {
        Some(38)
    } else if c == '*' {
        Some(39)
    } else if c == '+' {
        Some(40)
    } else if c == '-' {
        Some(41)
    } else if c == '.' {
        Some(42)
    } else if c == '/' {
        Some(43)
    } else if c == ':' {
        Some(44)
    } else {
        None
    }
}

/// The value of a character in the alphanumeric set is where it stands in
/// the set.
pub proof fn lemma_alphanum_value(c: char)
    ensures
        spec_alphanum_value(c) matches Some(i) ==> 0 <= i < 45 && alphanum_set()[i] == c,
        spec_alphanum_value(c) is None ==> !alphanum_set().contains(c),
{
    if spec_alphanum_value(c) is None {
        if alphanum_set().contains(c) {
            let i = choose|i: int| 0 <= i < alphanum_set().len() && alphanum_set()[i] == c;
            assert(false);
        }
    }
}

/// The characters of the alphanumeric set are distinct.
pub proof fn lemma_alphanum_set_distinct(a: int, b: int)
    requires
        0 <= a < 45,
        0 <= b < 45,
        alphanum_set()[a] == alphanum_set()[b],
    ensures
        a == b,
{
    let t = alphanum_set();
    assert(t[a] as u32 == t[b] as u32);
    assert(forall|i: int, j: int| 0 <= i < j < 45 ==> #[trigger] t[i] as u32 != #[trigger] t[j] as u32);
}

/// Finds a character in the alphanumeric set.
pub fn alphanum_value(c: char) -> (r: Option<u16>)
    ensures
        r matches Some(v) ==> spec_alphanum_value(c) == Some(v as int),
        r is None ==> spec_alphanum_value(c) is None,
{
    if '0' <= c && c <= '9' {
        Some((c as u32 - '0' as u32) as u16)
    } else if 'A' <= c && c <= 'Z' {
        Some((c as u32 - 'A' as u32 + 10) as u16)
    } else if c == ' ' {
        Some(36)
    } else if c == '$' {
        Some(37)
    } else if c == '%' {
        Some(38)
    } else if c == '*' {
        Some(39)
    } else if c == '+' {
        Some(40)
    } else if c == '-' {
        Some(41)
    } else if c == '.' {
        Some(42)
    } else if c == '/' {
        Some(43)
    } else if c == ':' {
        Some(44)
    } else {
        None
    }
}

/// The ECI designator of UTF-8.
pub const ECI_UTF8: u32 = 26;

} // verus!
