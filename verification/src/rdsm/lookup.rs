use vstd::prelude::*;

verus! {

/// Powers of the primitive element 2 of GF(2^8): `EXP_TABLE[k]` is 2^k.
pub const EXP_TABLE: [u8; 255] = [
    0x01, 0x02, 0x04, 0x08, 0x10, 0x20, 0x40, 0x80, 0x1D, 0x3A, 0x74, 0xE8, 0xCD, 0x87, 0x13,
    0x26, 0x4C, 0x98, 0x2D, 0x5A, 0xB4, 0x75, 0xEA, 0xC9, 0x8F, 0x03, 0x06, 0x0C, 0x18, 0x30,
    0x60, 0xC0, 0x9D, 0x27, 0x4E, 0x9C, 0x25, 0x4A, 0x94, 0x35, 0x6A, 0xD4, 0xB5, 0x77, 0xEE,
    0xC1, 0x9F, 0x23, 0x46, 0x8C, 0x05, 0x0A, 0x14, 0x28, 0x50, 0xA0, 0x5D, 0xBA, 0x69, 0xD2,
    0xB9, 0x6F, 0xDE, 0xA1, 0x5F, 0xBE, 0x61, 0xC2, 0x99, 0x2F, 0x5E, 0xBC, 0x65, 0xCA, 0x89,
    0x0F, 0x1E, 0x3C, 0x78, 0xF0, 0xFD, 0xE7, 0xD3, 0xBB, 0x6B, 0xD6, 0xB1, 0x7F, 0xFE, 0xE1,
    0xDF, 0xA3, 0x5B, 0xB6, 0x71, 0xE2, 0xD9, 0xAF, 0x43, 0x86, 0x11, 0x22, 0x44, 0x88, 0x0D,
    0x1A, 0x34, 0x68, 0xD0, 0xBD, 0x67, 0xCE, 0x81, 0x1F, 0x3E, 0x7C, 0xF8, 0xED, 0xC7, 0x93,
    0x3B, 0x76, 0xEC, 0xC5, 0x97, 0x33, 0x66, 0xCC, 0x85, 0x17, 0x2E, 0x5C, 0xB8, 0x6D, 0xDA,
    0xA9, 0x4F, 0x9E, 0x21, 0x42, 0x84, 0x15, 0x2A, 0x54, 0xA8, 0x4D, 0x9A, 0x29, 0x52, 0xA4,
    0x55, 0xAA, 0x49, 0x92, 0x39, 0x72, 0xE4, 0xD5, 0xB7, 0x73, 0xE6, 0xD1, 0xBF, 0x63, 0xC6,
    0x91, 0x3F, 0x7E, 0xFC, 0xE5, 0xD7, 0xB3, 0x7B, 0xF6, 0xF1, 0xFF, 0xE3, 0xDB, 0xAB, 0x4B,
    0x96, 0x31, 0x62, 0xC4, 0x95, 0x37, 0x6E, 0xDC, 0xA5, 0x57, 0xAE, 0x41, 0x82, 0x19, 0x32,
    0x64, 0xC8, 0x8D, 0x07, 0x0E, 0x1C, 0x38, 0x70, 0xE0, 0xDD, 0xA7, 0x53, 0xA6, 0x51, 0xA2,
    0x59, 0xB2, 0x79, 0xF2, 0xF9, 0xEF, 0xC3, 0x9B, 0x2B, 0x56, 0xAC, 0x45, 0x8A, 0x09, 0x12,
    0x24, 0x48, 0x90, 0x3D, 0x7A, 0xF4, 0xF5, 0xF7, 0xF3, 0xFB, 0xEB, 0xCB, 0x8B, 0x0B, 0x16,
    0x2C, 0x58, 0xB0, 0x7D, 0xFA, 0xE9, 0xCF, 0x83, 0x1B, 0x36, 0x6C, 0xD8, 0xAD, 0x47, 0x8E,
];

/// Discrete logarithms base 2: `LOG_TABLE[e - 1]` is the k with 2^k = e.
pub const LOG_TABLE: [u8; 255] = [
    0x00, 0x01, 0x19, 0x02, 0x32, 0x1A, 0xC6, 0x03, 0xDF, 0x33, 0xEE, 0x1B, 0x68, 0xC7, 0x4B,
    0x04, 0x64, 0xE0, 0x0E, 0x34, 0x8D, 0xEF, 0x81, 0x1C, 0xC1, 0x69, 0xF8, 0xC8, 0x08, 0x4C,
    0x71, 0x05, 0x8A, 0x65, 0x2F, 0xE1, 0x24, 0x0F, 0x21, 0x35, 0x93, 0x8E, 0xDA, 0xF0, 0x12,
    0x82, 0x45, 0x1D, 0xB5, 0xC2, 0x7D, 0x6A, 0x27, 0xF9, 0xB9, 0xC9, 0x9A, 0x09, 0x78, 0x4D,
    0xE4, 0x72, 0xA6, 0x06, 0xBF, 0x8B, 0x62, 0x66, 0xDD, 0x30, 0xFD, 0xE2, 0x98, 0x25, 0xB3,
    0x10, 0x91, 0x22, 0x88, 0x36, 0xD0, 0x94, 0xCE, 0x8F, 0x96, 0xDB, 0xBD, 0xF1, 0xD2, 0x13,
    0x5C, 0x83, 0x38, 0x46, 0x40, 0x1E, 0x42, 0xB6, 0xA3, 0xC3, 0x48, 0x7E, 0x6E, 0x6B, 0x3A,
    0x28, 0x54, 0xFA, 0x85, 0xBA, 0x3D, 0xCA, 0x5E, 0x9B, 0x9F, 0x0A, 0x15, 0x79, 0x2B, 0x4E,
    0xD4, 0xE5, 0xAC, 0x73, 0xF3, 0xA7, 0x57, 0x07, 0x70, 0xC0, 0xF7, 0x8C, 0x80, 0x63, 0x0D,
    0x67, 0x4A, 0xDE, 0xED, 0x31, 0xC5, 0xFE, 0x18, 0xE3, 0xA5, 0x99, 0x77, 0x26, 0xB8, 0xB4,
    0x7C, 0x11, 0x44, 0x92, 0xD9, 0x23, 0x20, 0x89, 0x2E, 0x37, 0x3F, 0xD1, 0x5B, 0x95, 0xBC,
    0xCF, 0xCD, 0x90, 0x87, 0x97, 0xB2, 0xDC, 0xFC, 0xBE, 0x61, 0xF2, 0x56, 0xD3, 0xAB, 0x14,
    0x2A, 0x5D, 0x9E, 0x84, 0x3C, 0x39, 0x53, 0x47, 0x6D, 0x41, 0xA2, 0x1F, 0x2D, 0x43, 0xD8,
    0xB7, 0x7B, 0xA4, 0x76, 0xC4, 0x17, 0x49, 0xEC, 0x7F, 0x0C, 0x6F, 0xF6, 0x6C, 0xA1, 0x3B,
    0x52, 0x29, 0x9D, 0x55, 0xAA, 0xFB, 0x60, 0x86, 0xB1, 0xBB, 0xCC, 0x3E, 0x5A, 0xCB, 0x59,
    0x5F, 0xB0, 0x9C, 0xA9, 0xA0, 0x51, 0x0B, 0xF5, 0x16, 0xEB, 0x7A, 0x75, 0x2C, 0xD7, 0x4F,
    0xAE, 0xD5, 0xE9, 0xE6, 0xE7, 0xAD, 0xE8, 0x74, 0xD6, 0xF4, 0xEA, 0xA8, 0x50, 0x58, 0xAF,
];

/// Entry `k` of the power table: 2^k in GF(2^8), for `k < 255`.
pub closed spec fn exp_entry(k: int) -> u8 {
    EXP_TABLE@[k]
}

/// The logarithm table's entry for the non-zero element `e`.
pub closed spec fn log_entry(e: int) -> nat {
    LOG_TABLE@[e - 1] as nat
}

/// Looks up 2^k in the power table.
pub fn exp_lookup(k: usize) -> (r: u8)
    requires
        k < 255,
    ensures
        r == exp_entry(k as int),
{
    EXP_TABLE[k]
}

/// Looks up the logarithm of the non-zero element `e`.
pub fn log_lookup(e: u8) -> (r: u8)
    requires
        e != 0,
    ensures
        r == log_entry(e as int),
{
    LOG_TABLE[(e - 1) as usize]
}

/// The Reed-Solomon generator polynomials used by QR codes, one after
/// another, each from its highest power of x down.
pub const GENERATOR_DATA: [u8; 1189] = [
    0x01, 0x7F, 0x7A, 0x9A, 0xA4, 0x0B, 0x44, 0x75, 0x01, 0xD8, 0xC2, 0x9F, 0x6F, 0xC7, 0x5E,
    0x5F, 0x71, 0x9D, 0xC1, 0x01, 0x89, 0x49, 0xE3, 0x11, 0xB1, 0x11, 0x34, 0x0D, 0x2E, 0x2B,
    0x53, 0x84, 0x78, 0x01, 0x1D, 0xC4, 0x6F, 0xA3, 0x70, 0x4A, 0x0A, 0x69, 0x69, 0x8B, 0x84,
    0x97, 0x20, 0x86, 0x1A, 0x01, 0x3B, 0x0D, 0x68, 0xBD, 0x44, 0xD1, 0x1E, 0x08, 0xA3, 0x41,
    0x29, 0xE5, 0x62, 0x32, 0x24, 0x3B, 0x01, 0x77, 0x42, 0x53, 0x78, 0x77, 0x16, 0xC5, 0x53,
    0xF9, 0x29, 0x8F, 0x86, 0x55, 0x35, 0x7D, 0x63, 0x4F, 0x01, 0xEF, 0xFB, 0xB7, 0x71, 0x95,
    0xAF, 0xC7, 0xD7, 0xF0, 0xDC, 0x49, 0x52, 0xAD, 0x4B, 0x20, 0x43, 0xD9, 0x92, 0x01, 0x98,
    0xB9, 0xF0, 0x05, 0x6F, 0x63, 0x06, 0xDC, 0x70, 0x96, 0x45, 0x24, 0xBB, 0x16, 0xE4, 0xC6,
    0x79, 0x79, 0xA5, 0xAE, 0x01, 0x59, 0xB3, 0x83, 0xB0, 0xB6, 0xF4, 0x13, 0xBD, 0x45, 0x28,
    0x1C, 0x89, 0x1D, 0x7B, 0x43, 0xFD, 0x56, 0xDA, 0xE6, 0x1A, 0x91, 0xF5, 0x01, 0x7A, 0x76,
    0xA9, 0x46, 0xB2, 0xED, 0xD8, 0x66, 0x73, 0x96, 0xE5, 0x49, 0x82, 0x48, 0x3D, 0x2B, 0xCE,
    0x01, 0xED, 0xF7, 0x7F, 0xD9, 0x90, 0x75, 0x01, 0xF6, 0x33, 0xB7, 0x04, 0x88, 0x62, 0xC7,
    0x98, 0x4D, 0x38, 0xCE, 0x18, 0x91, 0x28, 0xD1, 0x75, 0xE9, 0x2A, 0x87, 0x44, 0x46, 0x90,
    0x92, 0x4D, 0x2B, 0x5E, 0x01, 0xFC, 0x09, 0x1C, 0x0D, 0x12, 0xFB, 0xD0, 0x96, 0x67, 0xAE,
    0x64, 0x29, 0xA7, 0x0C, 0xF7, 0x38, 0x75, 0x77, 0xE9, 0x7F, 0xB5, 0x64, 0x79, 0x93, 0xB0,
    0x4A, 0x3A, 0xC5, 0x01, 0xD4, 0xF6, 0x4D, 0x49, 0xC3, 0xC0, 0x4B, 0x62, 0x05, 0x46, 0x67,
    0xB1, 0x16, 0xD9, 0x8A, 0x33, 0xB5, 0xF6, 0x48, 0x19, 0x12, 0x2E, 0xE4, 0x4A, 0xD8, 0xC3,
    0x0B, 0x6A, 0x82, 0x96, 0x01, 0x74, 0x40, 0x34, 0xAE, 0x36, 0x7E, 0x10, 0xC2, 0xA2, 0x21,
    0x21, 0x9D, 0xB0, 0xC5, 0xE1, 0x0C, 0x3B, 0x37, 0xFD, 0xE4, 0x94, 0x2F, 0xB3, 0xB9, 0x18,
    0x8A, 0xFD, 0x14, 0x8E, 0x37, 0xAC, 0x58, 0x01, 0xCE, 0x3C, 0x9A, 0x71, 0x06, 0x75, 0xD0,
    0x5A, 0x1A, 0x71, 0x1F, 0x19, 0xB1, 0x84, 0x63, 0x33, 0x69, 0xB7, 0x7A, 0x16, 0x2B, 0x88,
    0x5D, 0x5E, 0x3E, 0x6F, 0xC4, 0x17, 0x7E, 0x87, 0x43, 0xDE, 0x17, 0x0A, 0x01, 0x1C, 0xC4,
    0x43, 0x4C, 0x7B, 0xC0, 0xCF, 0xFB, 0xB9, 0x49, 0x7C, 0x01, 0x7E, 0x49, 0x1F, 0x1B, 0x0B,
    0x68, 0x2D, 0xA1, 0x2B, 0x4A, 0x7F, 0x59, 0x1A, 0xDB, 0x3B, 0x89, 0x76, 0xC8, 0xED, 0xD8,
    0x1F, 0xF3, 0x60, 0x3B, 0x01, 0xD2, 0xF8, 0xF0, 0xD1, 0xAD, 0x43, 0x85, 0xA7, 0x85, 0xD1,
    0x83, 0xBA, 0x63, 0x5D, 0xEB, 0x34, 0x28, 0x06, 0xDC, 0xF1, 0x48, 0x0D, 0xD7, 0x80, 0xFF,
    0x9C, 0x31, 0x3E, 0xFE, 0xD4, 0x23, 0x63, 0x33, 0xDA, 0x65, 0xB4, 0xF7, 0x28, 0x9C, 0x26,
    0x01, 0x6C, 0x88, 0x45, 0xF4, 0x03, 0x2D, 0x9E, 0xF5, 0x01, 0x08, 0x69, 0xB0, 0x45, 0x41,
    0x67, 0x6B, 0xF4, 0x1D, 0xA5, 0x34, 0xD9, 0x29, 0x26, 0x5C, 0x42, 0x4E, 0x22, 0x09, 0x35,
    0x22, 0xF2, 0x0E, 0x8B, 0x8E, 0x38, 0xC5, 0xB3, 0xBF, 0x32, 0xED, 0x05, 0xD9, 0x01, 0xAE,
    0x80, 0x6F, 0x76, 0xBC, 0xCF, 0x2F, 0xA0, 0xFC, 0xA5, 0xE1, 0x7D, 0x41, 0x03, 0x65, 0xC5,
    0x3A, 0x4D, 0x13, 0x83, 0x02, 0x0B, 0xEE, 0x78, 0x54, 0xDE, 0x12, 0x66, 0xC7, 0x3E, 0x99,
    0x63, 0x14, 0x32, 0x9B, 0x29, 0xDD, 0xE5, 0x4A, 0x2E, 0x1F, 0x44, 0xCA, 0x31, 0x01, 0x81,
    0x71, 0xFE, 0x81, 0x47, 0x12, 0x70, 0x7C, 0xDC, 0x86, 0xE1, 0x20, 0x50, 0x1F, 0x17, 0xEE,
    0x69, 0x4C, 0xA9, 0xC3, 0xE5, 0xB2, 0x25, 0x02, 0x10, 0xD9, 0xB9, 0x58, 0xCA, 0x0D, 0xFB,
    0x1D, 0x36, 0xE9, 0x93, 0xF1, 0x14, 0x03, 0xD5, 0x12, 0x77, 0x70, 0x09, 0x5A, 0xD3, 0x26,
    0x01, 0x3D, 0x03, 0xC8, 0x2E, 0xB2, 0x9A, 0xB9, 0x8F, 0xD8, 0xDF, 0x35, 0x44, 0x2C, 0x6F,
    0xAB, 0xA1, 0x9F, 0xC5, 0x7C, 0x2D, 0x45, 0xCE, 0xA9, 0xE6, 0x62, 0xA7, 0x68, 0x53, 0xE2,
    0x55, 0x3B, 0x95, 0xA3, 0x75, 0x83, 0xE4, 0x84, 0x0B, 0x41, 0xE8, 0x71, 0x90, 0x6B, 0x05,
    0x63, 0x35, 0x4E, 0xD0, 0x01, 0xF7, 0x33, 0xD5, 0xD1, 0xC6, 0x3A, 0xC7, 0x9F, 0xA2, 0x86,
    0xE0, 0x19, 0x9C, 0x08, 0xA2, 0xCE, 0x64, 0xB0, 0xE0, 0x24, 0x9F, 0x87, 0x9D, 0xE6, 0x66,
    0xA2, 0x2E, 0xE6, 0xB0, 0xEF, 0xB0, 0x0F, 0x3C, 0xB5, 0x57, 0x9D, 0x1F, 0xBE, 0x97, 0x2F,
    0x3D, 0x3E, 0xEB, 0xFF, 0x97, 0xD7, 0xEF, 0xF7, 0x6D, 0xA7, 0x01, 0xF8, 0x05, 0xB1, 0x6E,
    0x05, 0xAC, 0xD8, 0xE1, 0x82, 0x9F, 0xB1, 0xCC, 0x97, 0x5A, 0x95, 0xF3, 0xAA, 0xEF, 0xEA,
    0x13, 0xD2, 0x4D, 0x4A, 0xB0, 0xE0, 0xDA, 0x8E, 0xE1, 0xAE, 0x71, 0xD2, 0xBE, 0x97, 0x1F,
    0x11, 0xF3, 0xEB, 0x76, 0xEA, 0x1E, 0xB1, 0xAF, 0x35, 0xB0, 0x1C, 0xAC, 0x22, 0x27, 0x16,
    0x8E, 0xF8, 0x0A, 0x01, 0xC4, 0x06, 0x38, 0x7F, 0x59, 0x45, 0x1F, 0x75, 0x9F, 0xBE, 0xC1,
    0x05, 0x0B, 0x95, 0x36, 0x24, 0x44, 0x69, 0xA2, 0x2B, 0xBD, 0x91, 0x06, 0xE2, 0x95, 0x82,
    0x14, 0xE9, 0x9C, 0x8E, 0x0B, 0xFF, 0x7B, 0xF0, 0xC5, 0x03, 0xEC, 0x77, 0x3B, 0xD0, 0xEF,
    0xFD, 0x85, 0x38, 0xEB, 0x1D, 0x92, 0xD2, 0x22, 0xC0, 0x07, 0x1E, 0xC0, 0xE4, 0x01, 0x34,
    0x3B, 0x68, 0xD5, 0xC6, 0xC3, 0x81, 0xF8, 0x04, 0xA3, 0x1B, 0x63, 0x25, 0x38, 0x70, 0x7A,
    0x40, 0xA8, 0x8E, 0x72, 0xA9, 0x51, 0xD7, 0xA2, 0xCD, 0x42, 0xCC, 0x2A, 0x62, 0x36, 0xDB,
    0xF1, 0xAE, 0x18, 0x74, 0xD6, 0x16, 0x95, 0x22, 0x97, 0x49, 0x53, 0xD9, 0xC9, 0x63, 0x6F,
    0x0C, 0xC8, 0x83, 0xAA, 0x39, 0x70, 0xA6, 0xB4, 0x6F, 0x74, 0x01, 0xD3, 0xF8, 0x06, 0x83,
    0x61, 0x0C, 0xDE, 0x68, 0xAD, 0x62, 0x1C, 0x37, 0xEB, 0xA0, 0xD8, 0xB0, 0x59, 0xA8, 0x39,
    0x8B, 0xE3, 0x15, 0x82, 0x1B, 0x49, 0x36, 0x53, 0xD6, 0x47, 0x2A, 0xBE, 0x91, 0x33, 0xC9,
    0x8F, 0x60, 0xEC, 0x2C, 0xF9, 0x40, 0x17, 0x2B, 0x30, 0x4D, 0xCC, 0xDA, 0x53, 0xE9, 0xED,
    0x30, 0xD4, 0xA1, 0x73, 0x2A, 0xF3, 0x33, 0x52, 0xC5, 0x01, 0x68, 0x84, 0x06, 0xCD, 0x3A,
    0x15, 0x7D, 0x8D, 0x48, 0x8D, 0x56, 0xC1, 0xB2, 0x22, 0x56, 0x3B, 0x18, 0x31, 0xCC, 0x40,
    0x11, 0x83, 0x04, 0xA7, 0x07, 0xBA, 0x7C, 0x56, 0x22, 0xBD, 0xE6, 0xD3, 0x4A, 0x94, 0x0B,
    0x8C, 0xE6, 0xA2, 0x76, 0xB1, 0xE8, 0x97, 0x60, 0x31, 0x6B, 0x03, 0x32, 0x7F, 0xBE, 0x44,
    0xAE, 0xAC, 0x5E, 0x0C, 0xA2, 0x4C, 0xE1, 0x80, 0x27, 0x2C, 0x01, 0xBE, 0x70, 0x1F, 0x43,
    0xBC, 0x09, 0x1B, 0xC7, 0xF9, 0x71, 0x01, 0xEC, 0x4A, 0xC9, 0x04, 0x3D, 0x69, 0x76, 0x80,
    0x1A, 0xA9, 0x78, 0x7D, 0xC7, 0x5E, 0x1E, 0x09, 0xE1, 0x65, 0x05, 0x5E, 0xCE, 0x32, 0x98,
    0x79, 0x66, 0x31, 0x9C, 0x45, 0xED, 0xEB, 0xE8, 0x7A, 0xA4, 0x29, 0xC5, 0xF2, 0x6A, 0x7C,
    0x40, 0x1C, 0x11, 0x06, 0xCF, 0x62, 0x2B, 0xCC, 0xEF, 0x25, 0x6E, 0x67, 0x34, 0x01, 0xC1,
    0x0A, 0xFF, 0x3A, 0x80, 0xB7, 0x73, 0x8C, 0x99, 0x93, 0x5B, 0xC5, 0xDB, 0xDD, 0xDC, 0x8E,
    0x1C, 0x78, 0x15, 0xA4, 0x93, 0x06, 0xCC, 0x28, 0xE6, 0xB6, 0x0E, 0x79, 0x30, 0x8F, 0x4D,
    0xE4, 0x51, 0x55, 0x2B, 0xA2, 0x10, 0xC3, 0xA3, 0x23, 0x95, 0x9A, 0x23, 0x84, 0x64, 0x64,
    0x33, 0xB0, 0x0B, 0xA1, 0x86, 0xD0, 0x84, 0xF4, 0xB0, 0xC0, 0xDD, 0xE8, 0xAB, 0x7D, 0x9B,
    0xE4, 0xF2, 0xF5, 0x01, 0x20, 0xC7, 0x8A, 0x96, 0x4F, 0x4F, 0xBF, 0x0A, 0x9F, 0xED, 0x87,
    0xEF, 0xE7, 0x98, 0x42, 0x83, 0x8D, 0xB3, 0xE2, 0xF6, 0xBE, 0x9E, 0xAB, 0x99, 0xCE, 0xE2,
    0x22, 0xD4, 0x65, 0xF9, 0xE5, 0x8D, 0xE2, 0x80, 0xEE, 0x39, 0x3C, 0xCE, 0xCB, 0x6A, 0x76,
    0x54, 0xA1, 0x7F, 0xFD, 0x47, 0x2C, 0x66, 0x9B, 0x3C, 0x4E, 0xF7, 0x34, 0x05, 0xFC, 0xD3,
    0x1E, 0x9A, 0xC2, 0x34, 0xB3, 0x03, 0xB8, 0xB6, 0xC1, 0x1A, 0x01, 0x83, 0x73, 0x09, 0x27,
    0x12, 0xB6, 0x3C, 0x5E, 0xDF, 0xE6, 0x9D, 0x8E, 0x77, 0x55, 0x6B, 0x22, 0xAE, 0xA7, 0x6D,
    0x14, 0xB9, 0x70, 0x91, 0xAC, 0xE0, 0xAA, 0xB6, 0x6B, 0x26, 0x6B, 0x47, 0xF6, 0xE6, 0xE1,
    0x90, 0x14, 0x0E, 0xAF, 0xE2, 0xF5, 0x14, 0xDB, 0xD4, 0x33, 0x9E, 0x58, 0x3F, 0x24, 0xC7,
    0x04, 0x50, 0x9D, 0xD3, 0xEF, 0xFF, 0x07, 0x77, 0x0B, 0xEB, 0x0C, 0x22, 0x95, 0xCC, 0x08,
    0x20, 0x1D, 0x63, 0x0B,
];

/// Where each generator polynomial starts in `GENERATOR_DATA`; the last entry
/// is where the last polynomial ends.
pub const GENERATOR_OFFSETS: [usize; 32] = [
    0, 8, 19, 33, 49, 66, 84, 103, 124, 147, 172, 199, 228, 259, 292, 327, 364, 405, 448, 493, 540, 589, 640, 693, 748, 805, 864, 925, 988, 1053, 1120, 1189,
];

/// The stored generator polynomial number `i`, for `i < 31`.
pub closed spec fn generator_entry(i: int) -> Seq<u8> {
    GENERATOR_DATA@.subrange(GENERATOR_OFFSETS@[i] as int, GENERATOR_OFFSETS@[i + 1] as int)
}

/// The number of error correction codewords that the stored generator
/// polynomial number `i` makes.
pub open spec fn generator_ec(i: int) -> nat {
        if i == 0 { 7 }
        else if i == 1 { 10 }
        else if i == 2 { 13 }
        else if i == 3 { 15 }
        else if i == 4 { 16 }
        else if i == 5 { 17 }
        else if i == 6 { 18 }
        else if i == 7 { 20 }
        else if i == 8 { 22 }
        else if i == 9 { 24 }
        else if i == 10 { 26 }
        else if i == 11 { 28 }
        else if i == 12 { 30 }
        else if i == 13 { 32 }
        else if i == 14 { 34 }
        else if i == 15 { 36 }
        else if i == 16 { 40 }
        else if i == 17 { 42 }
        else if i == 18 { 44 }
        else if i == 19 { 46 }
        else if i == 20 { 48 }
        else if i == 21 { 50 }
        else if i == 22 { 52 }
        else if i == 23 { 54 }
        else if i == 24 { 56 }
        else if i == 25 { 58 }
        else if i == 26 { 60 }
        else if i == 27 { 62 }
        else if i == 28 { 64 }
        else if i == 29 { 66 }
        else if i == 30 { 68 }
        else { 0 }
}

proof fn lemma_generator_offsets(i: int)
    requires
        0 <= i < 31,
    ensures
        GENERATOR_OFFSETS@[i] + generator_ec(i) + 1 == GENERATOR_OFFSETS@[i + 1],
        GENERATOR_OFFSETS@[i + 1] <= 1189,
        GENERATOR_DATA@[GENERATOR_OFFSETS@[i] as int] == 1,
{
    if i == 0 {} else if i == 1 {} else if i == 2 {} else if i == 3 {} else if i == 4 {} else if i == 5 {} else if i == 6 {} else if i == 7 {}
    else if i == 8 {} else if i == 9 {} else if i == 10 {} else if i == 11 {} else if i == 12 {} else if i == 13 {} else if i == 14 {} else if i == 15 {}
    else if i == 16 {} else if i == 17 {} else if i == 18 {} else if i == 19 {} else if i == 20 {} else if i == 21 {} else if i == 22 {} else if i == 23 {}
    else if i == 24 {} else if i == 25 {} else if i == 26 {} else if i == 27 {} else if i == 28 {} else if i == 29 {} else if i == 30 {}
}

/// Each stored generator polynomial is monic, of degree `generator_ec(i)`.
pub proof fn lemma_generator_entry(i: int)
    requires
        0 <= i < 31,
    ensures
        generator_entry(i).len() == generator_ec(i) + 1,
        generator_entry(i)[0] == 1,
{
    lemma_generator_offsets(i);
}

/// Copies out the stored generator polynomial number `i`.
pub fn generator_lookup(i: usize) -> (r: Vec<u8>)
    requires
        i < 31,
    ensures
        r@ == generator_entry(i as int),
{
    proof { lemma_generator_offsets(i as int); }
    let start = GENERATOR_OFFSETS[i];
    let end = GENERATOR_OFFSETS[i + 1];
    let mut out: Vec<u8> = Vec::new();
    let mut k = start;
    while k < end
        invariant
            start <= k <= end,
            end <= 1189,
            start == GENERATOR_OFFSETS@[i as int],
            end == GENERATOR_OFFSETS@[i + 1],
            out@ == GENERATOR_DATA@.subrange(start as int, k as int),
        decreases end - k,
    {
        out.push(GENERATOR_DATA[k]);
        k = k + 1;
    }
    out
}

/// 2^0 = 1 and log 1 = 0.
pub proof fn lemma_exp_zero()
    ensures
        exp_entry(0) == 1,
        log_entry(1) == 0,
        exp_entry(1) == 2,
        log_entry(2) == 1,
{
}

/// The logarithm table inverts the power table: log(2^k) = k for k < 255.
pub proof fn lemma_log_of_exp(k: int)
    requires
        0 <= k < 255,
    ensures
        exp_entry(k) != 0,
        log_entry(exp_entry(k) as int) == k,
{
    if k == 0 {} else if k == 1 {} else if k == 2 {} else if k == 3 {} else if k == 4 {} else if k == 5 {} else if k == 6 {} else if k == 7 {}
    else if k == 8 {} else if k == 9 {} else if k == 10 {} else if k == 11 {} else if k == 12 {} else if k == 13 {} else if k == 14 {} else if k == 15 {}
    else if k == 16 {} else if k == 17 {} else if k == 18 {} else if k == 19 {} else if k == 20 {} else if k == 21 {} else if k == 22 {} else if k == 23 {}
    else if k == 24 {} else if k == 25 {} else if k == 26 {} else if k == 27 {} else if k == 28 {} else if k == 29 {} else if k == 30 {} else if k == 31 {}
    else if k == 32 {} else if k == 33 {} else if k == 34 {} else if k == 35 {} else if k == 36 {} else if k == 37 {} else if k == 38 {} else if k == 39 {}
    else if k == 40 {} else if k == 41 {} else if k == 42 {} else if k == 43 {} else if k == 44 {} else if k == 45 {} else if k == 46 {} else if k == 47 {}
    else if k == 48 {} else if k == 49 {} else if k == 50 {} else if k == 51 {} else if k == 52 {} else if k == 53 {} else if k == 54 {} else if k == 55 {}
    else if k == 56 {} else if k == 57 {} else if k == 58 {} else if k == 59 {} else if k == 60 {} else if k == 61 {} else if k == 62 {} else if k == 63 {}
    else if k == 64 {} else if k == 65 {} else if k == 66 {} else if k == 67 {} else if k == 68 {} else if k == 69 {} else if k == 70 {} else if k == 71 {}
    else if k == 72 {} else if k == 73 {} else if k == 74 {} else if k == 75 {} else if k == 76 {} else if k == 77 {} else if k == 78 {} else if k == 79 {}
    else if k == 80 {} else if k == 81 {} else if k == 82 {} else if k == 83 {} else if k == 84 {} else if k == 85 {} else if k == 86 {} else if k == 87 {}
    else if k == 88 {} else if k == 89 {} else if k == 90 {} else if k == 91 {} else if k == 92 {} else if k == 93 {} else if k == 94 {} else if k == 95 {}
    else if k == 96 {} else if k == 97 {} else if k == 98 {} else if k == 99 {} else if k == 100 {} else if k == 101 {} else if k == 102 {} else if k == 103 {}
    else if k == 104 {} else if k == 105 {} else if k == 106 {} else if k == 107 {} else if k == 108 {} else if k == 109 {} else if k == 110 {} else if k == 111 {}
    else if k == 112 {} else if k == 113 {} else if k == 114 {} else if k == 115 {} else if k == 116 {} else if k == 117 {} else if k == 118 {} else if k == 119 {}
    else if k == 120 {} else if k == 121 {} else if k == 122 {} else if k == 123 {} else if k == 124 {} else if k == 125 {} else if k == 126 {} else if k == 127 {}
    else if k == 128 {} else if k == 129 {} else if k == 130 {} else if k == 131 {} else if k == 132 {} else if k == 133 {} else if k == 134 {} else if k == 135 {}
    else if k == 136 {} else if k == 137 {} else if k == 138 {} else if k == 139 {} else if k == 140 {} else if k == 141 {} else if k == 142 {} else if k == 143 {}
    else if k == 144 {} else if k == 145 {} else if k == 146 {} else if k == 147 {} else if k == 148 {} else if k == 149 {} else if k == 150 {} else if k == 151 {}
    else if k == 152 {} else if k == 153 {} else if k == 154 {} else if k == 155 {} else if k == 156 {} else if k == 157 {} else if k == 158 {} else if k == 159 {}
    else if k == 160 {} else if k == 161 {} else if k == 162 {} else if k == 163 {} else if k == 164 {} else if k == 165 {} else if k == 166 {} else if k == 167 {}
    else if k == 168 {} else if k == 169 {} else if k == 170 {} else if k == 171 {} else if k == 172 {} else if k == 173 {} else if k == 174 {} else if k == 175 {}
    else if k == 176 {} else if k == 177 {} else if k == 178 {} else if k == 179 {} else if k == 180 {} else if k == 181 {} else if k == 182 {} else if k == 183 {}
    else if k == 184 {} else if k == 185 {} else if k == 186 {} else if k == 187 {} else if k == 188 {} else if k == 189 {} else if k == 190 {} else if k == 191 {}
    else if k == 192 {} else if k == 193 {} else if k == 194 {} else if k == 195 {} else if k == 196 {} else if k == 197 {} else if k == 198 {} else if k == 199 {}
    else if k == 200 {} else if k == 201 {} else if k == 202 {} else if k == 203 {} else if k == 204 {} else if k == 205 {} else if k == 206 {} else if k == 207 {}
    else if k == 208 {} else if k == 209 {} else if k == 210 {} else if k == 211 {} else if k == 212 {} else if k == 213 {} else if k == 214 {} else if k == 215 {}
    else if k == 216 {} else if k == 217 {} else if k == 218 {} else if k == 219 {} else if k == 220 {} else if k == 221 {} else if k == 222 {} else if k == 223 {}
    else if k == 224 {} else if k == 225 {} else if k == 226 {} else if k == 227 {} else if k == 228 {} else if k == 229 {} else if k == 230 {} else if k == 231 {}
    else if k == 232 {} else if k == 233 {} else if k == 234 {} else if k == 235 {} else if k == 236 {} else if k == 237 {} else if k == 238 {} else if k == 239 {}
    else if k == 240 {} else if k == 241 {} else if k == 242 {} else if k == 243 {} else if k == 244 {} else if k == 245 {} else if k == 246 {} else if k == 247 {}
    else if k == 248 {} else if k == 249 {} else if k == 250 {} else if k == 251 {} else if k == 252 {} else if k == 253 {} else if k == 254 {}
}

/// The power table inverts the logarithm table: 2^(log e) = e for e != 0.
pub proof fn lemma_exp_of_log(e: int)
    requires
        1 <= e <= 255,
    ensures
        log_entry(e) < 255,
        exp_entry(log_entry(e) as int) == e,
{
    if e == 1 {} else if e == 2 {} else if e == 3 {} else if e == 4 {} else if e == 5 {} else if e == 6 {} else if e == 7 {} else if e == 8 {}
    else if e == 9 {} else if e == 10 {} else if e == 11 {} else if e == 12 {} else if e == 13 {} else if e == 14 {} else if e == 15 {} else if e == 16 {}
    else if e == 17 {} else if e == 18 {} else if e == 19 {} else if e == 20 {} else if e == 21 {} else if e == 22 {} else if e == 23 {} else if e == 24 {}
    else if e == 25 {} else if e == 26 {} else if e == 27 {} else if e == 28 {} else if e == 29 {} else if e == 30 {} else if e == 31 {} else if e == 32 {}
    else if e == 33 {} else if e == 34 {} else if e == 35 {} else if e == 36 {} else if e == 37 {} else if e == 38 {} else if e == 39 {} else if e == 40 {}
    else if e == 41 {} else if e == 42 {} else if e == 43 {} else if e == 44 {} else if e == 45 {} else if e == 46 {} else if e == 47 {} else if e == 48 {}
    else if e == 49 {} else if e == 50 {} else if e == 51 {} else if e == 52 {} else if e == 53 {} else if e == 54 {} else if e == 55 {} else if e == 56 {}
    else if e == 57 {} else if e == 58 {} else if e == 59 {} else if e == 60 {} else if e == 61 {} else if e == 62 {} else if e == 63 {} else if e == 64 {}
    else if e == 65 {} else if e == 66 {} else if e == 67 {} else if e == 68 {} else if e == 69 {} else if e == 70 {} else if e == 71 {} else if e == 72 {}
    else if e == 73 {} else if e == 74 {} else if e == 75 {} else if e == 76 {} else if e == 77 {} else if e == 78 {} else if e == 79 {} else if e == 80 {}
    else if e == 81 {} else if e == 82 {} else if e == 83 {} else if e == 84 {} else if e == 85 {} else if e == 86 {} else if e == 87 {} else if e == 88 {}
    else if e == 89 {} else if e == 90 {} else if e == 91 {} else if e == 92 {} else if e == 93 {} else if e == 94 {} else if e == 95 {} else if e == 96 {}
    else if e == 97 {} else if e == 98 {} else if e == 99 {} else if e == 100 {} else if e == 101 {} else if e == 102 {} else if e == 103 {} else if e == 104 {}
    else if e == 105 {} else if e == 106 {} else if e == 107 {} else if e == 108 {} else if e == 109 {} else if e == 110 {} else if e == 111 {} else if e == 112 {}
    else if e == 113 {} else if e == 114 {} else if e == 115 {} else if e == 116 {} else if e == 117 {} else if e == 118 {} else if e == 119 {} else if e == 120 {}
    else if e == 121 {} else if e == 122 {} else if e == 123 {} else if e == 124 {} else if e == 125 {} else if e == 126 {} else if e == 127 {} else if e == 128 {}
    else if e == 129 {} else if e == 130 {} else if e == 131 {} else if e == 132 {} else if e == 133 {} else if e == 134 {} else if e == 135 {} else if e == 136 {}
    else if e == 137 {} else if e == 138 {} else if e == 139 {} else if e == 140 {} else if e == 141 {} else if e == 142 {} else if e == 143 {} else if e == 144 {}
    else if e == 145 {} else if e == 146 {} else if e == 147 {} else if e == 148 {} else if e == 149 {} else if e == 150 {} else if e == 151 {} else if e == 152 {}
    else if e == 153 {} else if e == 154 {} else if e == 155 {} else if e == 156 {} else if e == 157 {} else if e == 158 {} else if e == 159 {} else if e == 160 {}
    else if e == 161 {} else if e == 162 {} else if e == 163 {} else if e == 164 {} else if e == 165 {} else if e == 166 {} else if e == 167 {} else if e == 168 {}
    else if e == 169 {} else if e == 170 {} else if e == 171 {} else if e == 172 {} else if e == 173 {} else if e == 174 {} else if e == 175 {} else if e == 176 {}
    else if e == 177 {} else if e == 178 {} else if e == 179 {} else if e == 180 {} else if e == 181 {} else if e == 182 {} else if e == 183 {} else if e == 184 {}
    else if e == 185 {} else if e == 186 {} else if e == 187 {} else if e == 188 {} else if e == 189 {} else if e == 190 {} else if e == 191 {} else if e == 192 {}
    else if e == 193 {} else if e == 194 {} else if e == 195 {} else if e == 196 {} else if e == 197 {} else if e == 198 {} else if e == 199 {} else if e == 200 {}
    else if e == 201 {} else if e == 202 {} else if e == 203 {} else if e == 204 {} else if e == 205 {} else if e == 206 {} else if e == 207 {} else if e == 208 {}
    else if e == 209 {} else if e == 210 {} else if e == 211 {} else if e == 212 {} else if e == 213 {} else if e == 214 {} else if e == 215 {} else if e == 216 {}
    else if e == 217 {} else if e == 218 {} else if e == 219 {} else if e == 220 {} else if e == 221 {} else if e == 222 {} else if e == 223 {} else if e == 224 {}
    else if e == 225 {} else if e == 226 {} else if e == 227 {} else if e == 228 {} else if e == 229 {} else if e == 230 {} else if e == 231 {} else if e == 232 {}
    else if e == 233 {} else if e == 234 {} else if e == 235 {} else if e == 236 {} else if e == 237 {} else if e == 238 {} else if e == 239 {} else if e == 240 {}
    else if e == 241 {} else if e == 242 {} else if e == 243 {} else if e == 244 {} else if e == 245 {} else if e == 246 {} else if e == 247 {} else if e == 248 {}
    else if e == 249 {} else if e == 250 {} else if e == 251 {} else if e == 252 {} else if e == 253 {} else if e == 254 {} else if e == 255 {}
}

} // verus!
