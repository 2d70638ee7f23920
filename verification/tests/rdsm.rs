use qr::rdsm::galois::{table_multiply, table_divide, qr_generate_fcode, qr_fcode_is_good, carryless_divide, bit_length};
use qr::rdsm::poly::{encode_message, polynomial_add, es_polynomial_multiply};

#[test]
fn multiply_divide_inverse() {
    for x in 1..=255u8 {
        for y in [1u8, 2, 3, 29, 142, 255] {
            assert_eq!(table_divide(table_multiply(x, y), y), x);
        }
    }
    assert_eq!(table_multiply(0, 7), 0);
    assert_eq!(table_multiply(2, 128), 29);
}

#[test]
fn format_codes_are_good() {
    for f in 0..32u8 {
        let code = qr_generate_fcode(f).unwrap();
        assert!(qr_fcode_is_good(code));
        assert_eq!(code >> 10, f as u16);
    }
    assert_eq!(qr_generate_fcode(32), None);
}

#[test]
fn carryless_division() {
    assert_eq!(bit_length(0), 0);
    assert_eq!(bit_length(0x537), 11);
    assert_eq!(carryless_divide(0b1010001111010, 0x11d), 0b11000011);
}

#[test]
fn reed_solomon_example() {
    // version 1-M "HELLO WORLD"
    let data = vec![32u8, 91, 11, 120, 209, 114, 220, 77, 67, 64, 236, 17, 236, 17, 236, 17];
    let encoded = encode_message(&data, 10);
    assert_eq!(&encoded[..16], &data[..]);
    assert_eq!(&encoded[16..], &[196u8, 35, 39, 119, 235, 215, 231, 226, 93, 23][..]);
}

#[test]
fn polynomial_arithmetic() {
    assert_eq!(polynomial_add(&vec![1, 2, 3], &vec![5, 6]), vec![1, 7, 5]);
    assert_eq!(es_polynomial_multiply(&vec![1, 1], &vec![1, 2]), vec![1, 3, 2]);
}
