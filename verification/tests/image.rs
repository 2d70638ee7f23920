use qr::image::{Bitmap, xy_to_index, index_to_xy};
use qr::wikiv::{carryless_divide, carryless_multiply, galois_multiply, galois_multiply_peasant_full, qr_check_fcode, qr_find_fmt, qr_generate_fcode, generate_exp_log_tables, table_multiply, gf_poly_add, gf_poly_mul, gf_poly_eval, rs_generator_poly, PRIM};
use qr::zigzag::{binarify, curve_to_text, curve_to_coords};
use qr::bitmask::apply_mask;

#[test]
fn index_roundtrip() {
    for (w, h) in [(21usize, 21usize), (8, 3), (13, 7)] {
        for x in 0..w {
            for y in 0..h {
                let (n, i) = xy_to_index(x, y, w, h).unwrap();
                assert_eq!(index_to_xy(n, i, w, h), Some((x, y)));
            }
        }
    }
    assert_eq!(xy_to_index(21, 0, 21, 21), None);
    assert_eq!(xy_to_index(9, 2, 13, 7), Some((5, 6)));
}

#[test]
fn set_and_get() {
    let mut bm = Bitmap::new(13, 7);
    assert!(bm.set_bit(12, 6, true));
    assert!(!bm.set_bit(13, 6, true));
    assert_eq!(bm.get_bit(12, 6), Some(true));
    assert_eq!(bm.get_bit(11, 6), Some(false));
    assert_eq!(bm.get_bit(13, 0), None);
    assert!(bm.set_bit(12, 6, false));
    assert_eq!(bm.get_bit(12, 6), Some(false));
    assert_eq!(bm.debug_bits().len(), 14);
}

#[test]
fn border_and_xbm() {
    let mut bm = Bitmap::new(2, 1);
    bm.set_bit(0, 0, true);
    let b = bm.add_border();
    assert_eq!(b.dims(), (18, 17));
    assert_eq!(b.get_bit(8, 8), Some(true));
    assert_eq!(b.get_bit(9, 8), Some(false));
    let again = b.clone().add_border();
    assert_eq!(again.dims(), (18, 17));
    let small = Bitmap::new(9, 1);
    let mut small = small;
    small.set_bit(0, 0, true);
    assert_eq!(small.as_xbm("x"), "#define x_width 9\n#define x_height 1\nstatic unsigned char x_bits[] = {\n    0x01, 0x00,\n};\n");
}

#[test]
fn wikiversity_multiplication() {
    let a = 0b10001001;
    let b = 0b00101010;
    assert_eq!(galois_multiply(a, b, 0), 0b1010001111010);
    assert_eq!(galois_multiply(a, b, 0x11d), 0b11000011);
    assert_eq!(carryless_multiply(a, b), 0b1010001111010);
    assert_eq!(galois_multiply_peasant_full(a, b, 0, 256, true), 0b1010001111010);
    assert_eq!(galois_multiply_peasant_full(a, b, 0x11d, 256, true), 0b11000011);
    assert_eq!(galois_multiply_peasant_full(6, 7, 0, 256, false), 42);
}

#[test]
fn wikiversity_format() {
    assert_eq!(qr_check_fcode(0b000111101011001), 0);
    assert_eq!(qr_generate_fcode(0b00011), 0b000111101011001);
    assert_eq!(qr_find_fmt(0b000111101011001), Some(0b00011));
    assert_eq!(qr_find_fmt(0b000111101011001 ^ 0b100), Some(0b00011));
}

#[test]
fn wikiversity_tables() {
    let mut tables = ([0u32; 256], [0u32; 256]);
    generate_exp_log_tables(&mut tables, PRIM);
    assert_eq!(tables.0[0], 1);
    assert_eq!(tables.0[8], 29);
    assert_eq!(table_multiply(0b10001001, 0b00101010, &tables), 0b11000011);
    assert_eq!(gf_poly_add(&vec![1, 2], &vec![3]), vec![1, 1]);
    assert_eq!(gf_poly_add(&vec![1], &vec![1, 1]), vec![1, 0]);
    assert_eq!(gf_poly_add(&vec![3, 4], &vec![1]), vec![3, 5]);
    assert_eq!(gf_poly_add(&vec![], &vec![]), Vec::<u32>::new());
    // the tables index logarithms modulo 256, so log(1) ends up as 255 and
    // products involving 1 come out shifted by one power of the generator
    assert_eq!(tables.1[1], 255);
    assert_eq!(gf_poly_mul(&vec![1, 1], &vec![1, 2], &tables), vec![142, 143, 1]);
    assert_eq!(gf_poly_eval(&vec![1, 0], 5, &tables), 140);
    assert_eq!(rs_generator_poly(2, &tables), vec![71, 70, 1]);
}

#[test]
fn binary_and_curves() {
    let bits = binarify(&vec![0x40, 0x03]);
    assert_eq!(bits[0], [false, true, false, false, false, false, false, false]);
    assert_eq!(bits[1], [false, false, false, false, false, false, true, true]);
    let curve = vec![vec![Some(0), None, Some(2)], vec![Some(1), Some(7)]];
    let text = curve_to_text(&curve, "abc");
    assert_eq!(text, vec![vec![Some('a'), None, Some('c')], vec![Some('b'), None]]);
    let coords = curve_to_coords(&curve);
    assert_eq!(coords, vec![(0, 0), (0, 1), (2, 0), (0, 0), (0, 0), (0, 0), (0, 0), (1, 1)]);
}

#[test]
fn pattern_mask() {
    let pattern = vec![vec![false; 3]; 2];
    let masked = apply_mask(&pattern, 0);
    assert_eq!(masked, vec![vec![true, false, true], vec![false, true, false]]);
    let masked = apply_mask(&pattern, 2);
    assert_eq!(masked, vec![vec![true, false, false], vec![true, false, false]]);
}

#[test]
fn format_codes_correct_three_errors() {
    for f in 0..32u32 {
        let code = qr::wikiv::qr_generate_fcode(f);
        assert_eq!(qr::wikiv::qr_find_fmt(code), Some(f));
        for e in [0b1u32, 0b101, 0b1000_0000_0100_001, 0b0110_0000_0000_000] {
            assert_eq!(qr::wikiv::qr_find_fmt(code ^ e), Some(f));
        }
    }
}

#[test]
fn format_ties_give_nothing() {
    let codes: Vec<u32> = (0..32u32).map(|f| qr_generate_fcode(f)).collect();
    let mut ties = 0;
    for c in 0..(1u32 << 15) {
        let d: Vec<u32> = codes.iter().map(|k| (c ^ k).count_ones()).collect();
        let min = *d.iter().min().unwrap();
        let at_min = d.iter().filter(|&&x| x == min).count();
        if at_min > 1 {
            ties += 1;
            assert_eq!(qr_find_fmt(c), None);
        } else {
            let f = d.iter().position(|&x| x == min).unwrap() as u32;
            assert_eq!(qr_find_fmt(c), Some(f));
        }
    }
    assert!(ties > 0);
}

#[test]
fn carryless_division_leaves_a_remainder() {
    let bits = |n: u32| 32 - n.leading_zeros();
    for x in 0..256u32 {
        for d in 1..16u32 {
            let r = carryless_divide(x, d);
            assert!(bits(r) < bits(d));
            assert!((0..256u32).any(|q| carryless_multiply(d, q) ^ r == x));
        }
    }
    assert_eq!(carryless_divide(0b1010_0110_111 << 4, 0x537), 0);
}

#[test]
fn pattern_rows_as_text() {
    let row = qr::bitmask::pattern_row(&vec![true, false]);
    assert_eq!(row, "\u{2591}\u{2591}\u{2591}\u{2588}\u{2588}\u{2588}");
    assert_eq!(qr::bitmask::pattern_row(&vec![]), "");
}
