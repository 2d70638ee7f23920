use qr::image::Bitmap;
use qr::image_type::continuous::Img;
use qr::image_type::rowaligned::ImgRowAligned;
use qr::image_type::xbm::is_whitespace;

const XBM_EXAMPLE: &str = "#define test_width 16
#define test_height 16
static unsigned char test_bits[] = {
   0x01, 0x00, 0x02, 0x00, 0x04, 0x00, 0x08, 0x00, 0x10, 0x00, 0x20, 0x00,
   0x40, 0x00, 0x80, 0x00, 0xfe, 0xff, 0xfd, 0xff, 0xfb, 0xff, 0xf7, 0xff,
   0xef, 0xff, 0xdf, 0xff, 0xbf, 0xff, 0x7f, 0xff };
";

#[test]
fn xbm_example_reads() {
    let img = ImgRowAligned::from_xbm(XBM_EXAMPLE).unwrap();
    assert_eq!(img.dims(), (16, 16));
    let bits = img.debug_bits();
    assert_eq!(bits.len(), 32);
    assert_eq!(bits[0], 0x80);
    assert_eq!(bits[1], 0x00);
    assert_eq!(bits[2], 0x40);
    assert_eq!(bits[14], 0x01);
    assert_eq!(bits[16], 0x7f);
    assert_eq!(bits[17], 0xff);
    assert_eq!(bits[31], 0xff);
    assert_eq!(bits[30], 0xfe);
    // the diagonal of the first eight rows
    for k in 0..8 {
        assert_eq!(img.get_bit(k, k), Some(true));
        assert_eq!(img.get_bit(k + 1, k), Some(false));
    }
}

#[test]
fn xbm_faults() {
    assert_eq!(ImgRowAligned::from_xbm("no data here").err(), Some("could not split at {{"));
    assert_eq!(ImgRowAligned::from_xbm("{ 0x01 }").err(), Some("width failed to parse"));
    assert_eq!(ImgRowAligned::from_xbm("#define a 5\n{").err(), Some("height failed to parse"));
    assert_eq!(
        ImgRowAligned::from_xbm("width 5\n#define b 3\n{").err(),
        Some("dimension lines not starting with #define")
    );
    assert_eq!(ImgRowAligned::from_xbm("#define a q\n#define b 3\n{").err(), Some("parse error"));
    assert_eq!(ImgRowAligned::from_xbm("#define a 1\n#define b -3\n{").err(), Some("parse error"));
    assert_eq!(ImgRowAligned::from_xbm("#define a 1\n#define b 1\n{ 0xzz }").err(), Some("wuh"));
    assert_eq!(ImgRowAligned::from_xbm("#define a 1\n#define b 1\n{ 0x100 }").err(), Some("wuh"));
    assert!(ImgRowAligned::try_from_xbm("#define a 1\n#define b 1\n{ 12 }").is_none());
    let ok = ImgRowAligned::try_from_xbm("#define a 1\r\n#define b +2\r\n{ 0x8 };").unwrap().unwrap();
    assert_eq!(ok.dims(), (1, 2));
    assert_eq!(ok.debug_bits(), vec![0x10]);
}

#[test]
fn xbm_written_and_read() {
    let mut img = ImgRowAligned::new(10, 3);
    img.set_bit(0, 0, true);
    img.set_bit(9, 1, true);
    img.set_bit(4, 2, true);
    let text = img.as_xbm("pic");
    let back = ImgRowAligned::from_xbm(&text).unwrap();
    assert_eq!(back.dims(), (10, 3));
    assert_eq!(back.debug_bits(), img.debug_bits());

    let mut one = ImgRowAligned::new(8, 1);
    one.set_bit(0, 0, true);
    assert_eq!(
        one.as_xbm("t"),
        "#define t_width 8\n#define t_height 1\nstatic unsigned char t_bits[] = {\n   0x01 };\n"
    );
}

#[test]
fn bitmap_xbm_read_back() {
    let mut bm = Bitmap::new(21, 21);
    for k in 0..21 {
        bm.set_bit(k, k, true);
        bm.set_bit(20 - k, k, true);
    }
    let text = bm.as_xbm("code");
    let back = ImgRowAligned::from_xbm(&text).unwrap();
    assert_eq!(back.dims(), (21, 21));
    assert_eq!(&back.debug_bits(), bm.debug_bits());
}

#[test]
fn rowaligned_indices() {
    let img = ImgRowAligned::new(16, 2);
    assert_eq!(img.debug_indices(3, 1), Some((2, 4)));
    assert_eq!(img.debug_indices(15, 1), Some((3, 0)));
    assert_eq!(img.debug_indices(16, 0), None);
    assert_eq!(img.debug_indices(0, 2), None);
    let small = ImgRowAligned::new(8, 1);
    assert_eq!(small.debug_indices(7, 0), Some((0, 0)));
    assert_eq!(small.debug_indices(8, 0), None);
    assert_eq!(small.debug_indices(0, 1), None);
}

#[test]
fn rowaligned_rows_and_layouts() {
    let mut img = ImgRowAligned::new(10, 2);
    img.set_bit(0, 0, true);
    img.set_bit(9, 0, true);
    assert_eq!(img.debug_bits(), vec![0x80, 0x40, 0x00, 0x00]);
    assert_eq!(img.get_row(0), Some(0b10_0000_0001));
    assert_eq!(img.get_row(1), Some(0));
    assert_eq!(img.get_row(2), None);
    let cont = img.make_continuous();
    assert_eq!(cont.debug_bits(), &vec![0x80, 0x40, 0x00]);
    assert_eq!(cont.get_bit(9, 0), Some(true));
    assert_eq!(cont.get_bit(8, 0), Some(false));
    assert_eq!(cont.get_bit(10, 0), None);
}

#[test]
fn continuous_rows_and_layouts() {
    let mut img = Img::new(3, 3);
    img.set_bit(0, 0, true);
    img.set_bit(1, 1, true);
    assert_eq!(img.debug_bits(), &vec![0b1000_1000, 0]);
    assert_eq!(img.get_row(0), Some(0b100));
    // a row inside one byte brings the pixels before it along
    assert_eq!(img.get_row(1), Some(0b10_0010));
    assert_eq!(img.get_row(3), None);
    let aligned = img.make_rowaligned();
    assert_eq!(aligned.debug_bits(), vec![0x80, 0x40, 0x00]);

    let mut wide = Img::new(16, 2);
    wide.set_bit(15, 1, true);
    assert_eq!(wide.get_row(1), Some(1));
    let same = wide.make_rowaligned();
    assert_eq!(same.debug_bits(), vec![0, 0, 0, 1]);
}

#[test]
fn continuous_masks() {
    let pattern = Img::_new_qr_mask(4, 4, 1).unwrap();
    assert_eq!(pattern.debug_bits(), &vec![0xF0, 0xF0]);
    assert!(Img::_new_qr_mask(4, 4, 8).is_none());
    let mut blank = Img::new(4, 4);
    blank.qr_mask_xor(1);
    assert_eq!(blank.debug_bits(), pattern.debug_bits());
    blank.qr_mask_xor(1);
    assert_eq!(blank.debug_bits(), &vec![0, 0]);
    let zero = Img::_new_qr_mask(3, 2, 0).unwrap();
    // (x + y) % 2 == 0: 101 010
    assert_eq!(zero.debug_bits(), &vec![0b1010_1000]);
}

#[test]
fn invert_and_mask_set() {
    let mut img = Img::new(3, 3);
    img.invert();
    assert_eq!(img.debug_bits(), &vec![0xff, 0xff]);

    let mut target = Img::new(8, 1);
    let mut pattern = Img::new(8, 1);
    pattern.invert();
    let mut mask = Img::new(8, 1);
    mask.set_bit(0, 0, true);
    mask.set_bit(7, 0, true);
    target.set_bit(3, 0, true);
    target.mask_set(&pattern, &mask);
    assert_eq!(target.debug_bits(), &vec![0b1001_0001]);

    let mut rtarget = ImgRowAligned::new(8, 1);
    let mut rpattern = ImgRowAligned::new(8, 1);
    rpattern.invert();
    let mut rmask = ImgRowAligned::new(8, 1);
    rmask.set_bit(0, 0, true);
    rtarget.set_bit(0, 0, true);
    rtarget.set_bit(3, 0, false);
    rtarget.mask_set(&rpattern, &rmask);
    assert_eq!(rtarget.debug_bits(), vec![0xff]);
}

#[test]
fn continuous_set_row() {
    let mut img = Img::new(4, 2);
    img.set_row(1, 0b1011);
    // the last pixel of the row is not written
    assert_eq!(img.debug_bits(), &vec![0b0000_1010]);
    img.set_row(2, 0b1111);
    assert_eq!(img.debug_bits(), &vec![0b0000_1010]);
}

#[test]
fn whitespace_matches_std() {
    for v in 0u32..0x11_0000 {
        if let Some(c) = char::from_u32(v) {
            assert_eq!(is_whitespace(c), c.is_whitespace(), "{:x}", v);
        }
    }
}

#[test]
fn bitmap_scaling() {
    let mut bm = Bitmap::new(2, 2);
    bm.set_bit(1, 1, true);
    let big = bm.clone().scale(Some(4), &vec![0, 0, 1, 1]);
    assert_eq!(big.dims(), (4, 4));
    for x in 0..4 {
        for y in 0..4 {
            assert_eq!(big.get_bit(x, y), Some(x >= 2 && y >= 2));
        }
    }
    let same = bm.clone().scale(None, &vec![]);
    assert_eq!(same.debug_bits(), bm.debug_bits());
}

#[test]
fn rowaligned_mask_xor() {
    let mut img = ImgRowAligned::new(10, 2);
    img.qr_mask_xor(1);
    // row 0 is flipped, the unused bits at the row end stay clear
    assert_eq!(img.debug_bits(), vec![0xFF, 0xC0, 0x00, 0x00]);
    img.qr_mask_xor(1);
    assert_eq!(img.debug_bits(), vec![0, 0, 0, 0]);
}

#[test]
fn new_mask_equals_masked_blank() {
    for pattern in 0..8u8 {
        let built = Img::_new_qr_mask(3, 3, pattern).unwrap();
        let mut blank = Img::new(3, 3);
        blank.qr_mask_xor(pattern);
        assert_eq!(built.debug_bits(), blank.debug_bits());
    }
}

#[test]
fn xbm_sample_image() {
    let img = ImgRowAligned::from_xbm_debug().unwrap();
    assert_eq!(img.dims(), (16, 16));
    let bits = img.debug_bits();
    assert_eq!(&bits[0..4], &[0x80, 0x00, 0x40, 0x00]);
    assert_eq!(&bits[30..32], &[0xFE, 0xFF]);
    assert_eq!(img.get_bit(0, 0), Some(true));
    assert_eq!(img.get_bit(1, 1), Some(true));
    assert_eq!(img.get_bit(1, 0), Some(false));
}

#[test]
fn rowaligned_xbm_read_back() {
    let mut img = ImgRowAligned::new(10, 3);
    img.invert();
    img.set_bit(4, 1, false);
    let back = ImgRowAligned::from_xbm(&img.as_xbm("pic")).unwrap();
    assert_eq!(back.dims(), img.dims());
    assert_eq!(back.debug_bits(), img.debug_bits());
}
