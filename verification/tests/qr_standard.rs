use qr::qr_standard::badstream::{make_qr, make_qr_checked, QRInput, pad_to, push_byte, push_bits, badstream_to_polynomial, bit_cost, full_block_encode};
use qr::qr_standard::bitstream::{Mode, make_token_stream, bit_overhead_template, compute_bit_overhead, tokens_to_badstream, find_best_version, char_status};
use qr::qr_standard::search::optimize_mode;
use qr::qr_standard::penalties::total_penalty;
use qr::qr_standard::{qr_generate_vcode, data_to_fcode, interpret_format, set_fcode, get_fcode, version_to_size, QR, errc};
use qr::image::Bitmap;

#[test]
fn test_version_block() {
    let table = [
        (7u32, 0xc94u32),
        (8, 0x5bc),
        (9, 0xa99),
        (10, 0x4d3),
        (11, 0xbf6),
        (12, 0x762),
        (13, 0x847),
        (14, 0x60d),
        (15, 0x928),
        (16, 0xb78),
        (17, 0x45d),
        (18, 0xa17),
        (26, 0xfab),
        (36, 0xb0b),
        (40, 0xc69),
    ];
    for (a, i) in table {
        let artificial = (a << 12) + i;
        let real = qr_generate_vcode(a);
        assert!(artificial == real);
    }
}

#[test]
fn penalty_get_check() {
    let string = "testing, testing...".to_string();
    let pic = make_qr(QRInput::Manual(vec![(Mode::ASCII, string)]), Some(40), None, None);

    let width = pic.dims().0;
    let input = &pic;

    let bit_x = {
        let mut bit_vector: Vec<bool> = Vec::new();
        for x in 0..width {
            for y in 0..width {
                bit_vector.push(input.get_bit(x, y).expect("out of bounds"));
            }
        }
        bit_vector
    };
    let get_x = |x: usize, y: usize| bit_x[x * width + y];

    let size = usize::BITS as usize;
    let bit_y = {
        let mut bit_vector: Vec<usize> = Vec::new();
        let mut ticker = 0usize;
        let mut pushy = 0usize;

        for x in 0..width {
            for y in 0..width {
                pushy |= usize::from(input.get_bit(x, y).expect("out of bounds")) << (ticker % size);
                ticker += 1;
                if ticker % size == 0 {
                    bit_vector.push(pushy);
                    pushy = 0;
                }
            }
        }
        bit_vector.push(pushy);

        bit_vector
    };
    let get_y = |x: usize, y: usize| {
        let index = x * width + y;
        bit_y[index / size] & (1usize << (index % size)) != 0
    };

    for x in 0..width {
        for y in 0..width {
            assert!(get_x(x, y) == get_y(x, y) && get_x(x, y) == input.get_bit(x, y).unwrap());
        }
    }
}

#[test]
fn version_sizes() {
    assert_eq!(version_to_size(1), Some(21));
    assert_eq!(version_to_size(40), Some(177));
    assert_eq!(version_to_size(0), None);
    assert_eq!(version_to_size(41), None);
}

#[test]
fn format_roundtrip_all() {
    for level in 0..4u8 {
        for mask in 0..8u8 {
            let f = data_to_fcode(level, mask).unwrap();
            assert_eq!(interpret_format(f), Some((level, mask)));
        }
    }
    assert_eq!(data_to_fcode(4, 0), None);
    assert_eq!(data_to_fcode(0, 8), None);
    // a code with a flipped bit is not a codeword
    let f = data_to_fcode(1, 3).unwrap();
    assert_eq!(interpret_format(f ^ 1), None);
}

#[test]
fn format_read_after_write() {
    let mut bm: Bitmap = QR::new_blank_qr(1);
    let f = data_to_fcode(2, 5).unwrap();
    set_fcode(&mut bm, 1, f);
    assert_eq!(get_fcode(&bm, 1, (0, 0)), Some(f));
    assert_eq!(errc(&bm), 5);
}

#[test]
fn mask_twice_restores() {
    let mut bm: Bitmap = QR::new_blank_qr(2);
    bm.set_bit(10, 12, true);
    let before = bm.clone();
    bm.qr_mask_xor(3);
    assert!(bm.debug_bits() != before.debug_bits());
    bm.qr_mask_xor(3);
    assert_eq!(bm.debug_bits(), before.debug_bits());
}

#[test]
fn overhead_template_example() {
    let tokens = make_token_stream(vec![(Mode::ASCII, "a".to_string())], None);
    let template = bit_overhead_template(&tokens);
    assert_eq!(template, (16, [0, 0, 1, 0]));
    // the template counts the bits the tokens take
    for version in [1u32, 9, 10, 26, 27, 40] {
        let bits = tokens_to_badstream(tokens.clone(), version);
        assert_eq!(compute_bit_overhead(template, version), bits.len());
    }
}

#[test]
fn numeric_and_alphanumeric_tokens() {
    let tokens = make_token_stream(vec![(Mode::Numeric, "01234567".to_string()), (Mode::AlphaNum, "AC-42".to_string())], None);
    let bits = tokens_to_badstream(tokens, 1);
    // 4 + 10 + 10 + 10 + 7 (numeric), 4 + 9 + 11 + 11 + 6 (alphanumeric), 4 (terminator)
    assert_eq!(bits.len(), 41 + 41 + 4);
    let s: String = bits[0..14].iter().map(|b| if *b != 0 { '1' } else { '0' }).collect();
    assert_eq!(s, "00010000001000");
}

#[test]
fn eci_token_bits() {
    let tokens = make_token_stream(vec![], Some(26));
    let bits = tokens_to_badstream(tokens, 1);
    let s: String = bits.iter().map(|b| if *b != 0 { '1' } else { '0' }).collect();
    assert_eq!(s, "0111000110100000");
}

#[test]
fn best_version_small_message() {
    let tokens = make_token_stream(vec![(Mode::ASCII, "Hello!".to_string())], None);
    assert_eq!(find_best_version(&tokens, 2), Ok(1));
    let long = "x".repeat(3000);
    let tokens = make_token_stream(vec![(Mode::ASCII, long)], None);
    assert_eq!(find_best_version(&tokens, 3), Err("no qr code of level H fits this message".to_string()));
}

#[test]
fn char_modes() {
    assert_eq!(char_status('7'), Some(Mode::Numeric));
    assert_eq!(char_status('Q'), Some(Mode::AlphaNum));
    assert_eq!(char_status('$'), Some(Mode::AlphaNum));
    assert_eq!(char_status('q'), Some(Mode::ASCII));
    assert_eq!(char_status('π'), None);
}

#[test]
fn optimize_mode_segments() {
    let text = "Hello 12345678901234567890 WORLD".to_string();
    let segments = optimize_mode(&text, 0);
    let joined: String = segments.iter().map(|(_, s)| s.as_str()).collect();
    assert_eq!(joined, text);
    for w in segments.windows(2) {
        assert!(w[0].0 != w[1].0);
    }
    assert!(segments.iter().any(|(m, s)| *m == Mode::Numeric && s.contains("1234567890")));
    assert!(optimize_mode(&String::new(), 0).is_empty());
    assert_eq!(optimize_mode(&"7".to_string(), 1), vec![(Mode::Numeric, "7".to_string())]);
}

#[test]
fn bit_costs() {
    // numeric: 10/3 bits per digit, rounded
    assert_eq!(bit_cost(1, 0, Mode::Numeric), 4 + 4 + 10 + 4);
    assert_eq!(bit_cost(3, 0, Mode::Numeric), 4 + 4 + 10 + 10);
    assert_eq!(bit_cost(3, 0, Mode::AlphaNum), 4 + 4 + 9 + 11 + 6);
    assert_eq!(bit_cost(2, 1, Mode::ASCII), 4 + 4 + 16 + 16);
}

#[test]
fn padding_and_packing() {
    let mut stream = Vec::new();
    push_bits("0100", &mut stream);
    pad_to(3, &mut stream);
    assert_eq!(stream.len(), 24);
    let poly = badstream_to_polynomial(&stream);
    assert_eq!(poly, vec![0x40, 0xEC, 0x11]);
    let mut byte = Vec::new();
    push_byte(0b1010_0001, &mut byte);
    assert_eq!(byte, vec![128, 0, 32, 0, 0, 0, 0, 1]);
    assert_eq!(badstream_to_polynomial(&byte), vec![0b1010_0001]);
    let mut two = Vec::new();
    push_byte(2, &mut two);
    assert_eq!(badstream_to_polynomial(&two), vec![2]);
    assert_eq!(badstream_to_polynomial(&vec![1, 0, 1, 1]), vec![0b1011]);
    assert_eq!(badstream_to_polynomial(&vec![]), vec![0]);
}

#[test]
fn block_encode_length() {
    let mut stream = Vec::new();
    push_bits("0100000000010100000100000000", &mut stream);
    let out = full_block_encode(&stream, 1, 1);
    assert_eq!(out.len(), 8 * 26);
}

#[test]
fn hello_symbol() {
    let bm = make_qr(QRInput::Auto("Hello!".to_string()), None, None, None);
    assert_eq!(bm.dims(), (21, 21));
    assert_eq!(bm.qr_version(), Some(1));
    // the finder patterns
    assert_eq!(bm.get_bit(0, 0), Some(true));
    assert_eq!(bm.get_bit(1, 1), Some(false));
    assert_eq!(bm.get_bit(3, 3), Some(true));
    assert_eq!(bm.get_bit(8, 13), Some(true));
    let bordered = bm.add_border();
    assert_eq!(bordered.dims(), (37, 37));
    let xbm = bordered.as_xbm("hello");
    assert!(xbm.starts_with("#define hello_width 37\n#define hello_height 37\nstatic unsigned char hello_bits[] = {\n    0x00, 0x00,"));
    assert!(xbm.ends_with("0x00,\n};\n"));
}

#[test]
fn chosen_mask_is_used() {
    let bm = make_qr(QRInput::Auto("MASK".to_string()), Some(2), Some(0), Some(6));
    assert_eq!(bm.dims(), (25, 25));
    assert_eq!(errc(&bm), 6);
}

#[test]
fn blank_penalty() {
    // all light: 42 lines of 21 (19 each), one block of 21 by 21 (3 * 20 * 20),
    // no finder-like pattern, 50% off balance (10 steps)
    let bm = Bitmap::new(21, 21);
    assert_eq!(total_penalty(&bm), 42 * 19 + 1200 + 0 + 100);
}

#[test]
fn checked_symbols() {
    let text = "HELLO WORLD".to_string();
    let plain = make_qr(QRInput::Auto(text.clone()), Some(1), Some(1), Some(2));
    let checked = make_qr_checked(QRInput::Auto(text.clone()), Some(1), Some(1), Some(2)).unwrap();
    assert_eq!(plain.debug_bits(), checked.debug_bits());
    assert!(make_qr_checked(QRInput::Auto(text.clone()), Some(41), None, None).is_none());
    assert!(make_qr_checked(QRInput::Auto(text.clone()), Some(0), None, None).is_none());
    assert!(make_qr_checked(QRInput::Auto(text.clone()), None, None, Some(8)).is_none());
    assert!(make_qr_checked(QRInput::Auto(text.clone()), None, Some(4), None).is_none());
    // too much for the smallest version
    let long = "a".repeat(100);
    assert!(make_qr_checked(QRInput::Auto(long.clone()), Some(1), None, Some(0)).is_none());
    assert!(make_qr_checked(QRInput::Auto(long), None, None, Some(0)).is_some());
    // too much for any version
    assert!(make_qr_checked(QRInput::Auto("a".repeat(3000)), None, Some(0), Some(0)).is_none());
    // a numeric segment with a letter in it cannot be written
    assert!(make_qr_checked(QRInput::Manual(vec![(Mode::Numeric, "12a".to_string())]), None, None, Some(0)).is_none());
    assert!(make_qr_checked(QRInput::Manual(vec![(Mode::Numeric, "123".to_string())]), None, None, Some(0)).is_some());
}

#[test]
fn depanic() {
    let check = |x: QRInput| make_qr_checked(x, None, None, Some(0)).is_some();
    let make_string = |str: &str, i: usize| str.chars().cycle().take(i).collect::<String>();
    let mut offenders: Vec<(String, usize)> = vec![];
    if !check(QRInput::Auto("".to_string())) {
        offenders.push(("empty string".to_string(), 0));
    }
    for i in 1..50 {
        for str in ["a", "A", "1", "A1", "a1", "aA", "🤔", "π"] {
            if !check(QRInput::Auto(make_string(str, i))) {
                offenders.push((str.to_string(), i));
            }
        }
    }
    assert!(offenders.is_empty(), "{:?}", offenders);
}

#[test]
fn manual_and_auto_agree() {
    let manual = make_qr(QRInput::Manual(vec![(Mode::ASCII, "Hello!".to_string())]), None, None, None);
    let auto = make_qr(QRInput::Auto("Hello!".to_string()), None, None, None);
    assert_eq!(manual.debug_bits(), auto.debug_bits());
}

#[test]
fn readme_hello_bitmap() {
    // the sample output of the README: "Hello, world!" at level L
    let bm = make_qr(QRInput::Auto("Hello, world!".to_string()), None, Some(0), None);
    let xbm = bm.add_border().as_xbm("hello");
    assert_eq!(xbm, "#define hello_width 37\n#define hello_height 37\nstatic unsigned char hello_bits[] = {\n    0x00, 0x00, 0x00, 0x00, 0x00, 0x00, 0x00, 0x00, 0x00, 0x00, 0x00, 0x00,\n    0x00, 0x00, 0x00, 0x00, 0x00, 0x00, 0x00, 0x00, 0x00, 0x00, 0x00, 0x00,\n    0x00, 0x00, 0x00, 0x00, 0x00, 0x00, 0x00, 0x00, 0x00, 0x00, 0x00, 0x00,\n    0x00, 0x00, 0x00, 0x00, 0x00, 0x7f, 0xdf, 0x1f, 0x00, 0x00, 0x41, 0x55,\n    0x10, 0x00, 0x00, 0x5d, 0x41, 0x17, 0x00, 0x00, 0x5d, 0x4f, 0x17, 0x00,\n    0x00, 0x5d, 0x50, 0x17, 0x00, 0x00, 0x41, 0x4b, 0x10, 0x00, 0x00, 0x7f,\n    0xd5, 0x1f, 0x00, 0x00, 0x00, 0x1e, 0x00, 0x00, 0x00, 0x73, 0x8a, 0x1e,\n    0x00, 0x00, 0xbf, 0xd6, 0x0f, 0x00, 0x00, 0x6a, 0x69, 0x09, 0x00, 0x00,\n    0x97, 0xa5, 0x01, 0x00, 0x00, 0xf2, 0x32, 0x08, 0x00, 0x00, 0x00, 0x01,\n    0x1b, 0x00, 0x00, 0x7f, 0xec, 0x0b, 0x00, 0x00, 0x41, 0xaf, 0x09, 0x00,\n    0x00, 0x5d, 0x9f, 0x01, 0x00, 0x00, 0x5d, 0x64, 0x1b, 0x00, 0x00, 0x5d,\n    0xc4, 0x03, 0x00, 0x00, 0x41, 0x2b, 0x00, 0x00, 0x00, 0x7f, 0xa9, 0x11,\n    0x00, 0x00, 0x00, 0x00, 0x00, 0x00, 0x00, 0x00, 0x00, 0x00, 0x00, 0x00,\n    0x00, 0x00, 0x00, 0x00, 0x00, 0x00, 0x00, 0x00, 0x00, 0x00, 0x00, 0x00,\n    0x00, 0x00, 0x00, 0x00, 0x00, 0x00, 0x00, 0x00, 0x00, 0x00, 0x00, 0x00,\n    0x00, 0x00, 0x00, 0x00, 0x00,\n};\n");
}

#[test]
fn data_path_visits_each_module_once() {
    for (version, expected) in [(1u32, 208usize), (2, 359), (7, 1568)] {
        let max = (16 + 4 * version) as usize;
        let mut seen = std::collections::HashSet::new();
        let mut p = Some((max, max));
        while let Some((x, y)) = p {
            assert!(qr::qr_standard::coord_is_data(x, y, version));
            assert!(seen.insert((x, y)));
            p = qr::qr_standard::next_data_bit(x, y, version);
        }
        assert_eq!(seen.len(), expected);
        let mut all = 0;
        for x in 0..=max {
            for y in 0..=max {
                if qr::qr_standard::coord_is_data(x, y, version) {
                    all += 1;
                }
            }
        }
        assert_eq!(all, expected);
    }
}
