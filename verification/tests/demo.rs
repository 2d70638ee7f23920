use qr::demo::info::{Info, MAX_SIZE};
use qr::demo::ops::{mask, reset_all, set_bitmap, set_modes, BmpChoice};
use qr::image::Bitmap;
use qr::Mode;

#[test]
fn demo_record() {
    let mut info = Box::new(Info::new());
    assert_eq!(info.mask, usize::MAX);
    assert_eq!(info.version, usize::MAX);
    assert!(info.bitmap.iter().all(|&b| b == 0));
    assert!(info.modes.is_empty());

    assert_eq!(mask(&mut info, Some(3)), usize::MAX);
    assert_eq!(mask(&mut info, None), 3);
    assert_eq!(info.mask, 3);

    set_modes(&mut info, &vec![(Mode::Numeric, "12".to_string()), (Mode::ASCII, "a".to_string())]);
    assert_eq!(info.modes, vec![0, b'1', 0, b'2', 2, b'a']);

    let mut bm = Bitmap::new(8, 1);
    bm.set_bit(0, 0, true);
    set_bitmap(&mut info, &bm, BmpChoice::Final);
    assert_eq!(&info.bitmap[..9], &[0, 1, 1, 1, 1, 1, 1, 1, 0]);
    set_bitmap(&mut info, &bm, BmpChoice::Mask(5));
    assert_eq!(info.bitmap_masks[5][1], 1);
    assert_eq!(info.bitmap_masks[4][1], 0);
    assert_eq!(info.bitmap.len(), MAX_SIZE);

    info.penalties = [1, 2, 3, 4];
    reset_all(&mut info);
    assert_eq!(info.mask, usize::MAX);
    assert!(info.modes.is_empty());
    assert!(info.bitmap.iter().all(|&b| b == 0));
    assert_eq!(info.penalties, [0, 0, 0, 0]);
    info.clear();
    assert_eq!(info.penalties, [0, 0, 0, 0]);
}
