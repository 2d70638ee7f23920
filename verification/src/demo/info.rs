//! The structure that holds what the demo shows.
use vstd::prelude::*;

verus! {

/// Modules in the largest QR symbol, 177 by 177: one byte each.
pub const MAX_SIZE: usize = 31329;

/// A bitmap with one byte per module.
pub type BmpArray = [u8; MAX_SIZE];

/// The bitmap has no module set.
pub open spec fn bmp_blank(a: BmpArray) -> bool {
    forall|i: int| 0 <= i < MAX_SIZE ==> #[trigger] a@[i] == 0
}

/// A bitmap with no module set.
pub fn blank_bmp() -> (r: BmpArray)
    ensures
        bmp_blank(r),
{
    [0u8; MAX_SIZE]
}

/// What the demo shows of a QR code.
#[derive(Debug, Clone)]
pub struct Info {
    /// The bitmap with its format information.
    pub bitmap_fcode: BmpArray,
    /// The bitmap without a mask.
    pub bitmap_nomask: BmpArray,
    /// The bitmap with a mask: the readable QR code.
    pub bitmap: BmpArray,
    /// Only the data modules.
    pub bitmap_badstream: BmpArray,
    /// Only the fixed patterns.
    pub bitmap_base: BmpArray,
    /// Each of the eight masks applied to an otherwise blank bitmap.
    pub bitmap_masks: [BmpArray; 8],
    /// The width and height of the QR code.
    pub dims: usize,
    pub bitstream: Vec<u8>,
    /// The coordinates of the data modules, in the order they are filled.
    pub bitstream_coords: Vec<(usize, usize)>,
    /// The error correction blocks.
    pub ecblock_data: Vec<u8>,
    /// The format information around the finder patterns.
    pub format_info: [u8; 2],
    /// The mask that was chosen.
    pub mask: usize,
    /// Pairs of mode and byte of the message, as the mode optimization chose them.
    pub modes: Vec<u8>,
    /// The version that was chosen.
    pub version: usize,
    pub penalties: [u32; 4],
}

impl Info {
    /// Nothing is recorded (the penalties aside, which `blank` covers).
    pub open spec fn cleared(&self) -> bool {
        &&& bmp_blank(self.bitmap_fcode)
        &&& bmp_blank(self.bitmap_nomask)
        &&& bmp_blank(self.bitmap)
        &&& bmp_blank(self.bitmap_badstream)
        &&& bmp_blank(self.bitmap_base)
        &&& forall|k: int| 0 <= k < 8 ==> bmp_blank(#[trigger] self.bitmap_masks@[k])
        &&& self.dims == usize::MAX
        &&& self.bitstream@.len() == 0
        &&& self.bitstream_coords@.len() == 0
        &&& self.ecblock_data@.len() == 0
        &&& self.format_info@ == seq![0u8, 0u8]
        &&& self.mask == usize::MAX
        &&& self.modes@.len() == 0
        &&& self.version == usize::MAX
    }

    /// Nothing is recorded and the penalties are zero.
    pub open spec fn blank(&self) -> bool {
        &&& self.cleared()
        &&& self.penalties@ == seq![0u32, 0u32, 0u32, 0u32]
    }

    /// A record with nothing in it.
    pub fn new() -> (r: Info)
        ensures
            r.cleared(),
            r.penalties@ == seq![0u32, 0u32, 0u32, 0u32],
    {
        let r = Info {
            bitmap: blank_bmp(),
            bitmap_badstream: blank_bmp(),
            bitmap_base: blank_bmp(),
            bitmap_fcode: blank_bmp(),
            bitmap_masks: [blank_bmp(), blank_bmp(), blank_bmp(), blank_bmp(),
                blank_bmp(), blank_bmp(), blank_bmp(), blank_bmp()],
            bitmap_nomask: blank_bmp(),

            bitstream_coords: Vec::new(),
            bitstream: Vec::new(),
            ecblock_data: Vec::new(),
            modes: Vec::new(),

            format_info: [0; 2],

            dims: usize::MAX,
            mask: usize::MAX,
            version: usize::MAX,
            penalties: [0; 4],
        };
        assert(r.format_info@ =~= seq![0u8, 0u8]);
        assert(r.penalties@ =~= seq![0u32, 0u32, 0u32, 0u32]);
        r
    }

    /// Forgets everything recorded, the penalties included.
    pub fn clear(&mut self)
        ensures
            final(self).blank(),
    {
        self.bitmap = blank_bmp();
        self.bitmap_badstream = blank_bmp();
        self.bitmap_base = blank_bmp();
        self.bitmap_fcode = blank_bmp();
        self.bitmap_masks = [blank_bmp(), blank_bmp(), blank_bmp(), blank_bmp(),
            blank_bmp(), blank_bmp(), blank_bmp(), blank_bmp()];
        self.bitmap_nomask = blank_bmp();

        self.bitstream.clear();
        self.bitstream_coords.clear();
        self.ecblock_data.clear();
        self.modes.clear();

        self.format_info = [0; 2];
        self.dims = usize::MAX;
        self.mask = usize::MAX;
        self.version = usize::MAX;
        self.penalties = [0; 4];
        assert(self.format_info@ =~= seq![0u8, 0u8]);
        assert(self.penalties@ =~= seq![0u32, 0u32, 0u32, 0u32]);
    }
}

} // verus!
