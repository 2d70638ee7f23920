use vstd::prelude::*;
use crate::image::string_from_chars;
use crate::qr_standard::mask_formula;

verus! {

/// Whether masking pattern `mask` (0 to 7) flips the module in row `i` and
/// column `j`.
pub open spec fn pattern_flips(mask: int, i: int, j: int) -> bool {
    if mask == 0 {
        (i + j) % 2 == 0
    } else if mask == 1 {
        i % 2 == 0
    } else if mask == 2 {
        j % 3 == 0
    } else if mask == 3 {
        (i + j) % 3 == 0
    } else if mask == 4 {
        (i / 2 + j / 3) % 2 == 0
    } else if mask == 5 {
        (i * j) % 2 + (i * j) % 3 == 0
    } else if mask == 6 {
        ((i * j) % 3 + i * j) % 2 == 0
    } else {
        ((i * j) % 3 + i + j) % 2 == 0
    }
}

/// The masking patterns, written by row `i` and column `j` here, flip
/// exactly the modules where the symbol's mask formula (by column `x` and
/// row `y`) is zero.
pub proof fn lemma_masks_agree(mask: int, x: int, y: int)
    requires
        0 <= mask < 8,
        0 <= x,
        0 <= y,
    ensures
        pattern_flips(mask, y, x) == (mask_formula(mask, x, y) == 0),
{
    assert(y * x == x * y) by (nonlinear_arith);
}

/// A pattern of rows with a masking pattern applied: every module that the
/// mask flips is flipped.
pub fn apply_mask(pattern: &Vec<Vec<bool>>, mask: u32) -> (r: Vec<Vec<bool>>)
    requires
        mask <= 7,
        forall|i: int| 0 <= i < pattern@.len() ==> pattern@.len() * (#[trigger] pattern@[i])@.len() + pattern@.len()
            + pattern@[i]@.len() + 2 <= usize::MAX,
    ensures
        r@.len() == pattern@.len(),
        forall|i: int| 0 <= i < r@.len() ==> (#[trigger] r@[i])@.len() == pattern@[i]@.len(),
        forall|i: int, j: int| 0 <= i < r@.len() && 0 <= j < r@[i]@.len() ==>
            #[trigger] r@[i]@[j] == (pattern@[i]@[j] != pattern_flips(mask as int, i, j)),
{
    let mut masked: Vec<Vec<bool>> = Vec::new();
    let rows = pattern.len();
    let mut i: usize = 0;
    while i < rows
        invariant
            rows == pattern@.len(),
            mask <= 7,
            forall|i: int| 0 <= i < pattern@.len() ==> pattern@.len() * (#[trigger] pattern@[i])@.len() + pattern@.len()
                + pattern@[i]@.len() + 2 <= usize::MAX,
            i <= rows,
            masked@.len() == i,
            forall|k: int| 0 <= k < i ==> (#[trigger] masked@[k])@.len() == pattern@[k]@.len(),
            forall|k: int, j: int| 0 <= k < i && 0 <= j < masked@[k]@.len() ==>
                #[trigger] masked@[k]@[j] == (pattern@[k]@[j] != pattern_flips(mask as int, k, j)),
        decreases rows - i,
    {
        let line = &pattern[i];
        let cols = line.len();
        let mut row: Vec<bool> = Vec::new();
        let mut j: usize = 0;
        while j < cols
            invariant
                rows == pattern@.len(),
                line@ == pattern@[i as int]@,
                cols == line@.len(),
                i < rows,
                mask <= 7,
                rows * cols + rows + cols + 2 <= usize::MAX,
                j <= cols,
                row@.len() == j,
                forall|jj: int| 0 <= jj < j ==> #[trigger] row@[jj] == (line@[jj] != pattern_flips(mask as int, i as int, jj)),
            decreases cols - j,
        {
            proof {
                assert(i * j <= rows * cols) by (nonlinear_arith) requires i < rows, j < cols;
            }
            let flip = match mask {
                0 => (i + j) % 2 == 0,
                1 => i % 2 == 0,
                2 => j % 3 == 0,
                3 => (i + j) % 3 == 0,
                4 => (i / 2 + j / 3) % 2 == 0,
                5 => (i * j) % 2 + (i * j) % 3 == 0,
                6 => ((i * j) % 3 + i * j) % 2 == 0,
                _ => ((i * j) % 3 + i + j) % 2 == 0,
            };
            row.push(line[j] != flip);
            j = j + 1;
        }
        masked.push(row);
        i = i + 1;
    }
    masked
}

/// The text of one row of a pattern: three light-shade characters for each
/// set module and three full blocks for each clear one.
pub open spec fn pattern_text(line: Seq<bool>) -> Seq<char>
    decreases line.len(),
{
    if line.len() == 0 {
        Seq::empty()
    } else {
        pattern_text(line.drop_last()) + (if line.last() {
            seq!['\u{2591}', '\u{2591}', '\u{2591}']
        } else {
            seq!['\u{2588}', '\u{2588}', '\u{2588}']
        })
    }
}

/// One row of a pattern as text, three characters per module, for printing
/// on a terminal.
pub fn pattern_row(line: &Vec<bool>) -> (r: String)
    ensures
        r@ == pattern_text(line@),
{
    let mut chars: Vec<char> = Vec::new();
    let mut j: usize = 0;
    while j < line.len()
        invariant
            j <= line@.len(),
            chars@ == pattern_text(line@.subrange(0, j as int)),
        decreases line@.len() - j,
    {
        let c = if line[j] { '\u{2591}' } else { '\u{2588}' };
        chars.push(c);
        chars.push(c);
        chars.push(c);
        proof {
            assert(line@.subrange(0, j + 1).drop_last() =~= line@.subrange(0, j as int));
        }
        j = j + 1;
    }
    assert(line@.subrange(0, j as int) =~= line@);
    string_from_chars(&chars)
}

} // verus!
