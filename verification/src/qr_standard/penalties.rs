use vstd::prelude::*;
use crate::image::{Bitmap, byte_bit};

verus! {

/// The modules of the top left `w` by `w` square of a bitmap, column by
/// column: `grid_of(b, w)[x][y]` is the colour of module `(x, y)`.
pub open spec fn grid_of(b: Bitmap, w: nat) -> Seq<Seq<bool>> {
    Seq::new(w, |x: int| Seq::new(w, |y: int| b.pixel(x as nat, y as nat)))
}

/// The colours held by a vector of columns.
pub open spec fn grid_view(g: Seq<Vec<bool>>) -> Seq<Seq<bool>> {
    g.map_values(|c: Vec<bool>| c@)
}

/// `g` is a square grid of `w` columns of `w` modules.
pub open spec fn is_grid(g: Seq<Seq<bool>>, w: int) -> bool {
    &&& g.len() == w
    &&& forall|x: int| 0 <= x < w ==> #[trigger] g[x].len() == w
}

/// Row `y` of the grid `g`.
pub open spec fn row_of(g: Seq<Seq<bool>>, y: int) -> Seq<bool> {
    Seq::new(g.len(), |x: int| g[x][y])
}

// ----- adjacent modules of one colour -----

/// The penalty for the runs of one colour in `s` from position `i` on, when
/// the run that position `i` belongs to already counts `run` modules: each
/// run of more than five modules costs its length minus two (three, plus
/// one for each module beyond five).
pub open spec fn run_penalty(s: Seq<bool>, i: int, run: int) -> int
    decreases s.len() - i,
{
    if i < 0 || i >= s.len() {
        0
    } else if i + 1 < s.len() && s[i] == s[i + 1] {
        run_penalty(s, i + 1, run + 1)
    } else {
        (if run > 5 { run - 2 } else { 0 }) + run_penalty(s, i + 1, 1)
    }
}

/// The penalty for the runs of one colour in the line `s`.
pub open spec fn line_penalty(s: Seq<bool>) -> int {
    run_penalty(s, 0, 1)
}

/// The adjacency penalty of the first `lines` rows and columns of `g`.
pub open spec fn adjacent_penalty(g: Seq<Seq<bool>>, lines: int) -> int
    decreases lines,
{
    if lines <= 0 {
        0
    } else {
        adjacent_penalty(g, lines - 1) + line_penalty(row_of(g, lines - 1)) + line_penalty(g[lines - 1])
    }
}

proof fn lemma_run_penalty_bound(s: Seq<bool>, i: int, run: int)
    requires
        0 <= i <= s.len(),
        run >= 1,
    ensures
        0 <= run_penalty(s, i, run) <= s.len() - i + run - 1,
    decreases s.len() - i,
{
    if i < s.len() {
        if i + 1 < s.len() && s[i] == s[i + 1] {
            lemma_run_penalty_bound(s, i + 1, run + 1);
        } else {
            lemma_run_penalty_bound(s, i + 1, 1);
        }
    }
}

proof fn lemma_adjacent_grows(g: Seq<Seq<bool>>, a: int, b: int)
    requires
        0 <= a <= b,
    ensures
        adjacent_penalty(g, a) <= adjacent_penalty(g, b),
    decreases b - a,
{
    if a < b {
        lemma_adjacent_grows(g, a, b - 1);
        lemma_run_penalty_bound(row_of(g, b - 1), 0, 1);
        lemma_run_penalty_bound(g[b - 1], 0, 1);
    }
}

/// The adjacency penalty of a `w` by `w` grid (the grid `g`, column by
/// column): every row and every column is scored by `line_penalty`.
fn adjacent(width: usize, g: &Vec<Vec<bool>>) -> (r: u32)
    requires
        width >= 1,
        is_grid(grid_view(g@), width as int),
        adjacent_penalty(grid_view(g@), width as int) <= i32::MAX,
    ensures
        r == adjacent_penalty(grid_view(g@), width as int),
{
    let ghost gv = grid_view(g@);
    let ghost total = adjacent_penalty(gv, width as int);
    let max = width - 1;
    let mut penalty: u32 = 0;
    let mut line: usize = 0;
    while line <= max
        invariant
            gv == grid_view(g@),
            is_grid(gv, width as int),
            max == width - 1,
            total == adjacent_penalty(gv, width as int),
            total <= i32::MAX,
            line <= width,
            penalty == adjacent_penalty(gv, line as int),
        decreases width - line,
    {
        let ghost row = row_of(gv, line as int);
        let ghost col = gv[line as int];
        let mut xrun: usize = 1;
        let mut yrun: usize = 1;
        let ghost mut accx: int = 0;
        let ghost mut accy: int = 0;
        let ghost base = penalty as int;
        proof {
            lemma_adjacent_grows(gv, line + 1, width as int);
            assert(adjacent_penalty(gv, line + 1) == base + line_penalty(row) + line_penalty(col));
        }
        let mut index: usize = 0;
        while index <= max
            invariant
                gv == grid_view(g@),
                is_grid(gv, width as int),
                max == width - 1,
                line < width,
                row == row_of(gv, line as int),
                col == gv[line as int],
                row.len() == width,
                col.len() == width,
                index <= width,
                base + line_penalty(row) + line_penalty(col) <= i32::MAX,
                penalty == base + accx + accy,
                accx + run_penalty(row, index as int, xrun as int) == line_penalty(row),
                accy + run_penalty(col, index as int, yrun as int) == line_penalty(col),
                1 <= xrun <= index + 1,
                1 <= yrun <= index + 1,
                0 <= accx,
                0 <= accy,
            decreases width - index,
        {
            proof {
                lemma_run_penalty_bound(row, index as int, xrun as int);
                lemma_run_penalty_bound(col, index as int, yrun as int);
                lemma_run_penalty_bound(row, index + 1, 1);
                lemma_run_penalty_bound(col, index + 1, 1);
                assert(gv[index as int].len() == width && gv[line as int].len() == width);
                assert(row[index as int] == g@[index as int]@[line as int]);
                assert(col[index as int] == g@[line as int]@[index as int]);
                if index < max {
                    assert(gv[index + 1].len() == width);
                    assert(row[index + 1] == g@[index + 1]@[line as int]);
                    assert(col[index + 1] == g@[line as int]@[index + 1]);
                }
            }
            // the row
            if index < max && g[index][line] == g[index + 1][line] {
                xrun = xrun + 1;
            } else {
                if xrun > 5 {
                    assert(run_penalty(row, index as int, xrun as int) == xrun - 2 + run_penalty(row, index + 1, 1));
                    assert(accx + xrun - 2 <= line_penalty(row));
                    assert(accy <= line_penalty(col));
                    penalty = penalty + (xrun - 2) as u32;
                    proof { accx = accx + xrun - 2; }
                }
                xrun = 1;
            }
            // the column
            if index < max && g[line][index] == g[line][index + 1] {
                yrun = yrun + 1;
            } else {
                if yrun > 5 {
                    assert(run_penalty(col, index as int, yrun as int) == yrun - 2 + run_penalty(col, index + 1, 1));
                    assert(accy + yrun - 2 <= line_penalty(col));
                    assert(accx <= line_penalty(row));
                    penalty = penalty + (yrun - 2) as u32;
                    proof { accy = accy + yrun - 2; }
                }
                yrun = 1;
            }
            index = index + 1;
        }
        proof {
            assert(accx == line_penalty(row));
            assert(accy == line_penalty(col));
        }
        line = line + 1;
    }
    penalty
}

// ----- look-alikes of the finder pattern -----

/// Module `bit` of the dark-light-dark-dark-dark-light-dark pattern that
/// looks like a finder pattern.
pub open spec fn marker_bit(bit: int) -> bool {
    bit != 1 && bit != 5
}

/// Row `line` of `g` holds the finder-like pattern from `index` on.
pub open spec fn marker_in_row(g: Seq<Seq<bool>>, line: int, index: int) -> bool {
    forall|bit: int| 0 <= bit < 7 ==> #[trigger] g[index + bit][line] == marker_bit(bit)
}

/// Column `line` of `g` holds the finder-like pattern from `index` on.
pub open spec fn marker_in_column(g: Seq<Seq<bool>>, line: int, index: int) -> bool {
    forall|bit: int| 0 <= bit < 7 ==> #[trigger] g[line][index + bit] == marker_bit(bit)
}

/// The number of finder-like patterns that start at the first `k` positions
/// of row `line` and of column `line`.
pub open spec fn markers_in_line(g: Seq<Seq<bool>>, line: int, k: int) -> int
    decreases k,
{
    if k <= 0 {
        0
    } else {
        markers_in_line(g, line, k - 1) + (if marker_in_row(g, line, k - 1) { 1int } else { 0int })
            + (if marker_in_column(g, line, k - 1) { 1int } else { 0int })
    }
}

/// The number of finder-like patterns in the first `lines` rows and columns
/// of a grid `w` wide.
pub open spec fn marker_count(g: Seq<Seq<bool>>, w: int, lines: int) -> int
    decreases lines,
{
    if lines <= 0 {
        0
    } else {
        marker_count(g, w, lines - 1) + markers_in_line(g, lines - 1, w - 6)
    }
}

proof fn lemma_markers_in_line_bound(g: Seq<Seq<bool>>, line: int, k: int)
    requires
        k >= 0,
    ensures
        0 <= markers_in_line(g, line, k) <= 2 * k,
    decreases k,
{
    if k > 0 {
        lemma_markers_in_line_bound(g, line, k - 1);
    }
}

/// Whether the 7 modules of row or column `line` from `index` on match the
/// finder-like pattern.
fn marker_at(g: &Vec<Vec<bool>>, width: usize, line: usize, index: usize, horizontal: bool) -> (r: bool)
    requires
        is_grid(grid_view(g@), width as int),
        line < width,
        index + 7 <= width,
    ensures
        r == (if horizontal {
            marker_in_row(grid_view(g@), line as int, index as int)
        } else {
            marker_in_column(grid_view(g@), line as int, index as int)
        }),
{
    let ghost gv = grid_view(g@);
    let mut bit: usize = 0;
    while bit < 7
        invariant
            gv == grid_view(g@),
            is_grid(gv, width as int),
            line < width,
            index + 7 <= width,
            bit <= 7,
            horizontal ==> forall|b: int| 0 <= b < bit ==> #[trigger] gv[index + b][line as int] == marker_bit(b),
            !horizontal ==> forall|b: int| 0 <= b < bit ==> #[trigger] gv[line as int][index + b] == marker_bit(b),
        decreases 7 - bit,
    {
        let expected = bit != 1 && bit != 5;
        let found = if horizontal {
            assert(gv[(index + bit) as int].len() == width);
            g[index + bit][line]
        } else {
            assert(gv[line as int].len() == width);
            g[line][index + bit]
        };
        if found != expected {
            proof {
                if horizontal {
                    assert(gv[index + bit][line as int] != marker_bit(bit as int));
                } else {
                    assert(gv[line as int][index + bit] != marker_bit(bit as int));
                }
            }
            return false;
        }
        bit = bit + 1;
    }
    true
}

proof fn lemma_markers_in_line_grows(g: Seq<Seq<bool>>, line: int, a: int, b: int)
    requires
        0 <= a <= b,
    ensures
        markers_in_line(g, line, a) <= markers_in_line(g, line, b),
    decreases b - a,
{
    if a < b {
        lemma_markers_in_line_grows(g, line, a, b - 1);
    }
}

proof fn lemma_marker_count_grows(g: Seq<Seq<bool>>, w: int, a: int, b: int)
    requires
        0 <= a <= b,
        w >= 6,
    ensures
        marker_count(g, w, a) <= marker_count(g, w, b),
    decreases b - a,
{
    if a < b {
        lemma_marker_count_grows(g, w, a, b - 1);
        lemma_markers_in_line_bound(g, b - 1, w - 6);
    }
}

/// 40 points for every row or column section that looks like a finder
/// pattern.
fn fake_marker(width: usize, g: &Vec<Vec<bool>>) -> (r: u32)
    requires
        width >= 7,
        is_grid(grid_view(g@), width as int),
        40 * marker_count(grid_view(g@), width as int, width as int) <= u32::MAX,
    ensures
        r == 40 * marker_count(grid_view(g@), width as int, width as int),
{
    let ghost gv = grid_view(g@);
    let ghost total = 40 * marker_count(gv, width as int, width as int);
    let max = width - 1;
    let mut penalty: u32 = 0;
    let mut line: usize = 0;
    while line <= max
        invariant
            gv == grid_view(g@),
            is_grid(gv, width as int),
            width >= 7,
            max == width - 1,
            total == 40 * marker_count(gv, width as int, width as int),
            total <= u32::MAX,
            line <= width,
            penalty == 40 * marker_count(gv, width as int, line as int),
        decreases width - line,
    {
        let ghost base = penalty as int;
        proof {
            lemma_marker_count_grows(gv, width as int, line + 1, width as int);
        }
        let mut index: usize = 0;
        while index <= max - 6
            invariant
                gv == grid_view(g@),
                is_grid(gv, width as int),
                width >= 7,
                max == width - 1,
                line < width,
                index <= width - 6,
                base == 40 * marker_count(gv, width as int, line as int),
                base + 40 * markers_in_line(gv, line as int, width - 6) <= u32::MAX,
                penalty == base + 40 * markers_in_line(gv, line as int, index as int),
            decreases width - 6 - index,
        {
            proof { lemma_markers_in_line_grows(gv, line as int, index + 1, width - 6); }
            if marker_at(g, width, line, index, true) {
                penalty = penalty + 40;
            }
            if marker_at(g, width, line, index, false) {
                penalty = penalty + 40;
            }
            index = index + 1;
        }
        line = line + 1;
    }
    penalty
}

// ----- blocks of one colour -----

/// What the search for blocks has done so far: which modules are already
/// part of a scored block, and the penalty so far.
pub type BlockState = (Seq<Seq<bool>>, int);

/// Module `(x, y)` or `(x, y + 1)` keeps the two-row strip of a block of
/// colour `color` from going on at column `x`.
pub open spec fn strip_breaks(g: Seq<Seq<bool>>, sc: Seq<Seq<bool>>, x: int, y: int, color: bool) -> bool {
    g[x][y] != color || g[x][y + 1] != color || sc[x][y + 1]
}

/// The first offset from `off` to `rw` at which the two-row strip starting
/// at column `sx` breaks, or `rw + 1` if it does not.
pub open spec fn first_break(g: Seq<Seq<bool>>, sc: Seq<Seq<bool>>, sx: int, y: int, rw: int, color: bool, off: int) -> int
    decreases rw + 1 - off,
{
    if off > rw {
        rw + 1
    } else if strip_breaks(g, sc, sx + off, y, color) {
        off
    } else {
        first_break(g, sc, sx, y, rw, color, off + 1)
    }
}

/// Columns `sx` to `sx + rw` of row `y` all have colour `color` and belong to
/// no scored block yet.
pub open spec fn row_free(g: Seq<Seq<bool>>, sc: Seq<Seq<bool>>, sx: int, rw: int, y: int, color: bool) -> bool {
    forall|x: int| sx <= x <= sx + rw ==> #[trigger] free_at(g, sc, x, y, color)
}

/// Module `(x, y)` has colour `color` and is not scored yet.
pub open spec fn free_at(g: Seq<Seq<bool>>, sc: Seq<Seq<bool>>, x: int, y: int, color: bool) -> bool {
    g[x][y] == color && !sc[x][y]
}

/// How many rows from `y` down to `max` in a row are free for a block over
/// columns `sx` to `sx + rw`.
pub open spec fn free_rows(g: Seq<Seq<bool>>, sc: Seq<Seq<bool>>, sx: int, rw: int, y: int, color: bool, max: int) -> int
    decreases max + 1 - y,
{
    if y > max {
        0
    } else if row_free(g, sc, sx, rw, y, color) {
        1 + free_rows(g, sc, sx, rw, y + 1, color, max)
    } else {
        0
    }
}

/// `sc` with the modules of columns `sx` to `sx + rw` and rows `y` to
/// `y + rh` marked.
pub open spec fn mark_block(sc: Seq<Seq<bool>>, sx: int, rw: int, y: int, rh: int) -> Seq<Seq<bool>> {
    Seq::new(sc.len(), |x: int| Seq::new(sc[x].len(),
        |yy: int| sc[x][yy] || (sx <= x <= sx + rw && y <= yy <= y + rh)))
}

/// One try at a block of width `rw + 1` whose top left module is
/// `(sx, y)`: the new state, and whether the rest of the row is skipped.
/// A block is at least two rows high, takes no module that is already
/// scored below its first row, and is extended down as far as it goes; it
/// costs `3 * rw * rh` for `rw + 1` columns and `rh + 1` rows.
pub open spec fn block_attempt(g: Seq<Seq<bool>>, w: int, s: BlockState, rw: int, y: int, sx: int) -> (BlockState, bool) {
    let sc = s.0;
    if sc[sx][y] || g[sx][y] != g[sx][y + 1] {
        (s, false)
    } else {
        let color = g[sx][y];
        let f = first_break(g, sc, sx, y, rw, color, 0);
        if f <= rw {
            (s, sx + f > w - 1 - rw)
        } else {
            let rh = 1 + free_rows(g, sc, sx, rw, y + 2, color, w - 1);
            ((mark_block(sc, sx, rw, y, rh), s.1 + 3 * rw * rh), false)
        }
    }
}

/// The tries along row `y` from column `sx` on.
pub open spec fn block_row(g: Seq<Seq<bool>>, w: int, s: BlockState, rw: int, y: int, sx: int) -> BlockState
    decreases w - rw - sx,
{
    if sx < 0 || sx > w - 1 - rw {
        s
    } else {
        let (s2, skip) = block_attempt(g, w, s, rw, y, sx);
        if skip {
            s2
        } else {
            block_row(g, w, s2, rw, y, sx + 1)
        }
    }
}

/// The tries for block width `rw + 1` from row `y` on.
pub open spec fn block_rows(g: Seq<Seq<bool>>, w: int, s: BlockState, rw: int, y: int) -> BlockState
    decreases w - 1 - y,
{
    if y < 0 || y > w - 2 {
        s
    } else {
        block_rows(g, w, block_row(g, w, s, rw, y, 0), rw, y + 1)
    }
}

/// The tries for every block width from `rw + 1` down to 2.
pub open spec fn block_widths(g: Seq<Seq<bool>>, w: int, s: BlockState, rw: int) -> BlockState
    decreases rw,
{
    if rw < 1 {
        s
    } else {
        block_widths(g, w, block_rows(g, w, s, rw, 0), rw - 1)
    }
}

/// Nothing scored yet.
pub open spec fn unscored(w: int) -> Seq<Seq<bool>> {
    Seq::new(w as nat, |x: int| Seq::new(w as nat, |y: int| false))
}

/// The block penalty of a `w` by `w` grid: the widest blocks are looked for
/// first, each module is scored at most once below the first row of its
/// block, and every block found costs three points per module beyond its
/// first row and column.
pub open spec fn block_penalty(g: Seq<Seq<bool>>, w: int) -> int {
    block_widths(g, w, (unscored(w), 0), w - 1).1
}

proof fn lemma_attempt_grows(g: Seq<Seq<bool>>, w: int, s: BlockState, rw: int, y: int, sx: int)
    requires
        rw >= 1,
    ensures
        block_attempt(g, w, s, rw, y, sx).0.1 >= s.1,
{
    let sc = s.0;
    if !(sc[sx][y] || g[sx][y] != g[sx][y + 1]) {
        let color = g[sx][y];
        let rh = 1 + free_rows(g, sc, sx, rw, y + 2, color, w - 1);
        lemma_free_rows_nonneg(g, sc, sx, rw, y + 2, color, w - 1);
        assert(3 * rw * rh >= 0) by (nonlinear_arith) requires rw >= 1, rh >= 1;
    }
}

proof fn lemma_free_rows_nonneg(g: Seq<Seq<bool>>, sc: Seq<Seq<bool>>, sx: int, rw: int, y: int, color: bool, max: int)
    ensures
        0 <= free_rows(g, sc, sx, rw, y, color, max),
        free_rows(g, sc, sx, rw, y, color, max) <= if y > max { 0 } else { max + 1 - y },
    decreases max + 1 - y,
{
    if y <= max && row_free(g, sc, sx, rw, y, color) {
        lemma_free_rows_nonneg(g, sc, sx, rw, y + 1, color, max);
    }
}

proof fn lemma_row_grows(g: Seq<Seq<bool>>, w: int, s: BlockState, rw: int, y: int, sx: int)
    requires
        rw >= 1,
    ensures
        block_row(g, w, s, rw, y, sx).1 >= s.1,
    decreases w - rw - sx,
{
    if !(sx < 0 || sx > w - 1 - rw) {
        lemma_attempt_grows(g, w, s, rw, y, sx);
        let (s2, skip) = block_attempt(g, w, s, rw, y, sx);
        if !skip {
            lemma_row_grows(g, w, s2, rw, y, sx + 1);
        }
    }
}

proof fn lemma_rows_grow(g: Seq<Seq<bool>>, w: int, s: BlockState, rw: int, y: int)
    requires
        rw >= 1,
    ensures
        block_rows(g, w, s, rw, y).1 >= s.1,
    decreases w - 1 - y,
{
    if !(y < 0 || y > w - 2) {
        lemma_row_grows(g, w, s, rw, y, 0);
        lemma_rows_grow(g, w, block_row(g, w, s, rw, y, 0), rw, y + 1);
    }
}

proof fn lemma_widths_grow(g: Seq<Seq<bool>>, w: int, s: BlockState, rw: int)
    ensures
        block_widths(g, w, s, rw).1 >= s.1,
    decreases rw,
{
    if rw >= 1 {
        lemma_rows_grow(g, w, s, rw, 0);
        lemma_widths_grow(g, w, block_rows(g, w, s, rw, 0), rw - 1);
    }
}

/// A `w` by `w` grid with nothing scored.
fn unscored_grid(width: usize) -> (r: Vec<Vec<bool>>)
    ensures
        grid_view(r@) == unscored(width as int),
{
    let mut r: Vec<Vec<bool>> = Vec::new();
    let mut x: usize = 0;
    while x < width
        invariant
            x <= width,
            r@.len() == x,
            forall|i: int| 0 <= i < x ==> #[trigger] r@[i]@ == Seq::new(width as nat, |y: int| false),
        decreases width - x,
    {
        let mut col: Vec<bool> = Vec::new();
        let mut y: usize = 0;
        while y < width
            invariant
                y <= width,
                col@ == Seq::new(y as nat, |j: int| false),
            decreases width - y,
        {
            col.push(false);
            y = y + 1;
        }
        r.push(col);
        x = x + 1;
    }
    assert(grid_view(r@) =~= unscored(width as int));
    r
}

/// Whether columns `sx` to `sx + rw` of row `y` are all of colour `color`
/// and unscored.
fn row_is_free(g: &Vec<Vec<bool>>, scored: &Vec<Vec<bool>>, width: usize, sx: usize, rw: usize, y: usize, color: bool) -> (r: bool)
    requires
        is_grid(grid_view(g@), width as int),
        is_grid(grid_view(scored@), width as int),
        sx + rw < width,
        y < width,
    ensures
        r == row_free(grid_view(g@), grid_view(scored@), sx as int, rw as int, y as int, color),
{
    let ghost gv = grid_view(g@);
    let ghost sv = grid_view(scored@);
    let mut x = sx;
    while x <= sx + rw
        invariant
            gv == grid_view(g@),
            sv == grid_view(scored@),
            is_grid(gv, width as int),
            is_grid(sv, width as int),
            sx + rw < width,
            y < width,
            sx <= x <= sx + rw + 1,
            forall|i: int| sx <= i < x ==> #[trigger] free_at(gv, sv, i, y as int, color),
        decreases sx + rw + 1 - x,
    {
        assert(gv[x as int].len() == width && sv[x as int].len() == width);
        assert(gv[x as int][y as int] == g@[x as int]@[y as int]);
        assert(sv[x as int][y as int] == scored@[x as int]@[y as int]);
        if g[x][y] != color || scored[x][y] {
            assert(!free_at(gv, sv, x as int, y as int, color));
            return false;
        }
        assert(free_at(gv, sv, x as int, y as int, color));
        x = x + 1;
    }
    true
}

/// Marks the modules of columns `sx` to `sx + rw` and rows `y` to `y + rh`
/// as scored.
fn mark_scored(scored: &mut Vec<Vec<bool>>, width: usize, sx: usize, rw: usize, y: usize, rh: usize)
    requires
        is_grid(grid_view(old(scored)@), width as int),
        sx + rw < width,
        y + rh < width,
    ensures
        grid_view(final(scored)@) == mark_block(grid_view(old(scored)@), sx as int, rw as int, y as int, rh as int),
        is_grid(grid_view(final(scored)@), width as int),
{
    let ghost sv0 = grid_view(scored@);
    let mut x = sx;
    while x <= sx + rw
        invariant
            sx + rw < width,
            sx <= x <= sx + rw + 1,
            y + rh < width,
            is_grid(sv0, width as int),
            scored@.len() == width,
            forall|i: int| 0 <= i < width ==> #[trigger] grid_view(scored@)[i] == (if sx <= i < x {
                mark_block(sv0, sx as int, rw as int, y as int, rh as int)[i]
            } else {
                sv0[i]
            }),
        decreases sx + rw + 1 - x,
    {
        let ghost before = scored@;
        assert(grid_view(scored@)[x as int] == sv0[x as int]);
        let mut col: Vec<bool> = Vec::new();
        let mut k: usize = 0;
        while k < width
            invariant
                k <= width,
                sx <= x <= sx + rw,
                sx + rw < width,
                before == scored@,
                scored@.len() == width,
                is_grid(sv0, width as int),
                grid_view(scored@)[x as int] == sv0[x as int],
                y + rh < width,
                col@.len() == k,
                forall|j: int| 0 <= j < k ==> #[trigger] col@[j] == (sv0[x as int][j] || (y <= j <= y + rh)),
            decreases width - k,
        {
            let v = scored[x][k] || (y <= k && k <= y + rh);
            col.push(v);
            k = k + 1;
        }
        scored.set(x, col);
        proof {
            assert forall|i: int| 0 <= i < width implies #[trigger] grid_view(scored@)[i] == (if sx <= i < x + 1 {
                mark_block(sv0, sx as int, rw as int, y as int, rh as int)[i]
            } else {
                sv0[i]
            }) by {
                if i == x {
                    assert(grid_view(scored@)[i] =~= mark_block(sv0, sx as int, rw as int, y as int, rh as int)[i]);
                } else {
                    assert(grid_view(scored@)[i] == grid_view(before)[i]);
                }
            }
        }
        x = x + 1;
    }
    proof {
        let m = mark_block(sv0, sx as int, rw as int, y as int, rh as int);
        assert forall|i: int| 0 <= i < width implies #[trigger] grid_view(scored@)[i] == m[i] by {
            if !(sx <= i <= sx + rw) {
                assert(m[i] =~= sv0[i]);
            }
        }
        assert(grid_view(scored@) =~= m);
    }
}

/// The block penalty of the `w` by `w` grid `g` (see `block_penalty`),
/// truncated to 32 bits.
fn block(width: usize, g: &Vec<Vec<bool>>) -> (r: u32)
    requires
        width >= 2,
        is_grid(grid_view(g@), width as int),
        block_penalty(grid_view(g@), width as int) <= usize::MAX,
    ensures
        r == block_penalty(grid_view(g@), width as int) as u32,
{
    let ghost gv = grid_view(g@);
    let ghost w = width as int;
    let ghost total = block_penalty(gv, w);
    let max = width - 1;
    let mut penalty: usize = 0;
    let mut scored = unscored_grid(width);
    let mut rw = max;
    while rw >= 1
        invariant
            gv == grid_view(g@),
            is_grid(gv, w),
            w == width,
            max == width - 1,
            width >= 2,
            rw <= max,
            is_grid(grid_view(scored@), w),
            total <= usize::MAX,
            block_widths(gv, w, (grid_view(scored@), penalty as int), rw as int) == block_widths(gv, w, (unscored(w), 0), max as int),
            total == block_widths(gv, w, (unscored(w), 0), max as int).1,
        decreases rw,
    {
        let leeway = max - rw;
        let mut y: usize = 0;
        while y <= max - 1
            invariant
                gv == grid_view(g@),
                is_grid(gv, w),
                w == width,
                max == width - 1,
                width >= 2,
                1 <= rw <= max,
                leeway == max - rw,
                y <= max,
                is_grid(grid_view(scored@), w),
                total <= usize::MAX,
                block_widths(gv, w, block_rows(gv, w, (grid_view(scored@), penalty as int), rw as int, y as int), rw - 1)
                    == block_widths(gv, w, (unscored(w), 0), max as int),
                total == block_widths(gv, w, (unscored(w), 0), max as int).1,
            decreases max - y,
        {
            let mut sx: usize = 0;
            while sx <= leeway
                invariant
                    gv == grid_view(g@),
                    is_grid(gv, w),
                    w == width,
                    max == width - 1,
                    width >= 2,
                    1 <= rw <= max,
                    leeway == max - rw,
                    y < max,
                    sx <= leeway + 1,
                    is_grid(grid_view(scored@), w),
                    total <= usize::MAX,
                    block_widths(gv, w, block_rows(gv, w, block_row(gv, w, (grid_view(scored@), penalty as int), rw as int, y as int, sx as int), rw as int, y + 1), rw - 1)
                        == block_widths(gv, w, (unscored(w), 0), max as int),
                    total == block_widths(gv, w, (unscored(w), 0), max as int).1,
                ensures
                    block_row(gv, w, (grid_view(scored@), penalty as int), rw as int, y as int, sx as int)
                        == (grid_view(scored@), penalty as int),
                decreases leeway + 1 - sx,
            {
                let ghost st: BlockState = (grid_view(scored@), penalty as int);
                let ghost sv = grid_view(scored@);
                let ghost after = block_attempt(gv, w, st, rw as int, y as int, sx as int);
                proof {
                    let rest = block_row(gv, w, after.0, rw as int, y as int, sx + 1);
                    let chosen = if after.1 { after.0 } else { rest };
                    assert(block_row(gv, w, st, rw as int, y as int, sx as int) == chosen);
                    lemma_rows_grow(gv, w, chosen, rw as int, y + 1);
                    lemma_widths_grow(gv, w, block_rows(gv, w, chosen, rw as int, y + 1), rw - 1);
                    if !after.1 {
                        lemma_row_grows(gv, w, after.0, rw as int, y as int, sx + 1);
                    }
                    assert(after.0.1 <= total);
                    assert(gv[sx as int].len() == width && sv[sx as int].len() == width);
                }
                if scored[sx][y] || g[sx][y] != g[sx][y + 1] {
                    sx = sx + 1;
                    continue;
                }
                let color = g[sx][y];
                // the two-row strip
                let mut off: usize = 0;
                let mut broken = false;
                while off <= rw
                    invariant_except_break
                        !broken,
                    invariant
                        gv == grid_view(g@),
                        sv == grid_view(scored@),
                        is_grid(gv, w),
                        is_grid(sv, w),
                        w == width,
                        sx <= leeway,
                        leeway == max - rw,
                        max == width - 1,
                        y < max,
                        off <= rw + 1,
                        first_break(gv, sv, sx as int, y as int, rw as int, color, 0)
                            == first_break(gv, sv, sx as int, y as int, rw as int, color, off as int),
                    ensures
                        broken ==> off <= rw && first_break(gv, sv, sx as int, y as int, rw as int, color, 0) == off,
                        !broken ==> first_break(gv, sv, sx as int, y as int, rw as int, color, 0) == rw + 1,
                    decreases rw + 1 - off,
                {
                    let x = sx + off;
                    assert(gv[x as int].len() == width && sv[x as int].len() == width);
                    assert(gv[x as int][y as int] == g@[x as int]@[y as int]);
                    assert(gv[x as int][y + 1] == g@[x as int]@[y + 1]);
                    assert(sv[x as int][y + 1] == scored@[x as int]@[y + 1]);
                    if g[x][y] != color || g[x][y + 1] != color || scored[x][y + 1] {
                        assert(strip_breaks(gv, sv, sx + off, y as int, color));
                        assert(first_break(gv, sv, sx as int, y as int, rw as int, color, off as int) == off);
                        broken = true;
                        break;
                    }
                    off = off + 1;
                }
                if broken {
                    if sx + off > leeway {
                        break;
                    } else {
                        sx = sx + 1;
                        continue;
                    }
                }
                // extend the block downwards
                let mut rh: usize = 1;
                let mut y2 = y + 2;
                let mut stopped = false;
                proof { lemma_free_rows_nonneg(gv, sv, sx as int, rw as int, y + 2, color, max as int); }
                while y2 <= max && !stopped
                    invariant
                        gv == grid_view(g@),
                        sv == grid_view(scored@),
                        is_grid(gv, w),
                        is_grid(sv, w),
                        w == width,
                        sx + rw <= max,
                        max == width - 1,
                        y < max,
                        y + 2 <= y2 <= max + 1,
                        rh == y2 - y - 1,
                        !stopped ==> rh - 1 + free_rows(gv, sv, sx as int, rw as int, y2 as int, color, max as int)
                            == free_rows(gv, sv, sx as int, rw as int, y + 2, color, max as int),
                        stopped ==> rh - 1 == free_rows(gv, sv, sx as int, rw as int, y + 2, color, max as int),
                    decreases max + 1 - y2, if stopped { 0int } else { 1int },
                {
                    if row_is_free(g, &scored, width, sx, rw, y2, color) {
                        rh = rh + 1;
                        y2 = y2 + 1;
                    } else {
                        stopped = true;
                    }
                }
                proof {
                    assert(rh == 1 + free_rows(gv, sv, sx as int, rw as int, y + 2, color, max as int));
                    assert(after.0.1 == penalty + 3 * rw * rh);
                    assert(3 * rw <= 3 * rw * rh) by (nonlinear_arith) requires rh >= 1, rw >= 1;
                }
                mark_scored(&mut scored, width, sx, rw, y, rh);
                penalty = penalty + 3 * rw * rh;
                proof {
                    assert((grid_view(scored@), penalty as int) == after.0);
                }
                sx = sx + 1;
            }
            y = y + 1;
        }
        rw = rw - 1;
    }
    proof {
        assert(block_widths(gv, w, (grid_view(scored@), penalty as int), 0) == (grid_view(scored@), penalty as int));
    }
    penalty as u32
}

/// The number of set entries among the first `n` of `c`.
pub open spec fn count_col(c: Seq<bool>, n: int) -> int
    decreases n,
{
    if n <= 0 {
        0
    } else {
        count_col(c, n - 1) + (if c[n - 1] { 1int } else { 0int })
    }
}

/// The number of scored modules in the first `n` columns of `sc`.
pub open spec fn count_grid(sc: Seq<Seq<bool>>, n: int) -> int
    decreases n,
{
    if n <= 0 {
        0
    } else {
        count_grid(sc, n - 1) + count_col(sc[n - 1], sc[n - 1].len() as int)
    }
}

proof fn lemma_count_col_bound(c: Seq<bool>, n: int)
    requires
        n >= 0,
    ensures
        0 <= count_col(c, n) <= n,
    decreases n,
{
    if n > 0 {
        lemma_count_col_bound(c, n - 1);
    }
}

proof fn lemma_count_grid_bound(sc: Seq<Seq<bool>>, w: int, n: int)
    requires
        is_grid(sc, w),
        0 <= n <= w,
    ensures
        0 <= count_grid(sc, n) <= n * w,
    decreases n,
{
    if n > 0 {
        lemma_count_grid_bound(sc, w, n - 1);
        lemma_count_col_bound(sc[n - 1], w);
        assert((n - 1) * w + w == n * w) by (nonlinear_arith);
    }
}

proof fn lemma_count_col_grows(c1: Seq<bool>, c2: Seq<bool>, n: int, y0: int, strict: bool)
    requires
        n >= 0,
        forall|y: int| 0 <= y < n ==> #[trigger] c1[y] ==> c2[y],
        strict ==> 0 <= y0 < n && !c1[y0] && c2[y0],
    ensures
        count_col(c1, n) + (if strict { 1int } else { 0int }) <= count_col(c2, n),
    decreases n,
{
    if n > 0 {
        if strict && y0 == n - 1 {
            lemma_count_col_grows(c1, c2, n - 1, y0, false);
        } else {
            lemma_count_col_grows(c1, c2, n - 1, y0, strict);
        }
    }
}

proof fn lemma_count_grid_grows(g1: Seq<Seq<bool>>, g2: Seq<Seq<bool>>, w: int, n: int, x0: int, y0: int, strict: bool)
    requires
        is_grid(g1, w),
        is_grid(g2, w),
        0 <= n <= w,
        forall|x: int, y: int| 0 <= x < w && 0 <= y < w ==> #[trigger] g1[x][y] ==> g2[x][y],
        strict ==> 0 <= x0 < n && 0 <= y0 < w && !g1[x0][y0] && g2[x0][y0],
    ensures
        count_grid(g1, n) + (if strict { 1int } else { 0int }) <= count_grid(g2, n),
    decreases n,
{
    if n > 0 {
        let x = n - 1;
        let st = strict && x0 == x;
        assert forall|y: int| 0 <= y < w && #[trigger] g1[x][y] implies g2[x][y] by {
            assert(g1[x][y] ==> g2[x][y]);
        }
        lemma_count_col_grows(g1[x], g2[x], w, y0, st);
        if st {
            lemma_count_grid_grows(g1, g2, w, n - 1, x0, y0, false);
        } else {
            lemma_count_grid_grows(g1, g2, w, n - 1, x0, y0, strict);
        }
    }
}

/// The penalty of a state of the block search is at most `3 w^2` per
/// scored module.
pub open spec fn block_state_bounded(s: BlockState, w: int) -> bool {
    &&& is_grid(s.0, w)
    &&& 0 <= s.1 <= 3 * w * w * count_grid(s.0, w)
}

proof fn lemma_attempt_bounded(g: Seq<Seq<bool>>, w: int, s: BlockState, rw: int, y: int, sx: int)
    requires
        is_grid(g, w),
        block_state_bounded(s, w),
        1 <= rw <= w - 1,
        0 <= y <= w - 2,
        0 <= sx <= w - 1 - rw,
    ensures
        block_state_bounded(block_attempt(g, w, s, rw, y, sx).0, w),
{
    let sc = s.0;
    if !(sc[sx][y] || g[sx][y] != g[sx][y + 1]) {
        let color = g[sx][y];
        let f = first_break(g, sc, sx, y, rw, color, 0);
        if f > rw {
            let rh = 1 + free_rows(g, sc, sx, rw, y + 2, color, w - 1);
            lemma_free_rows_nonneg(g, sc, sx, rw, y + 2, color, w - 1);
            let m = mark_block(sc, sx, rw, y, rh);
            assert(is_grid(m, w));
            assert forall|x: int, yy: int| 0 <= x < w && 0 <= yy < w && #[trigger] sc[x][yy] implies m[x][yy] by {}
            assert(m[sx][y]);
            lemma_count_grid_grows(sc, m, w, w, sx, y, true);
            let cnt = count_grid(sc, w);
            assert(3 * rw * rh <= 3 * w * w) by (nonlinear_arith)
                requires 1 <= rw <= w - 1, 1 <= rh <= w - 1;
            assert(s.1 + 3 * rw * rh <= 3 * w * w * (cnt + 1)) by (nonlinear_arith)
                requires s.1 <= 3 * w * w * cnt, 3 * rw * rh <= 3 * w * w;
            assert(3 * w * w * (cnt + 1) <= 3 * w * w * count_grid(m, w)) by (nonlinear_arith)
                requires cnt + 1 <= count_grid(m, w), w >= 0;
            assert(3 * rw * rh >= 0) by (nonlinear_arith) requires rw >= 1, rh >= 1;
        }
    }
}

proof fn lemma_row_bounded(g: Seq<Seq<bool>>, w: int, s: BlockState, rw: int, y: int, sx: int)
    requires
        is_grid(g, w),
        block_state_bounded(s, w),
        1 <= rw <= w - 1,
        0 <= y <= w - 2,
        sx >= 0,
    ensures
        block_state_bounded(block_row(g, w, s, rw, y, sx), w),
    decreases w - rw - sx,
{
    if sx <= w - 1 - rw {
        lemma_attempt_bounded(g, w, s, rw, y, sx);
        let (s2, skip) = block_attempt(g, w, s, rw, y, sx);
        if !skip {
            lemma_row_bounded(g, w, s2, rw, y, sx + 1);
        }
    }
}

proof fn lemma_rows_bounded(g: Seq<Seq<bool>>, w: int, s: BlockState, rw: int, y: int)
    requires
        is_grid(g, w),
        block_state_bounded(s, w),
        1 <= rw <= w - 1,
        y >= 0,
    ensures
        block_state_bounded(block_rows(g, w, s, rw, y), w),
    decreases w - 1 - y,
{
    if y <= w - 2 {
        lemma_row_bounded(g, w, s, rw, y, 0);
        lemma_rows_bounded(g, w, block_row(g, w, s, rw, y, 0), rw, y + 1);
    }
}

proof fn lemma_widths_bounded(g: Seq<Seq<bool>>, w: int, s: BlockState, rw: int)
    requires
        is_grid(g, w),
        block_state_bounded(s, w),
        rw <= w - 1,
    ensures
        block_state_bounded(block_widths(g, w, s, rw), w),
    decreases rw,
{
    if rw >= 1 {
        lemma_rows_bounded(g, w, s, rw, 0);
        lemma_widths_bounded(g, w, block_rows(g, w, s, rw, 0), rw - 1);
    }
}

proof fn lemma_unscored_count(w: int, n: int)
    requires
        0 <= n <= w,
    ensures
        count_grid(unscored(w), n) == 0,
    decreases n,
{
    if n > 0 {
        lemma_unscored_count(w, n - 1);
        lemma_count_col_zero(unscored(w)[n - 1], w);
    }
}

proof fn lemma_count_col_zero(c: Seq<bool>, n: int)
    requires
        forall|y: int| 0 <= y < n ==> !#[trigger] c[y],
    ensures
        count_col(c, n) == 0,
    decreases n,
{
    if n > 0 {
        lemma_count_col_zero(c, n - 1);
    }
}

/// The block penalty of a `w` by `w` grid is at most `3 w^4`.
proof fn lemma_block_penalty_bound(g: Seq<Seq<bool>>, w: int)
    requires
        w >= 2,
        is_grid(g, w),
    ensures
        0 <= block_penalty(g, w) <= 3 * w * w * (w * w),
{
    lemma_unscored_count(w, w);
    assert(is_grid(unscored(w), w));
    lemma_widths_bounded(g, w, (unscored(w), 0), w - 1);
    let fin = block_widths(g, w, (unscored(w), 0), w - 1);
    lemma_count_grid_bound(fin.0, w, w);
    assert(3 * w * w * count_grid(fin.0, w) <= 3 * w * w * (w * w)) by (nonlinear_arith)
        requires count_grid(fin.0, w) <= w * w, w >= 0;
}

// ----- proportion of dark modules -----

/// `round(n / d)` for `n >= 0` and `d > 0`, halves rounded up.
pub open spec fn round_div(n: int, d: int) -> int {
    (2 * n + d) / (2 * d)
}

/// Ten points for every 5% by which the share of dark modules (`ones` of
/// `width * width`) differs from one half, rounded to the nearest step.
pub open spec fn spec_proportion(width: int, ones: int) -> int {
    let area = width * width;
    let dev = if 10 * area >= 20 * ones { 10 * area - 20 * ones } else { 20 * ones - 10 * area };
    10 * round_div(dev, area)
}

fn proportion(width: usize, ones: u32) -> (r: u32)
    requires
        width >= 1,
        width * width <= usize::MAX,
        spec_proportion(width as int, ones as int) <= u32::MAX,
    ensures
        r == spec_proportion(width as int, ones as int),
{
    let area = width * width;
    proof {
        assert(area >= 1) by (nonlinear_arith) requires width >= 1, area == width * width;
        assert(area <= usize::MAX);
    }
    let area128 = area as u128;
    let ones128 = ones as u128;
    let dev: u128 = if 10 * area128 >= 20 * ones128 { 10 * area128 - 20 * ones128 } else { 20 * ones128 - 10 * area128 };
    let k = (2 * dev + area128) / (2 * area128);
    proof {
        assert(10 * k == spec_proportion(width as int, ones as int));
    }
    10 * (k as u32)
}

/// The number of set bits of a byte.
pub open spec fn popcount(b: u8) -> int {
    (if byte_bit(b, 0) { 1int } else { 0int }) + (if byte_bit(b, 1) { 1int } else { 0int })
        + (if byte_bit(b, 2) { 1int } else { 0int }) + (if byte_bit(b, 3) { 1int } else { 0int })
        + (if byte_bit(b, 4) { 1int } else { 0int }) + (if byte_bit(b, 5) { 1int } else { 0int })
        + (if byte_bit(b, 6) { 1int } else { 0int }) + (if byte_bit(b, 7) { 1int } else { 0int })
}

/// The number of set bits of the first `n` bytes of `s`.
pub open spec fn ones_in(s: Seq<u8>, n: int) -> int
    decreases n,
{
    if n <= 0 {
        0
    } else {
        ones_in(s, n - 1) + popcount(s[n - 1])
    }
}

proof fn lemma_ones_in_grows(s: Seq<u8>, a: int, b: int)
    requires
        0 <= a <= b,
    ensures
        ones_in(s, a) <= ones_in(s, b),
    decreases b - a,
{
    if a < b {
        lemma_ones_in_grows(s, a, b - 1);
    }
}

fn count_ones(bytes: &Vec<u8>) -> (r: u32)
    requires
        ones_in(bytes@, bytes.len() as int) <= u32::MAX,
    ensures
        r == ones_in(bytes@, bytes.len() as int),
{
    let mut total: u32 = 0;
    let mut n: usize = 0;
    while n < bytes.len()
        invariant
            n <= bytes.len(),
            ones_in(bytes@, bytes.len() as int) <= u32::MAX,
            total == ones_in(bytes@, n as int),
        decreases bytes.len() - n,
    {
        proof { lemma_ones_in_grows(bytes@, n + 1, bytes.len() as int); }
        let b = bytes[n];
        let mut c: u32 = 0;
        let mut j: u8 = 0;
        while j < 8
            invariant
                j <= 8,
                c <= j,
                c == (if j > 0 && byte_bit(b, 0) { 1int } else { 0int })
                    + (if j > 1 && byte_bit(b, 1) { 1int } else { 0int })
                    + (if j > 2 && byte_bit(b, 2) { 1int } else { 0int })
                    + (if j > 3 && byte_bit(b, 3) { 1int } else { 0int })
                    + (if j > 4 && byte_bit(b, 4) { 1int } else { 0int })
                    + (if j > 5 && byte_bit(b, 5) { 1int } else { 0int })
                    + (if j > 6 && byte_bit(b, 6) { 1int } else { 0int })
                    + (if j > 7 && byte_bit(b, 7) { 1int } else { 0int }),
            decreases 8 - j,
        {
            if (b >> j) & 1 == 1 {
                c = c + 1;
            }
            j = j + 1;
        }
        total = total + c;
        n = n + 1;
    }
    total
}

/// The columns of the top left `w` by `w` square of the bitmap.
fn pixel_grid(input: &Bitmap, width: usize) -> (g: Vec<Vec<bool>>)
    requires
        input.wf(),
        width <= input.spec_width(),
        width <= input.spec_height(),
    ensures
        grid_view(g@) == grid_of(*input, width as nat),
        is_grid(grid_view(g@), width as int),
{
    let mut g: Vec<Vec<bool>> = Vec::new();
    let mut x: usize = 0;
    while x < width
        invariant
            input.wf(),
            width <= input.spec_width(),
            width <= input.spec_height(),
            x <= width,
            g@.len() == x,
            forall|i: int| 0 <= i < x ==> #[trigger] g@[i]@ == grid_of(*input, width as nat)[i],
        decreases width - x,
    {
        let mut col: Vec<bool> = Vec::new();
        let mut y: usize = 0;
        while y < width
            invariant
                input.wf(),
                width <= input.spec_width(),
                width <= input.spec_height(),
                x < width,
                y <= width,
                col@.len() == y,
                forall|j: int| 0 <= j < y ==> #[trigger] col@[j] == input.pixel(x as nat, j as nat),
            decreases width - y,
        {
            let bit = input.get_bit(x, y);
            match bit {
                Some(b) => col.push(b),
                None => {},
            }
            y = y + 1;
        }
        assert(col@ =~= grid_of(*input, width as nat)[x as int]);
        g.push(col);
        x = x + 1;
    }
    assert(grid_view(g@) =~= grid_of(*input, width as nat));
    g
}

proof fn lemma_adjacent_bound(g: Seq<Seq<bool>>, w: int, n: int)
    requires
        is_grid(g, w),
        0 <= n <= w,
    ensures
        0 <= adjacent_penalty(g, n) <= 2 * n * w,
    decreases n,
{
    if n > 0 {
        lemma_adjacent_bound(g, w, n - 1);
        lemma_run_penalty_bound(row_of(g, n - 1), 0, 1);
        lemma_run_penalty_bound(g[n - 1], 0, 1);
        assert(2 * (n - 1) * w + 2 * w == 2 * n * w) by (nonlinear_arith);
    }
}

proof fn lemma_marker_count_bound(g: Seq<Seq<bool>>, w: int, n: int)
    requires
        w >= 7,
        n >= 0,
    ensures
        0 <= marker_count(g, w, n) <= 2 * n * (w - 6),
    decreases n,
{
    if n > 0 {
        lemma_marker_count_bound(g, w, n - 1);
        lemma_markers_in_line_bound(g, n - 1, w - 6);
        assert(2 * (n - 1) * (w - 6) + 2 * (w - 6) == 2 * n * (w - 6)) by (nonlinear_arith);
    }
}

proof fn lemma_ones_in_bound(s: Seq<u8>, n: int)
    requires
        0 <= n,
    ensures
        0 <= ones_in(s, n) <= 8 * n,
    decreases n,
{
    if n > 0 {
        lemma_ones_in_bound(s, n - 1);
    }
}

/// The penalty of every square bitmap from 7 to 177 modules wide (every QR
/// symbol among them) can be computed.
pub proof fn lemma_qr_penalty_computable(b: Bitmap)
    requires
        b.wf(),
        b.spec_width() == b.spec_height(),
        7 <= b.spec_width() <= 177,
    ensures
        penalty_computable(b),
        spec_total_penalty(b) < u32::MAX,
{
    let w = b.spec_width() as int;
    let g = grid_of(b, w as nat);
    assert(is_grid(g, w));
    lemma_adjacent_bound(g, w, w);
    lemma_block_penalty_bound(g, w);
    lemma_marker_count_bound(g, w, w);
    let len = b.bytes().len() as int;
    lemma_ones_in_bound(b.bytes(), len);
    let ones = ones_in(b.bytes(), len);
    assert(len == w * crate::image::row_bytes(w as nat));
    assert(crate::image::row_bytes(w as nat) <= 23);
    assert(len <= 177 * 23) by (nonlinear_arith)
        requires len == w * crate::image::row_bytes(w as nat), w <= 177, crate::image::row_bytes(w as nat) <= 23;
    assert(w * w <= 177 * 177) by (nonlinear_arith) requires 0 <= w <= 177;
    assert(w * w >= 49) by (nonlinear_arith) requires 7 <= w;
    assert(2 * w * w <= 2 * 177 * 177) by (nonlinear_arith) requires 0 <= w <= 177;
    assert(3 * w * w * (w * w) <= 3 * (177 * 177) * (177 * 177)) by (nonlinear_arith)
        requires 0 <= w * w <= 177 * 177;
    assert(2 * w * (w - 6) <= 2 * 177 * 177) by (nonlinear_arith) requires 7 <= w <= 177;
    let area = w * w;
    let dev = if 10 * area >= 20 * ones { 10 * area - 20 * ones } else { 20 * ones - 10 * area };
    assert(0 <= dev <= 20 * 177 * 177 + 20 * 8 * 177 * 23);
    assert(round_div(dev, area) <= dev + 1) by (nonlinear_arith)
        requires area >= 1, dev >= 0;
    assert(round_div(dev, area) >= 0) by (nonlinear_arith)
        requires area >= 1, dev >= 0;
    let bp = block_penalty(g, w);
    assert(bp <= 3 * (177 * 177) * (177 * 177));
    assert(3 * (177 * 177) * (177 * 177) == 2944518723int) by (nonlinear_arith);
    assert(bp < 0x1_0000_0000);
    assert(0 <= bp);
    assert((bp as u32) as int == bp);
}

/// What the four masking penalty rules give for a bitmap: adjacent modules
/// of one colour, blocks of one colour (as 32 bits), finder-like patterns,
/// and the share of dark modules.
pub open spec fn spec_total_penalty(b: Bitmap) -> int {
    let w = b.spec_width() as int;
    let g = grid_of(b, w as nat);
    adjacent_penalty(g, w) + (block_penalty(g, w) as u32) as int + 40 * marker_count(g, w, w)
        + spec_proportion(w, ones_in(b.bytes(), b.bytes().len() as int))
}

/// The penalty of the bitmap can be computed: it is at least 7 modules wide
/// and as high as wide, and no count overflows.
pub open spec fn penalty_computable(b: Bitmap) -> bool {
    let w = b.spec_width() as int;
    let g = grid_of(b, w as nat);
    &&& b.wf()
    &&& 7 <= w <= b.spec_height()
    &&& w * w <= usize::MAX
    &&& adjacent_penalty(g, w) <= i32::MAX
    &&& block_penalty(g, w) <= usize::MAX
    &&& 40 * marker_count(g, w, w) <= u32::MAX
    &&& ones_in(b.bytes(), b.bytes().len() as int) <= u32::MAX
    &&& spec_proportion(w, ones_in(b.bytes(), b.bytes().len() as int)) <= u32::MAX
    &&& spec_total_penalty(b) <= u32::MAX
}

/// The masking penalty of a QR symbol: the sum of the four penalty rules.
pub fn total_penalty(input: &Bitmap) -> (r: u32)
    requires
        penalty_computable(*input),
    ensures
        r == spec_total_penalty(*input),
{
    let width = input.dims().0;
    let ones = count_ones(input.debug_bits());
    let g = pixel_grid(input, width);
    proof {
        let gv = grid_of(*input, width as nat);
        lemma_run_penalty_bound(row_of(gv, 0), 0, 1);
        lemma_adjacent_grows(gv, 0, width as int);
        lemma_marker_count_grows(gv, width as int, 0, width as int);
        lemma_widths_grow(gv, width as int, (unscored(width as int), 0), width - 1);
    }
    let a = adjacent(width, &g);
    let b = block(width, &g);
    let f = fake_marker(width, &g);
    let p = proportion(width, ones);
    a + b + f + p
}

} // verus!
