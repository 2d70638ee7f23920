use vstd::prelude::*;
use vstd::string::StrSliceExecFns;

verus! {

/// The bits of a byte, highest first.
pub open spec fn byte_bools(b: u8) -> Seq<bool> {
    Seq::new(8, |k: int| (b >> ((7 - k) as u8)) & 1u8 == 1u8)
}

/// Converts bytes into arrays of their bits, highest first.
pub fn binarify(bytevec: &Vec<u8>) -> (r: Vec<[bool; 8]>)
    ensures
        r@.len() == bytevec@.len(),
        forall|n: int| 0 <= n < r@.len() ==> (#[trigger] r@[n])@ == byte_bools(bytevec@[n]),
{
    let mut bitvec: Vec<[bool; 8]> = Vec::new();
    let mut n: usize = 0;
    while n < bytevec.len()
        invariant
            n <= bytevec@.len(),
            bitvec@.len() == n,
            forall|k: int| 0 <= k < n ==> (#[trigger] bitvec@[k])@ == byte_bools(bytevec@[k]),
        decreases bytevec@.len() - n,
    {
        let byte = bytevec[n];
        let mut bits: [bool; 8] = [false; 8];
        let mut id: usize = 0;
        while id < 8
            invariant
                id <= 8,
                bits@.len() == 8,
                forall|k: int| 7 - id < k < 8 ==> #[trigger] bits@[k] == byte_bools(byte)[k],
            decreases 8 - id,
        {
            let bit = (byte & (1u8 << (id as u8))) != 0;
            proof {
                let i = id as u8;
                assert(((byte & (1u8 << i)) != 0u8) == ((byte >> i) & 1u8 == 1u8)) by (bit_vector)
                    requires i < 8;
                assert(byte_bools(byte)[7 - id as int] == ((byte >> ((7 - (7 - id as int)) as u8)) & 1u8 == 1u8));
            }
            bits.set(7 - id, bit);
            id = id + 1;
        }
        bitvec.push(bits);
        proof {
            assert(bits@ =~= byte_bools(byte));
        }
        n = n + 1;
    }
    bitvec
}

/// The character that a curve cell holds: the character of the string at
/// the cell's number, if the cell has one and the string is long enough.
pub open spec fn curve_char(num: Option<u32>, letters: Seq<char>) -> Option<char> {
    match num {
        Some(k) => if (k as int) < letters.len() { Some(letters[k as int]) } else { None },
        None => None,
    }
}

/// Places the characters of `string` on the cells of a curve by their
/// numbers.
pub fn curve_to_text(curve: &Vec<Vec<Option<u32>>>, string: &str) -> (r: Vec<Vec<Option<char>>>)
    requires
        forall|y: int, x: int| 0 <= y < curve@.len() && 0 <= x < curve@[y]@.len()
            ==> (#[trigger] curve@[y]@[x] matches Some(k) ==> k < u32::MAX),
    ensures
        r@.len() == curve@.len(),
        forall|y: int| 0 <= y < r@.len() ==> (#[trigger] r@[y])@ == curve@[y]@.map_values(|num: Option<u32>| curve_char(num, string@)),
{
    let n = string.unicode_len();
    let mut letvec: Vec<char> = Vec::new();
    let mut i: usize = 0;
    while i < n
        invariant
            n == string@.len(),
            i <= n,
            letvec@ == string@.subrange(0, i as int),
        decreases n - i,
    {
        letvec.push(string.get_char(i));
        proof { assert(letvec@ =~= string@.subrange(0, i + 1)); }
        i = i + 1;
    }
    assert(letvec@ =~= string@);
    let mut output: Vec<Vec<Option<char>>> = Vec::new();
    let mut y: usize = 0;
    while y < curve.len()
        invariant
            letvec@ == string@,
            forall|yy: int, x: int| 0 <= yy < curve@.len() && 0 <= x < curve@[yy]@.len()
                ==> (#[trigger] curve@[yy]@[x] matches Some(k) ==> k < u32::MAX),
            y <= curve@.len(),
            output@.len() == y,
            forall|yy: int| 0 <= yy < y ==> (#[trigger] output@[yy])@ == curve@[yy]@.map_values(|num: Option<u32>| curve_char(num, string@)),
        decreases curve@.len() - y,
    {
        let line = &curve[y];
        let mut row: Vec<Option<char>> = Vec::new();
        let mut x: usize = 0;
        while x < line.len()
            invariant
                letvec@ == string@,
                line@ == curve@[y as int]@,
                forall|xx: int| 0 <= xx < line@.len() ==> (#[trigger] line@[xx] matches Some(k) ==> k < u32::MAX),
                x <= line@.len(),
                row@ == line@.subrange(0, x as int).map_values(|num: Option<u32>| curve_char(num, string@)),
            decreases line@.len() - x,
        {
            let cell = match line[x] {
                Some(k) => if ((k + 1) as usize) > letvec.len() { None } else { Some(letvec[k as usize]) },
                None => None,
            };
            row.push(cell);
            proof {
                assert(row@ =~= line@.subrange(0, x + 1).map_values(|num: Option<u32>| curve_char(num, string@)));
            }
            x = x + 1;
        }
        proof {
            assert(line@.subrange(0, x as int) =~= line@);
        }
        output.push(row);
        y = y + 1;
    }
    output
}

/// The coordinates after placing cell `(x, y)` with number `num`: the list
/// is grown with `(0, 0)` to hold the number, and the cell is recorded
/// unless its number already has a position other than `(0, 0)`.
pub open spec fn place_cell(coords: Seq<(usize, usize)>, num: Option<u32>, x: usize, y: usize) -> Seq<(usize, usize)> {
    match num {
        None => coords,
        Some(k) => {
            let n = k as int;
            let grown = if n + 1 > coords.len() {
                coords + Seq::new((n + 1 - coords.len()) as nat, |i: int| (0usize, 0usize))
            } else {
                coords
            };
            if grown[n] != (0usize, 0usize) { grown } else { grown.update(n, (x, y)) }
        },
    }
}

/// The coordinates after the first `x` cells of row `y`.
pub open spec fn place_row(coords: Seq<(usize, usize)>, line: Seq<Option<u32>>, y: usize, x: int) -> Seq<(usize, usize)>
    decreases x,
{
    if x <= 0 {
        coords
    } else {
        place_cell(place_row(coords, line, y, x - 1), line[x - 1], (x - 1) as usize, y)
    }
}

/// The coordinates after the first `y` rows of the curve.
pub open spec fn place_rows(curve: Seq<Seq<Option<u32>>>, y: int) -> Seq<(usize, usize)>
    decreases y,
{
    if y <= 0 {
        Seq::empty()
    } else {
        place_row(place_rows(curve, y - 1), curve[y - 1], (y - 1) as usize, curve[y - 1].len() as int)
    }
}

/// The rows of a curve, as sequences.
pub open spec fn curve_view(curve: Seq<Vec<Option<u32>>>) -> Seq<Seq<Option<u32>>> {
    curve.map_values(|line: Vec<Option<u32>>| line@)
}

/// The position of every number of a curve (cells hold the numbers); a
/// number placed twice keeps its first position.
pub fn curve_to_coords(curve: &Vec<Vec<Option<u32>>>) -> (r: Vec<(usize, usize)>)
    requires
        forall|y: int, x: int| 0 <= y < curve@.len() && 0 <= x < curve@[y]@.len()
            ==> (#[trigger] curve@[y]@[x] matches Some(k) ==> k < u32::MAX),
    ensures
        r@ == place_rows(curve_view(curve@), curve@.len() as int),
{
    let ghost cv = curve_view(curve@);
    let mut coords: Vec<(usize, usize)> = Vec::new();
    let mut y: usize = 0;
    while y < curve.len()
        invariant
            cv == curve_view(curve@),
            forall|yy: int, x: int| 0 <= yy < curve@.len() && 0 <= x < curve@[yy]@.len()
                ==> (#[trigger] curve@[yy]@[x] matches Some(k) ==> k < u32::MAX),
            y <= curve@.len(),
            coords@ == place_rows(cv, y as int),
        decreases curve@.len() - y,
    {
        let line = &curve[y];
        let ghost start = coords@;
        let mut x: usize = 0;
        while x < line.len()
            invariant
                line@ == curve@[y as int]@,
                cv[y as int] == line@,
                forall|xx: int| 0 <= xx < line@.len() ==> (#[trigger] line@[xx] matches Some(k) ==> k < u32::MAX),
                x <= line@.len(),
                coords@ == place_row(start, line@, y, x as int),
            decreases line@.len() - x,
        {
            match line[x] {
                None => {},
                Some(k) => {
                    let n = k as usize;
                    let ghost before = coords@;
                    if n + 1 > coords.len() {
                        let target = n + 1;
                        while coords.len() < target
                            invariant
                                target == n + 1,
                                before.len() < target,
                                before.len() <= coords@.len() <= target,
                                coords@ == before + Seq::new((coords@.len() - before.len()) as nat, |i: int| (0usize, 0usize)),
                            decreases target - coords@.len(),
                        {
                            coords.push((0, 0));
                            proof {
                                assert(coords@ =~= before + Seq::new((coords@.len() - before.len()) as nat, |i: int| (0usize, 0usize)));
                            }
                        }
                    }
                    let (cx, cy) = coords[n];
                    if !(cx == 0 && cy == 0) {
                        // a repeated point keeps its first position
                    } else {
                        coords.set(n, (x, y));
                    }
                },
            }
            x = x + 1;
        }
        y = y + 1;
    }
    coords
}

} // verus!
