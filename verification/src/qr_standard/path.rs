//! The zigzag path of the data modules: it numbers every module outside the
//! vertical timing pattern, and the data modules follow it in that order.
use vstd::prelude::*;
use vstd::arithmetic::div_mod::{lemma_fundamental_div_mod, lemma_fundamental_div_mod_converse};
use super::{max_index, zig_step, zig_walk, spec_next_data_bit, spec_coord_is_data, spec_coord_status,
    spec_out_of_bounds, spec_bad_version};
use super::badstream::walk_cell;
use super::{first_close, spec_in_alignment};
use super::tables::{ap_centers, lemma_ap_centers};

verus! {

/// The number of places on the zigzag path of a symbol whose largest
/// coordinate is `max`: every module but those of column 6.
pub open spec fn path_len(max: int) -> int {
    max * (max + 1)
}

/// The place on the path that has number `t`: pairs of columns from the
/// right, the right column of a pair before the left one, going up in the
/// even pairs and down in the odd ones.
pub open spec fn path_cell(max: int, t: int) -> (int, int) {
    let m2 = 2 * (max + 1);
    let p = t / m2;
    let q = t % m2;
    let r = q / 2;
    let left = q % 2;
    let right_col = if p < (max - 6) / 2 { max - 2 * p } else { 5 - 2 * (p - (max - 6) / 2) };
    (right_col - left, if p % 2 == 0 { max - r } else { r })
}

/// The number of place `(x, y)` on the path.
pub open spec fn path_rank(max: int, x: int, y: int) -> int {
    let p = if x > 6 { (max - x) / 2 } else { (max - 6) / 2 + (5 - x) / 2 };
    let left = if x > 6 { (max - x) % 2 } else { (5 - x) % 2 };
    let r = if p % 2 == 0 { max - y } else { y };
    p * (2 * (max + 1)) + 2 * r + left
}

/// `(x, y)` is a place on the path.
pub open spec fn on_path(max: int, x: int, y: int) -> bool {
    0 <= x <= max && 0 <= y <= max && x != 6
}

/// The largest coordinates of QR symbols: 20 to 176, multiples of 4.
pub open spec fn symbol_max(max: int) -> bool {
    20 <= max <= 176 && max % 4 == 0
}

proof fn lemma_cell_rank(max: int, t: int)
    requires
        symbol_max(max),
        0 <= t < path_len(max),
    ensures
        on_path(max, path_cell(max, t).0, path_cell(max, t).1),
        path_rank(max, path_cell(max, t).0, path_cell(max, t).1) == t,
{
    let m2 = 2 * (max + 1);
    lemma_fundamental_div_mod(t, m2);
    let p = t / m2;
    let q = t % m2;
    assert(0 <= q < m2);
    assert(0 <= p < max / 2) by (nonlinear_arith)
        requires t == m2 * p + q, 0 <= q < m2, 0 <= t < max * (max + 1), m2 == 2 * (max + 1), max >= 20, max % 4 == 0;
    assert(p * m2 == m2 * p) by (nonlinear_arith);
}

proof fn lemma_rank_cell(max: int, x: int, y: int)
    requires
        symbol_max(max),
        on_path(max, x, y),
    ensures
        0 <= path_rank(max, x, y) < path_len(max),
        path_cell(max, path_rank(max, x, y)) == (x, y),
{
    let m2 = 2 * (max + 1);
    let p = if x > 6 { (max - x) / 2 } else { (max - 6) / 2 + (5 - x) / 2 };
    let left = if x > 6 { (max - x) % 2 } else { (5 - x) % 2 };
    let r = if p % 2 == 0 { max - y } else { y };
    let q = 2 * r + left;
    assert(0 <= p < max / 2);
    assert(0 <= q < m2);
    let t = p * m2 + q;
    assert(0 <= t < max * (max + 1)) by (nonlinear_arith)
        requires t == p * m2 + q, 0 <= p < max / 2, 0 <= q < m2, m2 == 2 * (max + 1), max % 4 == 0, max >= 20;
    lemma_fundamental_div_mod_converse(t, m2, p, q);
}

/// The path starts at the bottom right corner and ends at the bottom left.
proof fn lemma_path_ends(max: int)
    requires
        symbol_max(max),
    ensures
        path_rank(max, max, max) == 0,
        path_rank(max, 0, max) == path_len(max) - 1,
{
    assert((max - max) / 2 == 0);
    assert(0 * (2 * (max + 1)) == 0);
    assert(((max - 6) / 2 + 2) * (2 * (max + 1)) + 2 * max + 1 == max * (max + 1) - 1) by (nonlinear_arith)
        requires max % 4 == 0, max >= 20;
}

proof fn lemma_step_rank(max: int, x: int, y: int)
    requires
        symbol_max(max),
        on_path(max, x, y),
        !(x == 0 && y == max),
    ensures
        on_path(max, zig_step(x, y, max).0, zig_step(x, y, max).1),
        path_rank(max, zig_step(x, y, max).0, zig_step(x, y, max).1) == path_rank(max, x, y) + 1,
{
    let m2 = 2 * (max + 1);
    let p = if x > 6 { (max - x) / 2 } else { (max - 6) / 2 + (5 - x) / 2 };
    let left = if x > 6 { (max - x) % 2 } else { (5 - x) % 2 };
    let r = if p % 2 == 0 { max - y } else { y };
    assert((p + 1) * m2 == p * m2 + m2) by (nonlinear_arith);
    assert(path_rank(max, x, y) == p * m2 + 2 * r + left);
    let (a, b) = zig_step(x, y, max);
    if left == 0 {
        assert((x % 2 == 0) != (x < 6));
        assert(b == y);
        if x > 6 {
            assert(a == x - 1 && a > 6);
            assert((max - a) / 2 == p && (max - a) % 2 == 1);
        } else {
            assert(a == x - 1 && a < 6);
            assert((5 - a) / 2 == (5 - x) / 2 && (5 - a) % 2 == 1);
        }
    } else {
        assert((x % 2 == 0) == (x < 6));
        let up = (((max - x) / 2) % 2 == 0) != (x < 6);
        assert(up == (p % 2 == 0));
        if (y == 0 && up) || (y == max && !up) {
            assert(r == max);
            assert(b == y);
            if x == 7 {
                assert(a == 5);
                assert((max - 6) / 2 + (5 - a) / 2 == p + 1);
            } else if x > 6 {
                assert(a == x - 1 && a > 6);
                assert((max - a) / 2 == p + 1 && (max - a) % 2 == 0);
            } else {
                assert(x != 0);
                assert(a == x - 1);
                assert((5 - a) / 2 == (5 - x) / 2 + 1 && (5 - a) % 2 == 0);
            }
        } else {
            assert(a == x + 1 && a != 6);
            if x > 6 {
                assert((max - a) / 2 == p && (max - a) % 2 == 0);
            } else {
                assert((5 - a) / 2 == (5 - x) / 2 && (5 - a) % 2 == 0);
            }
        }
    }
}

/// One move along the zigzag path goes to the next place.
proof fn lemma_step(max: int, t: int)
    requires
        symbol_max(max),
        0 <= t < path_len(max) - 1,
    ensures
        zig_step(path_cell(max, t).0, path_cell(max, t).1, max) == path_cell(max, t + 1),
{
    lemma_cell_rank(max, t);
    let (x, y) = path_cell(max, t);
    let (a, b) = zig_step(x, y, max);
    lemma_path_ends(max);
    if x == 0 && y == max {
        lemma_rank_cell(max, 0, max);
    }
    lemma_step_rank(max, x, y);
    lemma_rank_cell(max, a, b);
}

proof fn lemma_none_close(c: Seq<usize>, z: int, i: int)
    requires
        0 <= i,
        forall|j: int| 0 <= j < c.len() ==> #[trigger] c[j] + 3 <= z,
    ensures
        first_close(c, z, i) is None,
    decreases c.len() - i,
{
    if i < c.len() {
        lemma_none_close(c, z, i + 1);
    }
}

/// The bottom right module, where the path starts, is a data module.
proof fn lemma_corner_data(version: int)
    requires
        1 <= version <= 40,
    ensures
        spec_coord_is_data(max_index(version), max_index(version), version),
{
    let max = max_index(version);
    lemma_ap_centers(version);
    lemma_none_close(ap_centers(version), max, 0);
    assert(!spec_in_alignment(max, max, version));
}

/// The first data module at or after place `t` of the path.
pub open spec fn first_data_from(version: int, t: int) -> Option<(int, int)>
    decreases path_len(max_index(version)) - t,
{
    let max = max_index(version);
    if t < 0 || t >= path_len(max) {
        None
    } else if spec_coord_is_data(path_cell(max, t).0, path_cell(max, t).1, version) {
        Some(path_cell(max, t))
    } else {
        first_data_from(version, t + 1)
    }
}

proof fn lemma_first_data(version: int, t: int)
    requires
        1 <= version <= 40,
        0 <= t,
    ensures
        first_data_from(version, t) matches Some((x, y)) ==> spec_coord_is_data(x, y, version)
            && on_path(max_index(version), x, y) && t <= path_rank(max_index(version), x, y),
    decreases path_len(max_index(version)) - t,
{
    let max = max_index(version);
    if t < path_len(max) {
        lemma_cell_rank(max, t);
        lemma_first_data(version, t + 1);
    }
}

/// A data module is a place on the path other than its last.
proof fn lemma_data_on_path(version: int, x: int, y: int)
    requires
        1 <= version <= 40,
        0 <= x,
        0 <= y,
        spec_coord_is_data(x, y, version),
    ensures
        on_path(max_index(version), x, y),
        path_rank(max_index(version), x, y) < path_len(max_index(version)) - 1,
{
    let max = max_index(version);
    lemma_path_ends(max);
    lemma_rank_cell(max, x, y);
    if path_rank(max, x, y) == path_len(max) - 1 {
        lemma_rank_cell(max, 0, max);
    }
}

proof fn lemma_walk_from(version: int, t: int, fuel: nat)
    requires
        1 <= version <= 40,
        0 <= t < path_len(max_index(version)) - 1,
        fuel >= path_len(max_index(version)) - 1 - t,
    ensures
        zig_walk(path_cell(max_index(version), t).0, path_cell(max_index(version), t).1, version, fuel)
            == first_data_from(version, t + 1),
    decreases fuel,
{
    let max = max_index(version);
    lemma_step(max, t);
    let (a, b) = path_cell(max, t + 1);
    lemma_path_ends(max);
    lemma_cell_rank(max, t + 1);
    if !spec_coord_is_data(a, b, version) {
        if a == 0 && b == max {
            assert(t + 1 == path_len(max) - 1);
            assert(!spec_coord_is_data(0, max, version));
            assert(first_data_from(version, t + 2) is None);
        } else {
            if t + 1 == path_len(max) - 1 {
                lemma_rank_cell(max, 0, max);
            }
            lemma_walk_from(version, t + 1, (fuel - 1) as nat);
        }
    }
}

/// The data module after a data module is the first data module later on
/// the path.
proof fn lemma_next_is_first(version: int, x: int, y: int)
    requires
        1 <= version <= 40,
        0 <= x,
        0 <= y,
        spec_coord_is_data(x, y, version),
    ensures
        spec_next_data_bit(x, y, version) == first_data_from(version, path_rank(max_index(version), x, y) + 1),
{
    let max = max_index(version);
    lemma_data_on_path(version, x, y);
    let t = path_rank(max, x, y);
    lemma_rank_cell(max, x, y);
    assert((max + 1) * (max + 1) >= path_len(max)) by (nonlinear_arith)
        requires max >= 0;
    lemma_walk_from(version, t, ((max + 1) * (max + 1)) as nat);
}

/// The number of data modules before place `t` of the path.
pub open spec fn data_before(version: int, t: int) -> nat
    decreases t,
{
    if t <= 0 {
        0
    } else {
        data_before(version, t - 1) + (if spec_coord_is_data(path_cell(max_index(version), t - 1).0,
            path_cell(max_index(version), t - 1).1, version) { 1nat } else { 0nat })
    }
}

proof fn lemma_walk_counts(version: int, t: int)
    requires
        1 <= version <= 40,
        0 <= t <= path_len(max_index(version)),
    ensures
        walk_cell(version, data_before(version, t)) == first_data_from(version, t),
    decreases t,
{
    let max = max_index(version);
    lemma_path_ends(max);
    if t == 0 {
        lemma_rank_cell(max, max, max);
        lemma_corner_data(version);
    } else {
        lemma_walk_counts(version, t - 1);
        lemma_cell_rank(max, t - 1);
        let (x, y) = path_cell(max, t - 1);
        if spec_coord_is_data(x, y, version) {
            lemma_next_is_first(version, x, y);
        }
    }
}

proof fn lemma_walk_rises(version: int, k: nat)
    requires
        1 <= version <= 40,
    ensures
        data_point(version, walk_cell(version, k)),
        walk_cell(version, k + 1) matches Some((a, b)) ==> (walk_cell(version, k) matches Some((x, y))
            && path_rank(max_index(version), x, y) < path_rank(max_index(version), a, b)),
    decreases k,
{
    let max = max_index(version);
    if k == 0 {
        lemma_corner_data(version);
    } else {
        lemma_walk_rises(version, (k - 1) as nat);
        match walk_cell(version, (k - 1) as nat) {
            Some((x, y)) => {
                lemma_next_is_first(version, x, y);
                lemma_data_on_path(version, x, y);
                lemma_first_data(version, path_rank(max, x, y) + 1);
            },
            None => {},
        }
    }
    match walk_cell(version, k) {
        Some((x, y)) => {
            lemma_data_on_path(version, x, y);
            lemma_next_is_first(version, x, y);
            lemma_first_data(version, path_rank(max, x, y) + 1);
        },
        None => {},
    }
}

proof fn lemma_walk_order(version: int, j: nat, k: nat)
    requires
        1 <= version <= 40,
        j < k,
        walk_cell(version, k) is Some,
    ensures
        walk_cell(version, j) matches Some((x, y)) && walk_cell(version, k) matches Some((a, b))
            && path_rank(max_index(version), x, y) < path_rank(max_index(version), a, b),
    decreases k - j,
{
    lemma_walk_rises(version, (k - 1) as nat);
    if j + 1 < k {
        lemma_walk_order(version, j, (k - 1) as nat);
    }
}

/// Nothing, or a data module of the symbol.
pub open spec fn data_point(version: int, c: Option<(int, int)>) -> bool {
    match c {
        Some((x, y)) => 0 <= x && 0 <= y && spec_coord_is_data(x, y, version),
        None => true,
    }
}

/// The data path of a symbol, which starts at the bottom right module and
/// goes from each data module to the next with `next_data_bit`, meets only
/// data modules, never meets one twice, meets every data module, and ends
/// after the last of them.
pub proof fn lemma_data_path(version: int)
    requires
        1 <= version <= 40,
    ensures
        forall|k: nat| data_point(version, #[trigger] walk_cell(version, k)),
        forall|j: nat, k: nat| j < k && walk_cell(version, k) is Some ==>
            #[trigger] walk_cell(version, j) != #[trigger] walk_cell(version, k),
        forall|x: int, y: int| 0 <= x && 0 <= y && #[trigger] spec_coord_is_data(x, y, version) ==>
            exists|k: nat| #[trigger] walk_cell(version, k) == Some((x, y)),
        walk_cell(version, data_before(version, path_len(max_index(version)))) is None,
{
    let max = max_index(version);
    assert forall|k: nat| data_point(version, #[trigger] walk_cell(version, k)) by {
        lemma_walk_rises(version, k);
    }
    assert forall|j: nat, k: nat| j < k && walk_cell(version, k) is Some implies
        #[trigger] walk_cell(version, j) != #[trigger] walk_cell(version, k) by {
        lemma_walk_order(version, j, k);
    }
    assert forall|x: int, y: int| 0 <= x && 0 <= y && #[trigger] spec_coord_is_data(x, y, version) implies
        exists|k: nat| #[trigger] walk_cell(version, k) == Some((x, y)) by {
        lemma_data_on_path(version, x, y);
        lemma_rank_cell(max, x, y);
        let t = path_rank(max, x, y);
        lemma_walk_counts(version, t);
        assert(walk_cell(version, data_before(version, t)) == Some((x, y)));
    }
    lemma_walk_counts(version, path_len(max));
}

} // verus!
