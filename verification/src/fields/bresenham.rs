//! Bresenham's line algorithm determines the cells of a raster that a line
//! between two cells passes through

use vstd::prelude::*;
use crate::fields::FieldCell;
use crate::utilities::FIELD_RESOLUTION;

verus! {

/// Offset along the minor axis of the `i`-th cell of a raster line whose
/// major axis changes by `a` and minor axis by `b` (`0 <= b <= a`): the
/// nearest whole offset to `i * b / a`, rounding halves down
pub open spec fn minor_offset(i: int, a: int, b: int) -> int {
    if a == 0 {
        0
    } else {
        (2 * b * i + a - 1) / (2 * a)
    }
}

/// Absolute value of an integer
pub open spec fn abs(x: int) -> int {
    if x < 0 {
        -x
    } else {
        x
    }
}

/// The cells of a shallow raster line from `(col_0, row_0)` to
/// `(col_1, row_1)`, one per column
pub open spec fn shallow_line(col_0: int, row_0: int, col_1: int, row_1: int) -> Seq<FieldCell> {
    let a = col_1 - col_0;
    let b = abs(row_1 - row_0);
    Seq::new(
        (a + 1) as nat,
        |i: int|
            FieldCell::at(
                col_0 + i,
                if row_1 >= row_0 {
                    row_0 + minor_offset(i, a, b)
                } else {
                    row_0 - minor_offset(i, a, b)
                },
            ),
    )
}

/// The cells of a steep raster line from `(col_0, row_0)` to
/// `(col_1, row_1)`, one per row
pub open spec fn steep_line(col_0: int, row_0: int, col_1: int, row_1: int) -> Seq<FieldCell> {
    let a = row_1 - row_0;
    let b = abs(col_1 - col_0);
    Seq::new(
        (a + 1) as nat,
        |i: int|
            FieldCell::at(
                if col_1 >= col_0 {
                    col_0 + minor_offset(i, a, b)
                } else {
                    col_0 - minor_offset(i, a, b)
                },
                row_0 + i,
            ),
    )
}

/// The minor offset starts at zero, ends at the full minor change and moves
/// by at most one per step
pub proof fn lemma_minor_offset_steps(i: int, a: int, b: int)
    requires
        0 <= b <= a,
        0 <= i,
    ensures
        minor_offset(0, a, b) == 0,
        a > 0 ==> minor_offset(a, a, b) == b,
        0 <= minor_offset(i + 1, a, b) - minor_offset(i, a, b) <= 1,
{
    if a > 0 {
        let d = 2 * a;
        vstd::arithmetic::div_mod::lemma_fundamental_div_mod_converse(a - 1, d, 0, a - 1);
        assert(2 * b * a + a - 1 == d * b + (a - 1)) by (nonlinear_arith)
            requires
                d == 2 * a,
        ;
        vstd::arithmetic::div_mod::lemma_fundamental_div_mod_converse(2 * b * a + a - 1, d, b, a - 1);
        let x = 2 * b * i + a - 1;
        let y = 2 * b * (i + 1) + a - 1;
        assert(y == x + 2 * b) by (nonlinear_arith)
            requires
                x == 2 * b * i + a - 1,
                y == 2 * b * (i + 1) + a - 1,
        ;
        assert(x >= 0) by (nonlinear_arith)
            requires
                0 <= b,
                0 <= i,
                a > 0,
                x == 2 * b * i + a - 1,
        ;
        vstd::arithmetic::div_mod::lemma_fundamental_div_mod(x, d);
        vstd::arithmetic::div_mod::lemma_fundamental_div_mod(y, d);
        let q = x / d;
        let qq = y / d;
        let k = qq - q;
        assert(d * k == d * qq - d * q) by (nonlinear_arith)
            requires
                k == qq - q,
        ;
        assert(-d < d * k < 2 * d);
        assert(0 <= k <= 1) by (nonlinear_arith)
            requires
                -d < d * k,
                d * k < 2 * d,
                d > 0,
        ;
    }
}

/// The minor offset is pinned down by the two bounds kept by the walk
proof fn lemma_offset_from_bounds(i: int, a: int, b: int, off: int, two_a_off: int, two_b_i: int)
    requires
        a > 0,
        0 <= i,
        two_a_off == 2 * a * off,
        two_b_i == 2 * b * i,
        two_a_off <= two_b_i + a - 1,
        two_b_i + a - 1 < two_a_off + 2 * a,
    ensures
        off == minor_offset(i, a, b),
{
    let x = 2 * b * i + a - 1;
    let r = x - 2 * a * off;
    assert(x == (2 * a) * off + r);
    vstd::arithmetic::div_mod::lemma_fundamental_div_mod_converse(x, 2 * a, off, r);
}

/// Walk a line along its major axis (one cell per step), moving along the
/// minor axis when the error bound says so. Returns the major and minor
/// coordinates visited
fn walk_major(maj_0: i32, min_0: i32, maj_1: i32, min_1: i32) -> (cells: Vec<(i32, i32)>)
    requires
        0 <= maj_0 <= maj_1 < FIELD_RESOLUTION,
        0 <= min_0 < FIELD_RESOLUTION,
        0 <= min_1 < FIELD_RESOLUTION,
        abs(min_1 - min_0) <= maj_1 - maj_0,
    ensures
        cells@.len() == maj_1 - maj_0 + 1,
        forall|i: int|
            0 <= i < cells@.len() ==> {
                let off = minor_offset(i, maj_1 - maj_0, abs(min_1 - min_0));
                &&& (#[trigger] cells@[i]).0 == maj_0 + i
                &&& cells@[i].1 == if min_1 >= min_0 {
                    min_0 + off
                } else {
                    min_0 - off
                }
            },
{
    let mut cells: Vec<(i32, i32)> = Vec::new();
    let delta_maj = maj_1 - maj_0;
    let mut delta_min = min_1 - min_0;
    let mut min_increment: i32 = 1;
    if delta_min < 0 {
        min_increment = -1;
        delta_min = -delta_min;
    }
    let ghost a = delta_maj as int;
    let ghost b = delta_min as int;
    let mut difference: i32 = 2 * delta_min - delta_maj;
    let mut minor = min_0;
    let mut major = maj_0;
    let ghost mut off: int = 0;
    let ghost mut two_a_off: int = 0;
    let ghost mut two_b_i: int = 0;
    while major <= maj_1
        invariant
            a == maj_1 - maj_0,
            a == delta_maj,
            b == delta_min,
            0 <= off <= b + 1,
            0 <= min_0 < FIELD_RESOLUTION,
            0 <= min_1 < FIELD_RESOLUTION,
            b == abs(min_1 - min_0),
            0 <= b <= a,
            a < FIELD_RESOLUTION,
            min_increment == (if min_1 >= min_0 { 1int } else { -1int }),
            maj_0 <= major <= maj_1 + 1,
            maj_1 < FIELD_RESOLUTION,
            cells@.len() == major - maj_0,
            two_b_i == 2 * b * (major - maj_0),
            two_a_off == 2 * a * off,
            difference == 2 * b + two_b_i - a - two_a_off,
            0 <= off <= major - maj_0,
            minor == if min_1 >= min_0 { min_0 + off } else { min_0 - off },
            a > 0 && major <= maj_1 ==> two_a_off <= two_b_i + a - 1 && two_b_i + a - 1
                < two_a_off + 2 * a,
            a == 0 ==> off == 0,
            forall|i: int|
                0 <= i < cells@.len() ==> {
                    let o = minor_offset(i, a, b);
                    &&& (#[trigger] cells@[i]).0 == maj_0 + i
                    &&& cells@[i].1 == if min_1 >= min_0 {
                        min_0 + o
                    } else {
                        min_0 - o
                    }
                },
        decreases maj_1 + 1 - major,
    {
        proof {
            if a > 0 {
                lemma_offset_from_bounds(major - maj_0, a, b, off, two_a_off, two_b_i);
            }
            assert(2 * b * (major - maj_0 + 1) == two_b_i + 2 * b) by (nonlinear_arith)
                requires two_b_i == 2 * b * (major - maj_0);
            assert(2 * a * (off + 1) == two_a_off + 2 * a) by (nonlinear_arith)
                requires two_a_off == 2 * a * off;
            assert(0 <= two_b_i <= 2 * 9 * 10 && 0 <= two_a_off <= 2 * 9 * 10) by (nonlinear_arith)
                requires
                    two_a_off == 2 * a * off,
                    two_b_i == 2 * b * (major - maj_0),
                    0 <= major - maj_0 <= a,
                    0 <= b <= a,
                    a < 10,
                    0 <= off <= b + 1;
            assert(off <= b) by (nonlinear_arith)
                requires
                    a > 0 ==> two_a_off <= two_b_i + a - 1,
                    two_a_off == 2 * a * off,
                    two_b_i == 2 * b * (major - maj_0),
                    major - maj_0 <= a,
                    0 <= b <= a,
                    a == 0 ==> off == 0,
                    0 <= off;
        }
        cells.push((major, minor));
        if difference > 0 {
            minor = minor + min_increment;
            difference = difference + 2 * (delta_min - delta_maj);
            proof {
                off = off + 1;
                two_a_off = two_a_off + 2 * a;
            }
        } else {
            difference = difference + 2 * delta_min;
        }
        proof {
            two_b_i = two_b_i + 2 * b;
        }
        major = major + 1;
    }
    cells
}

/// When finding a shallow raster representation of a line step through the
/// columns and increment the row based on an error bound.
///
/// This function is used when the row delta is smaller than the column delta
pub fn walk_bresenham_shallow(col_0: i32, row_0: i32, col_1: i32, row_1: i32) -> (cells: Vec<
    FieldCell,
>)
    requires
        0 <= col_0 <= col_1 < FIELD_RESOLUTION,
        0 <= row_0 < FIELD_RESOLUTION,
        0 <= row_1 < FIELD_RESOLUTION,
        abs(row_1 - row_0) <= col_1 - col_0,
    ensures
        cells@ == shallow_line(col_0 as int, row_0 as int, col_1 as int, row_1 as int),
        forall|i: int| 0 <= i < cells@.len() ==> (#[trigger] cells@[i]).wf(),
{
    let pairs = walk_major(col_0, row_0, col_1, row_1);
    let ghost want = shallow_line(col_0 as int, row_0 as int, col_1 as int, row_1 as int);
    let mut cells: Vec<FieldCell> = Vec::new();
    let mut k: usize = 0;
    while k < pairs.len()
        invariant
            0 <= k <= pairs@.len(),
            pairs@.len() == want.len(),
            want == shallow_line(col_0 as int, row_0 as int, col_1 as int, row_1 as int),
            0 <= col_0 <= col_1 < FIELD_RESOLUTION,
            0 <= row_0 < FIELD_RESOLUTION,
            0 <= row_1 < FIELD_RESOLUTION,
            abs(row_1 - row_0) <= col_1 - col_0,
            forall|i: int|
                0 <= i < pairs@.len() ==> {
                    let off = minor_offset(i, col_1 - col_0, abs(row_1 - row_0));
                    &&& (#[trigger] pairs@[i]).0 == col_0 + i
                    &&& pairs@[i].1 == if row_1 >= row_0 {
                        row_0 + off
                    } else {
                        row_0 - off
                    }
                },
            cells@ == want.take(k as int),
            forall|i: int| 0 <= i < cells@.len() ==> (#[trigger] cells@[i]).wf(),
        decreases pairs@.len() - k,
    {
        let (c, r) = pairs[k];
        proof {
            lemma_offset_in_range(k as int, col_1 - col_0, abs(row_1 - row_0));
        }
        cells.push(FieldCell::new(c as usize, r as usize));
        assert(cells@ =~= want.take(k + 1));
        k = k + 1;
    }
    assert(want.take(k as int) =~= want);
    cells
}

/// When finding a steep raster representation of a line step through the
/// rows and increment the column based on an error bound.
///
/// This function is used when the column delta is smaller than the row delta
pub fn walk_bresenham_steep(col_0: i32, row_0: i32, col_1: i32, row_1: i32) -> (cells: Vec<
    FieldCell,
>)
    requires
        0 <= row_0 <= row_1 < FIELD_RESOLUTION,
        0 <= col_0 < FIELD_RESOLUTION,
        0 <= col_1 < FIELD_RESOLUTION,
        abs(col_1 - col_0) <= row_1 - row_0,
    ensures
        cells@ == steep_line(col_0 as int, row_0 as int, col_1 as int, row_1 as int),
        forall|i: int| 0 <= i < cells@.len() ==> (#[trigger] cells@[i]).wf(),
{
    let pairs = walk_major(row_0, col_0, row_1, col_1);
    let ghost want = steep_line(col_0 as int, row_0 as int, col_1 as int, row_1 as int);
    let mut cells: Vec<FieldCell> = Vec::new();
    let mut k: usize = 0;
    while k < pairs.len()
        invariant
            0 <= k <= pairs@.len(),
            pairs@.len() == want.len(),
            want == steep_line(col_0 as int, row_0 as int, col_1 as int, row_1 as int),
            0 <= row_0 <= row_1 < FIELD_RESOLUTION,
            0 <= col_0 < FIELD_RESOLUTION,
            0 <= col_1 < FIELD_RESOLUTION,
            abs(col_1 - col_0) <= row_1 - row_0,
            forall|i: int|
                0 <= i < pairs@.len() ==> {
                    let off = minor_offset(i, row_1 - row_0, abs(col_1 - col_0));
                    &&& (#[trigger] pairs@[i]).0 == row_0 + i
                    &&& pairs@[i].1 == if col_1 >= col_0 {
                        col_0 + off
                    } else {
                        col_0 - off
                    }
                },
            cells@ == want.take(k as int),
            forall|i: int| 0 <= i < cells@.len() ==> (#[trigger] cells@[i]).wf(),
        decreases pairs@.len() - k,
    {
        let (r, c) = pairs[k];
        proof {
            lemma_offset_in_range(k as int, row_1 - row_0, abs(col_1 - col_0));
        }
        cells.push(FieldCell::new(c as usize, r as usize));
        assert(cells@ =~= want.take(k + 1));
        k = k + 1;
    }
    assert(want.take(k as int) =~= want);
    cells
}

/// The minor offset never passes the minor delta
pub proof fn lemma_offset_in_range(i: int, a: int, b: int)
    requires
        0 <= i <= a,
        0 <= b <= a,
    ensures
        0 <= minor_offset(i, a, b) <= b,
{
    if a > 0 {
        let x = 2 * b * i + a - 1;
        let q = x / (2 * a);
        assert(0 <= x < 2 * a * (b + 1)) by (nonlinear_arith)
            requires x == 2 * b * i + a - 1, a > 0, 0 <= b, 0 <= i <= a;
        vstd::arithmetic::div_mod::lemma_fundamental_div_mod(x, 2 * a);
        let r = x % (2 * a);
        assert(0 <= r < 2 * a) by {
            vstd::arithmetic::div_mod::lemma_mod_pos_bound(x, 2 * a);
        }
        assert(0 <= q <= b) by (nonlinear_arith)
            requires x == 2 * a * q + r, 0 <= r < 2 * a, 0 <= x < 2 * a * (b + 1), a > 0;
    }
}

} // verus!
