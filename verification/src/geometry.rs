use crate::quirc::Point;
use vstd::prelude::*;

verus! {

/// The quotient of `n` by `d`, rounded towards zero.
pub open spec fn trunc_div(n: int, d: int) -> int {
    if d > 0 {
        if n >= 0 {
            n / d
        } else {
            -((-n) / d)
        }
    } else {
        if n >= 0 {
            -(n / (-d))
        } else {
            (-n) / (-d)
        }
    }
}

/// The determinant of the two lines through `p0`, `p1` and through `q0`,
/// `q1`: zero iff they are parallel.
pub open spec fn line_det(p0: Point, p1: Point, q0: Point, q1: Point) -> int {
    let a = -(p1.y - p0.y);
    let b = p1.x - p0.x;
    let c = -(q1.y - q0.y);
    let d = q1.x - q0.x;
    a * d - b * c
}

/// The determinant times the x coordinate of the point in which the two
/// lines meet.
pub open spec fn line_num_x(p0: Point, p1: Point, q0: Point, q1: Point) -> int {
    let a = -(p1.y - p0.y);
    let b = p1.x - p0.x;
    let c = -(q1.y - q0.y);
    let d = q1.x - q0.x;
    let e = a * p1.x + b * p1.y;
    let f = c * q1.x + d * q1.y;
    d * e - b * f
}

/// The determinant times the y coordinate of the point in which the two
/// lines meet.
pub open spec fn line_num_y(p0: Point, p1: Point, q0: Point, q1: Point) -> int {
    let a = -(p1.y - p0.y);
    let b = p1.x - p0.x;
    let c = -(q1.y - q0.y);
    let d = q1.x - q0.x;
    let e = a * p1.x + b * p1.y;
    let f = c * q1.x + d * q1.y;
    -c * e + a * f
}

/// Does `v` fit a coordinate?
pub open spec fn is_coordinate(v: int) -> bool {
    i32::MIN <= v <= i32::MAX
}

/// The point in which the line through `p0` and `p1` meets the line
/// through `q0` and `q1`, each coordinate rounded towards zero. There is
/// none where the lines are parallel, and none where a coordinate of it
/// is out of range.
pub open spec fn spec_line_intersect(p0: Point, p1: Point, q0: Point, q1: Point) -> Option<Point> {
    let det = line_det(p0, p1, q0, q1);
    let x = trunc_div(line_num_x(p0, p1, q0, q1), det);
    let y = trunc_div(line_num_y(p0, p1, q0, q1), det);
    if det != 0 && is_coordinate(x) && is_coordinate(y) {
        Some(Point { x: x as i32, y: y as i32 })
    } else {
        None
    }
}

/// A product is no larger than the product of the bounds of its factors.
proof fn lemma_product_bound(x: int, y: int, bx: int, by: int)
    requires
        -bx <= x <= bx,
        -by <= y <= by,
    ensures
        -(bx * by) <= x * y <= bx * by,
{
    assert(-(bx * by) <= x * y <= bx * by) by (nonlinear_arith)
        requires
            -bx <= x <= bx,
            -by <= y <= by,
    ;
}

/// Divides `n` by `d`, rounding towards zero.
fn div_toward_zero(n: i128, d: i128) -> (q: i128)
    requires
        d != 0,
        -0x4000_0000_0000_0000_0000_0000_0000 <= n <= 0x4000_0000_0000_0000_0000_0000_0000,
        -0x4000_0000_0000_0000_0000_0000_0000 <= d <= 0x4000_0000_0000_0000_0000_0000_0000,
    ensures
        q == trunc_div(n as int, d as int),
{
    let up: i128 = if n < 0 {
        -n
    } else {
        n
    };
    let down: i128 = if d < 0 {
        -d
    } else {
        d
    };
    let q: i128 = up / down;
    assert(0 <= q <= up) by {
        vstd::arithmetic::div_mod::lemma_div_pos_is_pos(up as int, down as int);
        vstd::arithmetic::div_mod::lemma_div_is_ordered_by_denominator(up as int, 1, down as int);
    }
    if (n < 0) != (d < 0) {
        -q
    } else {
        q
    }
}

/// Finds the point in which the line through `p0` and `p1` meets the line
/// through `q0` and `q1`, writes it to `r` and returns 1. Where there is
/// no such point it returns 0 and leaves `r` as it was.
pub fn line_intersect(p0: &Point, p1: &Point, q0: &Point, q1: &Point, r: &mut Point) -> (found: i32)
    ensures
        match spec_line_intersect(*p0, *p1, *q0, *q1) {
            Some(p) => found == 1 && *final(r) == p,
            None => found == 0 && *final(r) == *old(r),
        },
{
    let a: i128 = -(p1.y as i128 - p0.y as i128);
    let b: i128 = p1.x as i128 - p0.x as i128;
    let c: i128 = -(q1.y as i128 - q0.y as i128);
    let d: i128 = q1.x as i128 - q0.x as i128;
    let ghost k32: int = 0x1_0000_0000;
    let ghost k31: int = 0x8000_0000;
    proof {
        lemma_product_bound(a as int, p1.x as int, k32, k31);
        lemma_product_bound(b as int, p1.y as int, k32, k31);
        lemma_product_bound(c as int, q1.x as int, k32, k31);
        lemma_product_bound(d as int, q1.y as int, k32, k31);
        lemma_product_bound(a as int, d as int, k32, k32);
        lemma_product_bound(b as int, c as int, k32, k32);
        assert(k32 * k31 == 0x8000_0000_0000_0000) by (nonlinear_arith)
            requires
                k32 == 0x1_0000_0000,
                k31 == 0x8000_0000,
        ;
        assert(k32 * k32 == 0x1_0000_0000_0000_0000) by (nonlinear_arith)
            requires
                k32 == 0x1_0000_0000,
        ;
    }
    let e: i128 = a * (p1.x as i128) + b * (p1.y as i128);
    let f: i128 = c * (q1.x as i128) + d * (q1.y as i128);
    let det: i128 = a * d - b * c;
    if det == 0 {
        return 0;
    }
    let ghost k65: int = 0x2_0000_0000_0000_0000;
    proof {
        lemma_product_bound(d as int, e as int, k32, k65);
        lemma_product_bound(b as int, f as int, k32, k65);
        lemma_product_bound(-c as int, e as int, k32, k65);
        lemma_product_bound(a as int, f as int, k32, k65);
        assert(k32 * k65 == 0x2_0000_0000_0000_0000_0000_0000) by (nonlinear_arith)
            requires
                k32 == 0x1_0000_0000,
                k65 == 0x2_0000_0000_0000_0000,
        ;
    }
    let x: i128 = div_toward_zero(d * e - b * f, det);
    let y: i128 = div_toward_zero(-c * e + a * f, det);
    if x < -0x8000_0000 || x > 0x7fff_ffff || y < -0x8000_0000 || y > 0x7fff_ffff {
        return 0;
    }
    r.x = x as i32;
    r.y = y as i32;
    1
}

} // verus!
