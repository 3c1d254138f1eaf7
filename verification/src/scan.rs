use crate::image::{in_frame, Image};
use crate::quirc::Point;
use vstd::prelude::*;

verus! {

/// The size of `v`.
pub open spec fn magnitude(v: int) -> int {
    if v < 0 {
        -v
    } else {
        v
    }
}

/// The sign of a step along an axis on which the walk moves by `v`.
pub open spec fn step_of(v: int) -> int {
    if v < 0 {
        -1
    } else {
        1
    }
}

/// The shape of the walk from one point to another: the axis on which it
/// moves farther, where it goes one pixel in each step, and the other, on
/// which it goes a pixel whenever the error term runs over.
pub struct Walk {
    /// Is the x axis the one on which the walk moves farther?
    pub x_dom: bool,
    /// The number of pixels on the dominant axis.
    pub d: int,
    /// The number of pixels on the other axis.
    pub n: int,
    /// The step on the dominant axis.
    pub dom_step: int,
    /// The step on the other axis.
    pub nondom_step: int,
}

/// The shape of the walk from `p0` to `p1`.
pub open spec fn walk_of(p0: Point, p1: Point) -> Walk {
    let dx = p1.x - p0.x;
    let dy = p1.y - p0.y;
    if magnitude(dx) > magnitude(dy) {
        Walk {
            x_dom: true,
            d: magnitude(dx),
            n: magnitude(dy),
            dom_step: step_of(dx),
            nondom_step: step_of(dy),
        }
    } else {
        Walk {
            x_dom: false,
            d: magnitude(dy),
            n: magnitude(dx),
            dom_step: step_of(dy),
            nondom_step: step_of(dx),
        }
    }
}

/// Where the walk stands: the pixel, the error term, the number of
/// foreground pixels met in a row, and the number of runs counted.
pub struct WalkState {
    pub x: int,
    pub y: int,
    pub a: int,
    pub run: int,
    pub count: int,
}

/// The state after the pixel at which the walk stands is looked at and
/// one step is taken. A background pixel that ends a run of two or more
/// foreground pixels is counted.
pub open spec fn walk_step(image: &Image, w: Walk, s: WalkState) -> WalkState {
    let dark = image.pixel(s.x, s.y) != 0;
    let over = s.a + w.n >= w.d;
    WalkState {
        x: s.x + (if w.x_dom {
            w.dom_step
        } else if over {
            w.nondom_step
        } else {
            0
        }),
        y: s.y + (if !w.x_dom {
            w.dom_step
        } else if over {
            w.nondom_step
        } else {
            0
        }),
        a: if over {
            s.a + w.n - w.d
        } else {
            s.a + w.n
        },
        run: if dark {
            s.run + 1
        } else {
            0
        },
        count: if !dark && s.run >= 2 {
            s.count + 1
        } else {
            s.count
        },
    }
}

/// The number of runs counted once the walk has `left` pixels to look
/// at, or has left the frame.
pub open spec fn walk_count(image: &Image, w: Walk, s: WalkState, left: int) -> int
    decreases left,
{
    if left <= 0 || !image.holds(s.x, s.y) {
        s.count
    } else {
        walk_count(image, w, walk_step(image, w, s), left - 1)
    }
}

/// The number of times that, on the Bresenham walk from `p0` to `p1`, a
/// background pixel ends a run of two or more foreground pixels; or -1
/// where one of the two points is no pixel of the frame.
pub open spec fn spec_timing_scan(image: &Image, p0: Point, p1: Point) -> int {
    if !in_frame(image, p0) || !in_frame(image, p1) {
        -1
    } else {
        let w = walk_of(p0, p1);
        walk_count(image, w, WalkState { x: p0.x as int, y: p0.y as int, a: 0, run: 0, count: 0 }, w.d + 1)
    }
}

/// Walks from `p0` to `p1` and counts the transitions of the timing
/// pattern on the way.
pub fn timing_scan(image: &Image, p0: &Point, p1: &Point) -> (count: i32)
    requires
        image.wf(),
    ensures
        count == spec_timing_scan(image, *p0, *p1),
        -1 <= count <= 0x8000,
{
    if p0.x < 0 || p0.y < 0 || p0.x as usize >= image.width || p0.y as usize >= image.height {
        return -1;
    }
    if p1.x < 0 || p1.y < 0 || p1.x as usize >= image.width || p1.y as usize >= image.height {
        return -1;
    }
    let mut n: i32 = p1.x - p0.x;
    let mut d: i32 = p1.y - p0.y;
    let mut x: i32 = p0.x;
    let mut y: i32 = p0.y;
    let size_n: i32 = if n < 0 {
        -n
    } else {
        n
    };
    let size_d: i32 = if d < 0 {
        -d
    } else {
        d
    };
    let is_x_dom: bool = if size_n > size_d {
        let t = n;
        n = d;
        d = t;
        true
    } else {
        false
    };
    let nondom_step: i32 = if n < 0 {
        n = -n;
        -1
    } else {
        1
    };
    let dom_step: i32 = if d < 0 {
        d = -d;
        -1
    } else {
        1
    };
    let ghost w = walk_of(*p0, *p1);
    assert(w == (Walk {
        x_dom: is_x_dom,
        d: d as int,
        n: n as int,
        dom_step: dom_step as int,
        nondom_step: nondom_step as int,
    }));
    let mut a: i32 = 0;
    let mut run_length: i32 = 0;
    let mut count: i32 = 0;
    let mut i: i32 = 0;
    let ghost goal = spec_timing_scan(image, *p0, *p1);
    while i <= d
        invariant
            image.wf(),
            0 <= n <= d <= 32767,
            0 <= i <= d + 1,
            0 <= a < d || (d == 0 && a == 0),
            0 <= run_length <= i,
            0 <= count <= i,
            -1 <= x <= image.width,
            -1 <= y <= image.height,
            dom_step == 1 || dom_step == -1,
            nondom_step == 1 || nondom_step == -1,
            w == (Walk {
                x_dom: is_x_dom,
                d: d as int,
                n: n as int,
                dom_step: dom_step as int,
                nondom_step: nondom_step as int,
            }),
            goal == walk_count(
                image,
                w,
                WalkState { x: x as int, y: y as int, a: a as int, run: run_length as int, count: count as int },
                d + 1 - i,
            ),
        ensures
            goal == count,
            0 <= count <= 0x8000,
        decreases d + 1 - i,
    {
        if y < 0 || y as usize >= image.height || x < 0 || x as usize >= image.width {
            break;
        }
        let pixel = image.get(x as usize, y as usize);
        if pixel != 0 {
            run_length += 1;
        } else {
            if run_length >= 2 {
                count += 1;
            }
            run_length = 0;
        }
        a += n;
        if is_x_dom {
            x += dom_step;
        } else {
            y += dom_step;
        }
        if a >= d {
            if is_x_dom {
                y += nondom_step;
            } else {
                x += nondom_step;
            }
            a -= d;
        }
        i += 1;
    }
    count
}

} // verus!
