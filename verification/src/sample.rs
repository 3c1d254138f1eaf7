use crate::image::{in_frame, Image};
use crate::quirc::{Code, Point};
use vstd::prelude::*;

verus! {

/// What the frame shows at the point `p`: 1 for foreground, -1 for
/// background, and 0 where the point is no pixel of the frame.
pub open spec fn spec_cell_value(image: &Image, p: Point) -> int {
    if !in_frame(image, p) {
        0
    } else if image.pixel(p.x as int, p.y as int) != 0 {
        1
    } else {
        -1
    }
}

/// Reads the frame at the point `p`.
pub fn cell_value(image: &Image, p: &Point) -> (v: i32)
    requires
        image.wf(),
    ensures
        v == spec_cell_value(image, *p),
{
    if p.y < 0 || p.y as usize >= image.height || p.x < 0 || p.x as usize >= image.width {
        return 0;
    }
    if image.get(p.x as usize, p.y as usize) != 0 {
        1
    } else {
        -1
    }
}

/// No bit of an empty byte is set.
proof fn lemma_blank_bit(code: Code, i: int)
    requires
        0 <= i < 8 * 3917,
        code.cell_bitmap@[i / 8] == 0u8,
    ensures
        !code.bit(i),
{
    let s = (i % 8) as u8;
    assert((0u8 >> s) & 1u8 != 1u8) by (bit_vector);
}

/// In a grid of `size` cells a side, the cells of the rows before `y` and
/// the cell `x` of the row `y` come before the cells of the rows after.
proof fn lemma_cell_order(size: int, x: int, y: int)
    requires
        0 <= x < size,
        0 <= y < size,
    ensures
        0 <= y * size + x < size * size,
        (y + 1) * size == y * size + size,
        0 <= y * size,
        size <= 177 ==> size * size <= 31329,
{
    assert(size <= 177 ==> size * size <= 31329) by (nonlinear_arith)
        requires
            0 <= size,
    ;
    assert(0 <= y * size && y * size + size <= size * size && (y + 1) * size == y * size + size)
        by (nonlinear_arith)
        requires
            0 <= y,
            y + 1 <= size,
    ;
}

/// Samples a code of `size` cells a side from the frame: the cell at
/// `(x, y)` is dark iff the frame shows foreground at the point
/// `centres[y * size + x]`, the centre of the cell in the frame. A cell
/// whose centre lies outside the frame is light.
pub fn sample_code(image: &Image, size: i32, corners: &[Point; 4], centres: &Vec<Point>) -> (code:
    Code)
    requires
        image.wf(),
        0 <= size <= 177,
        centres@.len() == size * size,
    ensures
        code.size == size,
        code.corners@ == corners@,
        forall|x: int, y: int|
            0 <= x < size && 0 <= y < size ==> #[trigger] code.dark(x, y) == (spec_cell_value(
                image,
                centres@[y * size + x],
            ) > 0),
        forall|i: int| size * size <= i < 8 * 3917 ==> !#[trigger] code.bit(i),
{
    let mut code = Code::default();
    code.corners = *corners;
    code.size = size;
    proof {
        assert forall|i: int| 0 <= i < 8 * 3917 implies !#[trigger] code.bit(i) by {
            lemma_blank_bit(code, i);
        }
    }
    let mut i: usize = 0;
    let mut y: i32 = 0;
    while y < size
        invariant
            0 <= y <= size <= 177,
            i == y * size,
            centres@.len() == size * size,
            image.wf(),
            code.size == size,
            code.corners@ == corners@,
            forall|k: int|
                0 <= k < 8 * 3917 ==> #[trigger] code.bit(k) == (k < i && spec_cell_value(
                    image,
                    centres@[k],
                ) > 0),
        decreases size - y,
    {
        let mut x: i32 = 0;
        while x < size
            invariant
                0 <= x <= size <= 177,
                0 <= y < size,
                i == y * size + x,
                centres@.len() == size * size,
                image.wf(),
                code.size == size,
                code.corners@ == corners@,
                forall|k: int|
                    0 <= k < 8 * 3917 ==> #[trigger] code.bit(k) == (k < i && spec_cell_value(
                        image,
                        centres@[k],
                    ) > 0),
            decreases size - x,
        {
            proof {
                lemma_cell_order(size as int, x as int, y as int);
            }
            if cell_value(image, &centres[i]) > 0 {
                code.mark(x, y);
            }
            i += 1;
            x += 1;
        }
        proof {
            lemma_cell_order(size as int, 0, y as int);
        }
        y += 1;
    }
    proof {
        assert forall|x: int, y: int| 0 <= x < size && 0 <= y < size implies #[trigger] code.dark(
            x,
            y,
        ) == (spec_cell_value(image, centres@[y * size + x]) > 0) by {
            lemma_cell_order(size as int, x, y);
            assert(code.dark(x, y) == code.bit(y * size + x));
        }
        assert forall|k: int| size * size <= k < 8 * 3917 implies !#[trigger] code.bit(k) by {
            assert(code.bit(k) == (k < i && spec_cell_value(image, centres@[k]) > 0));
        }
    }
    code
}

} // verus!
