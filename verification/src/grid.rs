use vstd::prelude::*;

verus! {

/// The dimensions of a two-dimensional lattice: `x` columns and `y` rows.
#[derive(Clone, Copy, Debug, PartialEq, Eq)]
pub struct D2 {
    pub x: usize,
    pub y: usize,
}

/// Row-major position of the cell in column `x` and row `y` of a lattice
/// that is `w` cells wide.
pub open spec fn cell(x: int, y: int, w: int) -> int {
    y * w + x
}

/// A cell of a `w` by `h` lattice lies inside the flat array of `w * h` values.
pub proof fn lemma_cell_in_bounds(x: int, y: int, w: int, h: int)
    requires
        0 <= x < w,
        0 <= y < h,
    ensures
        0 <= cell(x, y, w) < w * h,
        cell(x, y, w) < h * w,
{
    assert(0 <= y * w) by (nonlinear_arith)
        requires 0 <= y, 0 <= w;
    assert(y * w + w <= h * w) by (nonlinear_arith)
        requires y < h, 0 <= w;
    assert(h * w == w * h) by (nonlinear_arith);
}

/// The neighbours of a cell one step away from every edge of a `w` by `h`
/// lattice lie inside its flat array.
pub proof fn lemma_neighbours(x: int, y: int, w: int, h: int)
    requires
        1 <= x < w - 1,
        1 <= y < h - 1,
    ensures
        0 <= cell(x, y, w) - w - 1,
        cell(x, y, w) + w + 1 < w * h,
{
    lemma_cell_in_bounds(x + 1, y + 1, w, h);
    assert(cell(x + 1, y + 1, w) == cell(x, y, w) + w + 1) by (nonlinear_arith);
    assert(cell(x - 1, y - 1, w) == cell(x, y, w) - w - 1) by (nonlinear_arith);
    assert(0 <= (y - 1) * w) by (nonlinear_arith)
        requires 1 <= y, 0 <= w;
}

/// Two cells of a lattice that is `w` wide share a position only if they are
/// the same cell.
pub proof fn lemma_cell_unique(x1: int, y1: int, x2: int, y2: int, w: int)
    requires
        0 <= x1 < w,
        0 <= x2 < w,
        cell(x1, y1, w) == cell(x2, y2, w),
    ensures
        x1 == x2,
        y1 == y2,
{
    if y1 < y2 {
        assert(y1 * w + w <= y2 * w) by (nonlinear_arith)
            requires y1 < y2, 0 <= w;
    } else if y2 < y1 {
        assert(y2 * w + w <= y1 * w) by (nonlinear_arith)
            requires y2 < y1, 0 <= w;
    }
}

/// Every position of the flat array of a `w` by `h` lattice is a cell.
pub proof fn lemma_cell_cover(i: int, w: int, h: int)
    requires
        0 < w,
        0 <= i < w * h,
    ensures
        0 <= i % w < w,
        0 <= i / w < h,
        cell(i % w, i / w, w) == i,
{
    vstd::arithmetic::div_mod::lemma_fundamental_div_mod(i, w);
    vstd::arithmetic::div_mod::lemma_div_pos_is_pos(i, w);
    let q: int = i / w;
    let r: int = i % w;
    assert(q < h) by (nonlinear_arith)
        requires i == w * q + r, 0 <= r, i < w * h, 0 < w;
    assert(q * w == w * q) by (nonlinear_arith);
}

/// The positions of all cells of a `width` by `height` lattice, listed
/// column by column: entry `x * height + y` is the position of cell `(x, y)`.
pub fn cell_order(width: usize, height: usize) -> (order: Vec<usize>)
    requires
        width * height <= usize::MAX,
    ensures
        order.len() == width * height,
        forall|x: int, y: int| 0 <= x < width && 0 <= y < height
            ==> #[trigger] order@[cell(y, x, height as int)] == cell(x, y, width as int),
{
    let mut order: Vec<usize> = Vec::new();
    let mut x: usize = 0;
    while x < width
        invariant
            x <= width,
            width * height <= usize::MAX,
            order.len() == x * height,
            forall|xx: int, yy: int| 0 <= xx < x && 0 <= yy < height
                ==> #[trigger] order@[cell(yy, xx, height as int)] == cell(xx, yy, width as int),
        decreases width - x,
    {
        let mut y: usize = 0;
        while y < height
            invariant
                x < width,
                y <= height,
                width * height <= usize::MAX,
                order.len() == x * height + y,
                forall|xx: int, yy: int| 0 <= xx < x && 0 <= yy < height
                    ==> #[trigger] order@[cell(yy, xx, height as int)] == cell(xx, yy, width as int),
                forall|yy: int| 0 <= yy < y ==> #[trigger] order@[cell(yy, x as int, height as int)]
                    == cell(x as int, yy, width as int),
            decreases height - y,
        {
            proof {
                lemma_cell_in_bounds(x as int, y as int, width as int, height as int);
            }
            let position: usize = y * width + x;
            let ghost before = order@;
            order.push(position);
            proof {
                assert forall|xx: int, yy: int| 0 <= xx < x && 0 <= yy < height
                    implies #[trigger] order@[cell(yy, xx, height as int)] == cell(xx, yy, width as int) by {
                    lemma_cell_in_bounds(yy, xx, height as int, x as int);
                    assert(order@[cell(yy, xx, height as int)] == before[cell(yy, xx, height as int)]);
                }
                assert forall|yy: int| 0 <= yy < y + 1 implies #[trigger] order@[cell(yy, x as int, height as int)]
                    == cell(x as int, yy, width as int) by {
                    if yy < y {
                        assert(order@[cell(yy, x as int, height as int)] == before[cell(yy, x as int, height as int)]);
                    }
                }
            }
            y = y + 1;
        }
        proof {
            assert(x * height + height == (x + 1) * height) by (nonlinear_arith);
            assert forall|xx: int, yy: int| 0 <= xx < x + 1 && 0 <= yy < height
                implies #[trigger] order@[cell(yy, xx, height as int)] == cell(xx, yy, width as int) by {
                if xx == x {
                    assert(order@[cell(yy, x as int, height as int)] == cell(x as int, yy, width as int));
                }
            }
        }
        x = x + 1;
    }
    order
}

} // verus!
