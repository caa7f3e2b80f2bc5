use vstd::prelude::*;
use crate::grid::cell;
use crate::lattice::Populations;

verus! {

/// Bounce-back at the solid cell `i` of a lattice `w` cells wide: every
/// population that has streamed into `i` is sent back, reversed, to the
/// neighbour it came from, and all nine populations of `i` are emptied.
pub open spec fn reflect<T>(p: Populations<T>, i: int, w: int, zero: T) -> Populations<T> {
    Populations {
        unit: p.unit.update(i, zero),
        north: p.north.update(i - w, p.south[i]).update(i, zero),
        south: p.south.update(i + w, p.north[i]).update(i, zero),
        east: p.east.update(i + 1, p.west[i]).update(i, zero),
        west: p.west.update(i - 1, p.east[i]).update(i, zero),
        north_west: p.north_west.update(i - w - 1, p.south_east[i]).update(i, zero),
        north_east: p.north_east.update(i - w + 1, p.south_west[i]).update(i, zero),
        south_east: p.south_east.update(i + w + 1, p.north_west[i]).update(i, zero),
        south_west: p.south_west.update(i + w - 1, p.north_east[i]).update(i, zero),
    }
}

/// Bounce-back applied, one after the other, to the solid cells among
/// columns `2 .. x_end` of row `y`.
pub open spec fn bounce_row<T>(p: Populations<T>, bar: Seq<bool>, w: int, y: int, x_end: int, zero: T) -> Populations<T>
    decreases x_end,
{
    if x_end <= 2 {
        p
    } else {
        let q = bounce_row(p, bar, w, y, x_end - 1, zero);
        let i: int = cell(x_end - 1, y, w);
        if bar[i] {
            reflect(q, i, w, zero)
        } else {
            q
        }
    }
}

/// Bounce-back applied row by row to the solid cells among rows
/// `2 .. y_end` and columns `2 .. w - 2`.
pub open spec fn bounce_rows<T>(p: Populations<T>, bar: Seq<bool>, w: int, y_end: int, zero: T) -> Populations<T>
    decreases y_end,
{
    if y_end <= 2 {
        p
    } else {
        bounce_row(bounce_rows(p, bar, w, y_end - 1, zero), bar, w, y_end - 1, w - 2, zero)
    }
}

/// The populations after the bounce-back step of a `w` by `h` lattice: the
/// solid cells at least two cells away from every edge are visited row by
/// row, left to right, and each is reflected in turn.
pub open spec fn bounced<T>(p: Populations<T>, bar: Seq<bool>, w: int, h: int, zero: T) -> Populations<T> {
    bounce_rows(p, bar, w, h - 2, zero)
}

/// Whether `(x, y)` is a cell that the bounce-back step visits: at least two
/// cells away from every edge of a `w` by `h` lattice.
pub open spec fn interior(x: int, y: int, w: int, h: int) -> bool {
    2 <= x < w - 2 && 2 <= y < h - 2
}

/// Whether the bounce-back step of a `w` by `h` lattice can read the
/// barrier bit of every cell it visits.
pub open spec fn barrier_covers_interior(bar: Seq<bool>, w: int, h: int) -> bool {
    5 <= w && 5 <= h ==> cell(w - 3, h - 3, w) < bar.len()
}

/// A barrier with a bit for every cell covers the cells that bounce-back visits.
pub proof fn lemma_full_barrier_covers_interior(bar: Seq<bool>, w: int, h: int)
    requires
        bar.len() >= w * h,
    ensures
        barrier_covers_interior(bar, w, h),
{
    if 5 <= w && 5 <= h {
        crate::grid::lemma_cell_in_bounds(w - 3, h - 3, w, h);
    }
}

/// Every one of the nine fields holds `n` values.
pub open spec fn sized<T>(p: Populations<T>, n: int) -> bool {
    &&& p.unit.len() == n
    &&& p.north.len() == n
    &&& p.south.len() == n
    &&& p.east.len() == n
    &&& p.west.len() == n
    &&& p.north_west.len() == n
    &&& p.north_east.len() == n
    &&& p.south_east.len() == n
    &&& p.south_west.len() == n
}

/// All nine populations at position `j` are the same in `p` and `q`.
pub open spec fn same_at<T>(p: Populations<T>, q: Populations<T>, j: int) -> bool {
    &&& p.unit[j] == q.unit[j]
    &&& p.north[j] == q.north[j]
    &&& p.south[j] == q.south[j]
    &&& p.east[j] == q.east[j]
    &&& p.west[j] == q.west[j]
    &&& p.north_west[j] == q.north_west[j]
    &&& p.north_east[j] == q.north_east[j]
    &&& p.south_east[j] == q.south_east[j]
    &&& p.south_west[j] == q.south_west[j]
}

/// Whether the cell `(x, y)` is the cell `(bx, by)` or one of its eight neighbours.
pub open spec fn near(bx: int, by: int, x: int, y: int) -> bool {
    -1 <= x - bx <= 1 && -1 <= y - by <= 1
}

/// Reflecting at an interior cell keeps the sizes of the fields, changes
/// only that cell and its neighbours, and empties the resting population of
/// that cell alone.
proof fn lemma_reflect_effect<T>(p: Populations<T>, bx: int, by: int, w: int, h: int, zero: T, x: int, y: int)
    requires
        sized(p, w * h),
        interior(bx, by, w, h),
        0 <= x < w,
        0 <= y < h,
    ensures
        sized(reflect(p, cell(bx, by, w), w, zero), w * h),
        !near(bx, by, x, y) ==> same_at(reflect(p, cell(bx, by, w), w, zero), p, cell(x, y, w)),
        reflect(p, cell(bx, by, w), w, zero).unit[cell(x, y, w)] == if x == bx && y == by {
            zero
        } else {
            p.unit[cell(x, y, w)]
        },
{
    let i: int = cell(bx, by, w);
    let j: int = cell(x, y, w);
    crate::grid::lemma_neighbours(bx, by, w, h);
    crate::grid::lemma_cell_in_bounds(x, y, w, h);
    lemma_offset(bx, by, -1, -1, w, x, y);
    lemma_offset(bx, by, 0, -1, w, x, y);
    lemma_offset(bx, by, 1, -1, w, x, y);
    lemma_offset(bx, by, -1, 0, w, x, y);
    lemma_offset(bx, by, 0, 0, w, x, y);
    lemma_offset(bx, by, 1, 0, w, x, y);
    lemma_offset(bx, by, -1, 1, w, x, y);
    lemma_offset(bx, by, 0, 1, w, x, y);
    lemma_offset(bx, by, 1, 1, w, x, y);
}

/// The position `b` rows and `a` columns away from cell `(bx, by)` is the
/// cell `(x, y)` only if `(x, y)` is `(bx + a, by + b)`.
proof fn lemma_offset(bx: int, by: int, a: int, b: int, w: int, x: int, y: int)
    requires
        0 <= bx + a < w,
        0 <= x < w,
    ensures
        cell(x, y, w) == cell(bx, by, w) + b * w + a <==> x == bx + a && y == by + b,
{
    assert(cell(bx + a, by + b, w) == cell(bx, by, w) + b * w + a) by (nonlinear_arith);
    if cell(x, y, w) == cell(bx, by, w) + b * w + a {
        crate::grid::lemma_cell_unique(x, y, bx + a, by + b, w);
    }
}

/// What bounce-back along part of row `y` does to one cell `(x, y)`.
proof fn lemma_row_effect<T>(
    p: Populations<T>,
    bar: Seq<bool>,
    w: int,
    h: int,
    row: int,
    x_end: int,
    zero: T,
    x: int,
    y: int,
)
    requires
        sized(p, w * h),
        2 <= row < h - 2,
        x_end <= w - 2,
        0 <= x < w,
        0 <= y < h,
    ensures
        sized(bounce_row(p, bar, w, row, x_end, zero), w * h),
        (forall|bx: int| 2 <= bx < x_end && #[trigger] bar[cell(bx, row, w)] ==> !near(bx, row, x, y))
            ==> same_at(bounce_row(p, bar, w, row, x_end, zero), p, cell(x, y, w)),
        bounce_row(p, bar, w, row, x_end, zero).unit[cell(x, y, w)] == if y == row && 2 <= x < x_end
            && bar[cell(x, y, w)] {
            zero
        } else {
            p.unit[cell(x, y, w)]
        },
    decreases x_end,
{
    if x_end > 2 {
        let q = bounce_row(p, bar, w, row, x_end - 1, zero);
        lemma_row_effect(p, bar, w, h, row, x_end - 1, zero, x, y);
        if bar[cell(x_end - 1, row, w)] {
            lemma_reflect_effect(q, x_end - 1, row, w, h, zero, x, y);
        }
    }
}

/// What bounce-back over rows `2 .. y_end` does to one cell `(x, y)`.
proof fn lemma_rows_effect<T>(
    p: Populations<T>,
    bar: Seq<bool>,
    w: int,
    h: int,
    y_end: int,
    zero: T,
    x: int,
    y: int,
)
    requires
        sized(p, w * h),
        y_end <= h - 2,
        0 <= x < w,
        0 <= y < h,
    ensures
        sized(bounce_rows(p, bar, w, y_end, zero), w * h),
        (forall|bx: int, by: int|
            2 <= by < y_end && interior(bx, by, w, h) && #[trigger] bar[cell(bx, by, w)] ==> !near(bx, by, x, y))
            ==> same_at(bounce_rows(p, bar, w, y_end, zero), p, cell(x, y, w)),
        bounce_rows(p, bar, w, y_end, zero).unit[cell(x, y, w)] == if 2 <= y < y_end && interior(x, y, w, h)
            && bar[cell(x, y, w)] {
            zero
        } else {
            p.unit[cell(x, y, w)]
        },
    decreases y_end,
{
    if y_end > 2 {
        let q = bounce_rows(p, bar, w, y_end - 1, zero);
        lemma_rows_effect(p, bar, w, h, y_end - 1, zero, x, y);
        lemma_row_effect(q, bar, w, h, y_end - 1, w - 2, zero, x, y);
        if forall|bx: int, by: int|
            2 <= by < y_end && interior(bx, by, w, h) && #[trigger] bar[cell(bx, by, w)] ==> !near(bx, by, x, y) {
            assert forall|bx: int| 2 <= bx < w - 2 && #[trigger] bar[cell(bx, y_end - 1, w)] implies !near(bx, y_end - 1, x, y) by {
                assert(interior(bx, y_end - 1, w, h));
            }
        }
    }
}

/// Bounce-back is local: a cell that is neither a solid cell visited by the
/// step nor a neighbour of one keeps all nine populations.
pub proof fn lemma_bounce_local<T>(p: Populations<T>, bar: Seq<bool>, w: int, h: int, zero: T, x: int, y: int)
    requires
        sized(p, w * h),
        0 <= x < w,
        0 <= y < h,
        forall|bx: int, by: int| interior(bx, by, w, h) && #[trigger] bar[cell(bx, by, w)] ==> !near(bx, by, x, y),
    ensures
        same_at(bounced(p, bar, w, h, zero), p, cell(x, y, w)),
{
    lemma_rows_effect(p, bar, w, h, h - 2, zero, x, y);
}

/// Bounce-back empties the resting population of every solid cell it visits
/// and of no other cell, and keeps the size of every field.
pub proof fn lemma_bounce_unit<T>(p: Populations<T>, bar: Seq<bool>, w: int, h: int, zero: T)
    requires
        sized(p, w * h),
    ensures
        sized(bounced(p, bar, w, h, zero), w * h),
        forall|x: int, y: int| 0 <= x < w && 0 <= y < h ==> #[trigger] bounced(p, bar, w, h, zero).unit[cell(x, y, w)]
            == if interior(x, y, w, h) && bar[cell(x, y, w)] {
            zero
        } else {
            p.unit[cell(x, y, w)]
        },
{
    assert forall|x: int, y: int| 0 <= x < w && 0 <= y < h implies #[trigger] bounced(p, bar, w, h, zero).unit[cell(x, y, w)]
        == if interior(x, y, w, h) && bar[cell(x, y, w)] {
        zero
    } else {
        p.unit[cell(x, y, w)]
    } by {
        lemma_rows_effect(p, bar, w, h, h - 2, zero, x, y);
    }
    if 0 < w && 0 < h {
        lemma_rows_effect(p, bar, w, h, h - 2, zero, 0, 0);
    } else {
        lemma_bounce_unchanged_when_open(p, bar, w, h, h - 2, zero);
    }
}

/// Without solid cells among those it visits, bounce-back over rows
/// `2 .. y_end` changes nothing.
proof fn lemma_bounce_unchanged_when_open<T>(p: Populations<T>, bar: Seq<bool>, w: int, h: int, y_end: int, zero: T)
    requires
        y_end <= h - 2,
        forall|bx: int, by: int| interior(bx, by, w, h) ==> !#[trigger] bar[cell(bx, by, w)],
    ensures
        bounce_rows(p, bar, w, y_end, zero) == p,
    decreases y_end,
{
    if y_end > 2 {
        lemma_bounce_unchanged_when_open(p, bar, w, h, y_end - 1, zero);
        lemma_row_unchanged_when_open(p, bar, w, h, y_end - 1, w - 2, zero);
    }
}

proof fn lemma_row_unchanged_when_open<T>(p: Populations<T>, bar: Seq<bool>, w: int, h: int, row: int, x_end: int, zero: T)
    requires
        2 <= row < h - 2,
        x_end <= w - 2,
        forall|bx: int, by: int| interior(bx, by, w, h) ==> !#[trigger] bar[cell(bx, by, w)],
    ensures
        bounce_row(p, bar, w, row, x_end, zero) == p,
    decreases x_end,
{
    if x_end > 2 {
        lemma_row_unchanged_when_open(p, bar, w, h, row, x_end - 1, zero);
        assert(interior(x_end - 1, row, w, h));
    }
}

/// A lattice without solid cells away from its edges is left as it is by
/// bounce-back.
pub proof fn lemma_bounce_without_barrier<T>(p: Populations<T>, bar: Seq<bool>, w: int, h: int, zero: T)
    requires
        forall|bx: int, by: int| interior(bx, by, w, h) ==> !#[trigger] bar[cell(bx, by, w)],
    ensures
        bounced(p, bar, w, h, zero) == p,
{
    lemma_bounce_unchanged_when_open(p, bar, w, h, h - 2, zero);
}

/// Whether the visited solid cell `(bx, by)` is isolated: no other solid
/// cell that bounce-back visits lies within two cells of it.
pub open spec fn isolated(bar: Seq<bool>, w: int, h: int, bx: int, by: int) -> bool {
    forall|cx: int, cy: int|
        interior(cx, cy, w, h) && #[trigger] bar[cell(cx, cy, w)] && (cx != bx || cy != by)
            ==> !(-2 <= cx - bx <= 2 && -2 <= cy - by <= 2)
}

/// Populations that agree around an interior cell still agree there after
/// both are reflected at that cell.
proof fn lemma_reflect_agrees<T>(p: Populations<T>, q: Populations<T>, bx: int, by: int, w: int, h: int, zero: T)
    requires
        sized(p, w * h),
        sized(q, w * h),
        interior(bx, by, w, h),
        forall|x: int, y: int| #[trigger] near(bx, by, x, y) ==> same_at(p, q, cell(x, y, w)),
    ensures
        forall|x: int, y: int| #[trigger] near(bx, by, x, y) ==> same_at(
            reflect(p, cell(bx, by, w), w, zero),
            reflect(q, cell(bx, by, w), w, zero),
            cell(x, y, w),
        ),
{
    let i: int = cell(bx, by, w);
    assert(near(bx, by, bx, by));
    assert(same_at(p, q, i));
    assert forall|x: int, y: int| #[trigger] near(bx, by, x, y) implies same_at(
        reflect(p, i, w, zero),
        reflect(q, i, w, zero),
        cell(x, y, w),
    ) by {
        lemma_reflect_effect(p, bx, by, w, h, zero, x, y);
        lemma_reflect_effect(q, bx, by, w, h, zero, x, y);
        crate::grid::lemma_cell_in_bounds(x, y, w, h);
        crate::grid::lemma_neighbours(bx, by, w, h);
    }
}

/// Bounce-back along part of row `row`, seen from the cells around an
/// isolated solid cell `(bx, by)`: they are reflected once the walk has
/// passed that cell, and untouched otherwise.
proof fn lemma_row_isolated<T>(
    p: Populations<T>,
    bar: Seq<bool>,
    w: int,
    h: int,
    row: int,
    x_end: int,
    zero: T,
    bx: int,
    by: int,
)
    requires
        sized(p, w * h),
        2 <= row < h - 2,
        x_end <= w - 2,
        interior(bx, by, w, h),
        bar[cell(bx, by, w)],
        isolated(bar, w, h, bx, by),
    ensures
        forall|x: int, y: int| #[trigger] near(bx, by, x, y) ==> same_at(
            bounce_row(p, bar, w, row, x_end, zero),
            if row == by && bx < x_end { reflect(p, cell(bx, by, w), w, zero) } else { p },
            cell(x, y, w),
        ),
    decreases x_end,
{
    let i: int = cell(bx, by, w);
    let r = bounce_row(p, bar, w, row, x_end, zero);
    if row == by && bx < x_end {
        let q = bounce_row(p, bar, w, row, x_end - 1, zero);
        lemma_row_isolated(p, bar, w, h, row, x_end - 1, zero, bx, by);
        lemma_row_effect(p, bar, w, h, row, x_end - 1, zero, 0, 0);
        if bx == x_end - 1 {
            lemma_reflect_agrees(q, p, bx, by, w, h, zero);
        } else {
            let c: int = cell(x_end - 1, row, w);
            assert forall|x: int, y: int| #[trigger] near(bx, by, x, y) implies same_at(r, reflect(p, i, w, zero), cell(x, y, w)) by {
                if bar[c] {
                    assert(interior(x_end - 1, row, w, h));
                    lemma_reflect_effect(q, x_end - 1, row, w, h, zero, x, y);
                }
            }
        }
    } else {
        assert forall|x: int, y: int| #[trigger] near(bx, by, x, y) implies same_at(r, p, cell(x, y, w)) by {
            assert forall|cx: int| 2 <= cx < x_end && #[trigger] bar[cell(cx, row, w)] implies !near(cx, row, x, y) by {
                assert(interior(cx, row, w, h));
            }
            lemma_row_effect(p, bar, w, h, row, x_end, zero, x, y);
        }
    }
}

/// Bounce-back over rows `2 .. y_end`, seen from the cells around an
/// isolated solid cell `(bx, by)`.
proof fn lemma_rows_isolated<T>(
    p: Populations<T>,
    bar: Seq<bool>,
    w: int,
    h: int,
    y_end: int,
    zero: T,
    bx: int,
    by: int,
)
    requires
        sized(p, w * h),
        y_end <= h - 2,
        interior(bx, by, w, h),
        bar[cell(bx, by, w)],
        isolated(bar, w, h, bx, by),
    ensures
        forall|x: int, y: int| #[trigger] near(bx, by, x, y) ==> same_at(
            bounce_rows(p, bar, w, y_end, zero),
            if by < y_end { reflect(p, cell(bx, by, w), w, zero) } else { p },
            cell(x, y, w),
        ),
    decreases y_end,
{
    let i: int = cell(bx, by, w);
    let r = bounce_rows(p, bar, w, y_end, zero);
    if y_end > 2 {
        let q = bounce_rows(p, bar, w, y_end - 1, zero);
        let row: int = y_end - 1;
        lemma_rows_isolated(p, bar, w, h, y_end - 1, zero, bx, by);
        lemma_rows_effect(p, bar, w, h, y_end - 1, zero, 0, 0);
        lemma_row_isolated(q, bar, w, h, row, w - 2, zero, bx, by);
        if by == row {
            lemma_reflect_agrees(q, p, bx, by, w, h, zero);
        }
    } else {
        assert forall|x: int, y: int| #[trigger] near(bx, by, x, y) implies same_at(r, p, cell(x, y, w)) by {}
    }
}

/// An isolated solid cell reflects every population back where it came
/// from: around it, bounce-back has the effect of `reflect` at that cell
/// alone (the north-moving value of the cell below it is its former
/// south-moving value, and so on, and its own populations are emptied).
pub proof fn lemma_bounce_isolated<T>(p: Populations<T>, bar: Seq<bool>, w: int, h: int, zero: T, bx: int, by: int)
    requires
        sized(p, w * h),
        interior(bx, by, w, h),
        bar[cell(bx, by, w)],
        isolated(bar, w, h, bx, by),
    ensures
        forall|x: int, y: int| #[trigger] near(bx, by, x, y) ==> same_at(
            bounced(p, bar, w, h, zero),
            reflect(p, cell(bx, by, w), w, zero),
            cell(x, y, w),
        ),
{
    lemma_rows_isolated(p, bar, w, h, h - 2, zero, bx, by);
}

/// Whether `(x, y)` is a solid cell that bounce-back visits.
pub open spec fn solid_visited(bar: Seq<bool>, w: int, h: int, x: int, y: int) -> bool {
    interior(x, y, w, h) && bar[cell(x, y, w)]
}

/// What reflecting at the interior cell `c` does to each field at the cell
/// `(x, y)`: the cell `c` itself is emptied, the neighbour that a direction
/// points to from `c` receives the opposite population of `c`, and every
/// other value stays.
proof fn lemma_reflect_cells<T>(p: Populations<T>, cx: int, cy: int, w: int, h: int, zero: T, x: int, y: int)
    requires
        sized(p, w * h),
        interior(cx, cy, w, h),
        0 <= x < w,
        0 <= y < h,
    ensures
        ({
            let c = cell(cx, cy, w);
            let j = cell(x, y, w);
            let r = reflect(p, c, w, zero);
            let here = x == cx && y == cy;
            &&& r.unit[j] == if here { zero } else { p.unit[j] }
            &&& r.north[j] == if here { zero } else if x == cx && y == cy - 1 { p.south[c] } else { p.north[j] }
            &&& r.south[j] == if here { zero } else if x == cx && y == cy + 1 { p.north[c] } else { p.south[j] }
            &&& r.east[j] == if here { zero } else if x == cx + 1 && y == cy { p.west[c] } else { p.east[j] }
            &&& r.west[j] == if here { zero } else if x == cx - 1 && y == cy { p.east[c] } else { p.west[j] }
            &&& r.north_west[j] == if here { zero } else if x == cx - 1 && y == cy - 1 { p.south_east[c] } else { p.north_west[j] }
            &&& r.north_east[j] == if here { zero } else if x == cx + 1 && y == cy - 1 { p.south_west[c] } else { p.north_east[j] }
            &&& r.south_east[j] == if here { zero } else if x == cx + 1 && y == cy + 1 { p.north_west[c] } else { p.south_east[j] }
            &&& r.south_west[j] == if here { zero } else if x == cx - 1 && y == cy + 1 { p.north_east[c] } else { p.south_west[j] }
        }),
        sized(reflect(p, cell(cx, cy, w), w, zero), w * h),
{
    crate::grid::lemma_neighbours(cx, cy, w, h);
    crate::grid::lemma_cell_in_bounds(x, y, w, h);
    lemma_offset(cx, cy, -1, -1, w, x, y);
    lemma_offset(cx, cy, 0, -1, w, x, y);
    lemma_offset(cx, cy, 1, -1, w, x, y);
    lemma_offset(cx, cy, -1, 0, w, x, y);
    lemma_offset(cx, cy, 0, 0, w, x, y);
    lemma_offset(cx, cy, 1, 0, w, x, y);
    lemma_offset(cx, cy, -1, 1, w, x, y);
    lemma_offset(cx, cy, 0, 1, w, x, y);
    lemma_offset(cx, cy, 1, 1, w, x, y);
}

/// The fields of the visited solid cell `(bx, by)` are empty in `q`: the
/// resting, south, east, south-east and south-west ones always, and each of
/// the north, west, north-west and north-east ones unless the neighbour that
/// reflects back into it (below, right, below right, below left) is itself
/// a visited solid cell.
pub open spec fn emptied<T>(q: Populations<T>, bar: Seq<bool>, w: int, h: int, zero: T, bx: int, by: int) -> bool {
    let i = cell(bx, by, w);
    &&& q.unit[i] == zero
    &&& q.south[i] == zero
    &&& q.east[i] == zero
    &&& q.south_east[i] == zero
    &&& q.south_west[i] == zero
    &&& !solid_visited(bar, w, h, bx, by + 1) ==> q.north[i] == zero
    &&& !solid_visited(bar, w, h, bx + 1, by) ==> q.west[i] == zero
    &&& !solid_visited(bar, w, h, bx + 1, by + 1) ==> q.north_west[i] == zero
    &&& !solid_visited(bar, w, h, bx - 1, by + 1) ==> q.north_east[i] == zero
}

proof fn lemma_row_empties<T>(
    p: Populations<T>,
    bar: Seq<bool>,
    w: int,
    h: int,
    row: int,
    x_end: int,
    zero: T,
    bx: int,
    by: int,
)
    requires
        sized(p, w * h),
        2 <= row < h - 2,
        x_end <= w - 2,
        solid_visited(bar, w, h, bx, by),
    ensures
        (by == row && bx < x_end) || (by < row && emptied(p, bar, w, h, zero, bx, by))
            ==> emptied(bounce_row(p, bar, w, row, x_end, zero), bar, w, h, zero, bx, by),
    decreases x_end,
{
    if x_end > 2 && ((by == row && bx < x_end) || (by < row && emptied(p, bar, w, h, zero, bx, by))) {
        let q = bounce_row(p, bar, w, row, x_end - 1, zero);
        lemma_row_empties(p, bar, w, h, row, x_end - 1, zero, bx, by);
        lemma_row_effect(p, bar, w, h, row, x_end - 1, zero, 0, 0);
        if bar[cell(x_end - 1, row, w)] {
            assert(interior(x_end - 1, row, w, h));
            lemma_reflect_cells(q, x_end - 1, row, w, h, zero, bx, by);
        }
    }
}

proof fn lemma_rows_empty<T>(p: Populations<T>, bar: Seq<bool>, w: int, h: int, y_end: int, zero: T, bx: int, by: int)
    requires
        sized(p, w * h),
        y_end <= h - 2,
        solid_visited(bar, w, h, bx, by),
    ensures
        by < y_end ==> emptied(bounce_rows(p, bar, w, y_end, zero), bar, w, h, zero, bx, by),
    decreases y_end,
{
    if y_end > 2 && by < y_end {
        let q = bounce_rows(p, bar, w, y_end - 1, zero);
        lemma_rows_empty(p, bar, w, h, y_end - 1, zero, bx, by);
        lemma_rows_effect(p, bar, w, h, y_end - 1, zero, 0, 0);
        lemma_row_empties(q, bar, w, h, y_end - 1, w - 2, zero, bx, by);
    }
}

/// Bounce-back empties the populations of every solid cell it visits, save
/// those that a solid neighbour visited later reflects back into it (see
/// `emptied`).
pub proof fn lemma_bounce_empties<T>(p: Populations<T>, bar: Seq<bool>, w: int, h: int, zero: T, bx: int, by: int)
    requires
        sized(p, w * h),
        solid_visited(bar, w, h, bx, by),
    ensures
        emptied(bounced(p, bar, w, h, zero), bar, w, h, zero, bx, by),
{
    lemma_rows_empty(p, bar, w, h, h - 2, zero, bx, by);
}

/// Whether no other solid cell that bounce-back visits is a neighbour of `(bx, by)`.
pub open spec fn neighbours_open(bar: Seq<bool>, w: int, h: int, bx: int, by: int) -> bool {
    forall|cx: int, cy: int|
        #[trigger] solid_visited(bar, w, h, cx, cy) && (cx != bx || cy != by) ==> !near(bx, by, cx, cy)
}

/// `q` holds the effect of reflecting `p` at the cell `(bx, by)`: the nine
/// populations of the cell are empty, and the neighbour that each direction
/// points to holds the opposite population that the cell had in `p`.
pub open spec fn reflected_around<T>(q: Populations<T>, p: Populations<T>, w: int, zero: T, bx: int, by: int) -> bool {
    let i = cell(bx, by, w);
    &&& q.unit[i] == zero
    &&& q.north[i] == zero
    &&& q.south[i] == zero
    &&& q.east[i] == zero
    &&& q.west[i] == zero
    &&& q.north_west[i] == zero
    &&& q.north_east[i] == zero
    &&& q.south_east[i] == zero
    &&& q.south_west[i] == zero
    &&& q.north[cell(bx, by - 1, w)] == p.south[i]
    &&& q.south[cell(bx, by + 1, w)] == p.north[i]
    &&& q.east[cell(bx + 1, by, w)] == p.west[i]
    &&& q.west[cell(bx - 1, by, w)] == p.east[i]
    &&& q.north_west[cell(bx - 1, by - 1, w)] == p.south_east[i]
    &&& q.north_east[cell(bx + 1, by - 1, w)] == p.south_west[i]
    &&& q.south_east[cell(bx + 1, by + 1, w)] == p.north_west[i]
    &&& q.south_west[cell(bx - 1, by + 1, w)] == p.north_east[i]
}

/// Reflecting at a cell `c` that is neither `(bx, by)` nor one of its
/// neighbours keeps what `reflected_around` speaks of.
proof fn lemma_reflect_keeps_around<T>(q: Populations<T>, p: Populations<T>, cx: int, cy: int, w: int, h: int, zero: T, bx: int, by: int)
    requires
        sized(q, w * h),
        interior(cx, cy, w, h),
        interior(bx, by, w, h),
        !near(bx, by, cx, cy),
        reflected_around(q, p, w, zero, bx, by),
    ensures
        reflected_around(reflect(q, cell(cx, cy, w), w, zero), p, w, zero, bx, by),
{
    lemma_reflect_cells(q, cx, cy, w, h, zero, bx, by);
    lemma_reflect_cells(q, cx, cy, w, h, zero, bx, by - 1);
    lemma_reflect_cells(q, cx, cy, w, h, zero, bx, by + 1);
    lemma_reflect_cells(q, cx, cy, w, h, zero, bx + 1, by);
    lemma_reflect_cells(q, cx, cy, w, h, zero, bx - 1, by);
    lemma_reflect_cells(q, cx, cy, w, h, zero, bx - 1, by - 1);
    lemma_reflect_cells(q, cx, cy, w, h, zero, bx + 1, by - 1);
    lemma_reflect_cells(q, cx, cy, w, h, zero, bx + 1, by + 1);
    lemma_reflect_cells(q, cx, cy, w, h, zero, bx - 1, by + 1);
}

/// Reflecting at `(bx, by)` populations that agree with `p` at that cell
/// gives what `reflected_around` speaks of.
proof fn lemma_reflect_gives_around<T>(q: Populations<T>, p: Populations<T>, w: int, h: int, zero: T, bx: int, by: int)
    requires
        sized(q, w * h),
        interior(bx, by, w, h),
        same_at(q, p, cell(bx, by, w)),
    ensures
        reflected_around(reflect(q, cell(bx, by, w), w, zero), p, w, zero, bx, by),
{
    lemma_reflect_cells(q, bx, by, w, h, zero, bx, by);
    lemma_reflect_cells(q, bx, by, w, h, zero, bx, by - 1);
    lemma_reflect_cells(q, bx, by, w, h, zero, bx, by + 1);
    lemma_reflect_cells(q, bx, by, w, h, zero, bx + 1, by);
    lemma_reflect_cells(q, bx, by, w, h, zero, bx - 1, by);
    lemma_reflect_cells(q, bx, by, w, h, zero, bx - 1, by - 1);
    lemma_reflect_cells(q, bx, by, w, h, zero, bx + 1, by - 1);
    lemma_reflect_cells(q, bx, by, w, h, zero, bx + 1, by + 1);
    lemma_reflect_cells(q, bx, by, w, h, zero, bx - 1, by + 1);
}

proof fn lemma_row_reflects<T>(
    p: Populations<T>,
    p0: Populations<T>,
    bar: Seq<bool>,
    w: int,
    h: int,
    row: int,
    x_end: int,
    zero: T,
    bx: int,
    by: int,
)
    requires
        sized(p, w * h),
        2 <= row < h - 2,
        x_end <= w - 2,
        solid_visited(bar, w, h, bx, by),
        neighbours_open(bar, w, h, bx, by),
    ensures
        (by < row && reflected_around(p, p0, w, zero, bx, by))
            || (by == row && bx < x_end && same_at(p, p0, cell(bx, by, w)))
            ==> reflected_around(bounce_row(p, bar, w, row, x_end, zero), p0, w, zero, bx, by),
    decreases x_end,
{
    if x_end > 2 && ((by < row && reflected_around(p, p0, w, zero, bx, by))
        || (by == row && bx < x_end && same_at(p, p0, cell(bx, by, w)))) {
        let q = bounce_row(p, bar, w, row, x_end - 1, zero);
        let c: int = cell(x_end - 1, row, w);
        lemma_row_effect(p, bar, w, h, row, x_end - 1, zero, 0, 0);
        if by == row && bx == x_end - 1 {
            assert forall|cx: int| 2 <= cx < x_end - 1 && #[trigger] bar[cell(cx, row, w)] implies !near(cx, row, bx, by) by {
                assert(solid_visited(bar, w, h, cx, row));
            }
            lemma_row_effect(p, bar, w, h, row, x_end - 1, zero, bx, by);
            lemma_reflect_gives_around(q, p0, w, h, zero, bx, by);
        } else {
            lemma_row_reflects(p, p0, bar, w, h, row, x_end - 1, zero, bx, by);
            if bar[c] {
                assert(solid_visited(bar, w, h, x_end - 1, row));
                lemma_reflect_keeps_around(q, p0, x_end - 1, row, w, h, zero, bx, by);
            }
        }
    }
}

proof fn lemma_rows_reflect<T>(p: Populations<T>, bar: Seq<bool>, w: int, h: int, y_end: int, zero: T, bx: int, by: int)
    requires
        sized(p, w * h),
        y_end <= h - 2,
        solid_visited(bar, w, h, bx, by),
        neighbours_open(bar, w, h, bx, by),
    ensures
        by < y_end ==> reflected_around(bounce_rows(p, bar, w, y_end, zero), p, w, zero, bx, by),
    decreases y_end,
{
    if y_end > 2 && by < y_end {
        let q = bounce_rows(p, bar, w, y_end - 1, zero);
        lemma_rows_effect(p, bar, w, h, y_end - 1, zero, 0, 0);
        if by == y_end - 1 {
            assert forall|cx: int, cy: int|
                2 <= cy < y_end - 1 && interior(cx, cy, w, h) && #[trigger] bar[cell(cx, cy, w)] implies !near(cx, cy, bx, by) by {
                assert(solid_visited(bar, w, h, cx, cy));
            }
            lemma_rows_effect(p, bar, w, h, y_end - 1, zero, bx, by);
        } else {
            lemma_rows_reflect(p, bar, w, h, y_end - 1, zero, bx, by);
        }
        lemma_row_reflects(q, p, bar, w, h, y_end - 1, w - 2, zero, bx, by);
    }
}

/// A solid cell with no solid neighbour among those bounce-back visits
/// reflects every population back where it came from: afterwards its nine
/// populations are empty, and the neighbour each direction points to holds
/// the opposite population the cell had before (the cell above gets its
/// south-moving value as north-moving, and so on).
pub proof fn lemma_bounce_reflects<T>(p: Populations<T>, bar: Seq<bool>, w: int, h: int, zero: T, bx: int, by: int)
    requires
        sized(p, w * h),
        solid_visited(bar, w, h, bx, by),
        neighbours_open(bar, w, h, bx, by),
    ensures
        reflected_around(bounced(p, bar, w, h, zero), p, w, zero, bx, by),
{
    lemma_rows_reflect(p, bar, w, h, h - 2, zero, bx, by);
}

/// The eight directions in which populations move.
#[derive(Clone, Copy, Debug, PartialEq, Eq)]
pub enum Heading {
    North,
    South,
    East,
    West,
    NorthWest,
    NorthEast,
    SouthEast,
    SouthWest,
}

/// The field of the population that moves towards `d`.
pub open spec fn moving<T>(p: Populations<T>, d: Heading) -> Seq<T> {
    match d {
        Heading::North => p.north,
        Heading::South => p.south,
        Heading::East => p.east,
        Heading::West => p.west,
        Heading::NorthWest => p.north_west,
        Heading::NorthEast => p.north_east,
        Heading::SouthEast => p.south_east,
        Heading::SouthWest => p.south_west,
    }
}

/// Column step of a move towards `d` (north is towards row 0).
pub open spec fn step_x(d: Heading) -> int {
    match d {
        Heading::East | Heading::NorthEast | Heading::SouthEast => 1,
        Heading::West | Heading::NorthWest | Heading::SouthWest => -1,
        _ => 0,
    }
}

/// Row step of a move towards `d` (north is towards row 0).
pub open spec fn step_y(d: Heading) -> int {
    match d {
        Heading::South | Heading::SouthEast | Heading::SouthWest => 1,
        Heading::North | Heading::NorthWest | Heading::NorthEast => -1,
        _ => 0,
    }
}

/// The opposite direction.
pub open spec fn reverse(d: Heading) -> Heading {
    match d {
        Heading::North => Heading::South,
        Heading::South => Heading::North,
        Heading::East => Heading::West,
        Heading::West => Heading::East,
        Heading::NorthWest => Heading::SouthEast,
        Heading::SouthEast => Heading::NorthWest,
        Heading::NorthEast => Heading::SouthWest,
        Heading::SouthWest => Heading::NorthEast,
    }
}

/// Whether cell `(ax, ay)` comes after cell `(bx, by)` in row-major order.
pub open spec fn after(ax: int, ay: int, bx: int, by: int) -> bool {
    ay > by || (ay == by && ax > bx)
}

/// The value, after bounce-back, of the population moving towards `d` at
/// cell `(x, y)`, where `(sx, sy) = (x - step_x(d), y - step_y(d))` is the
/// neighbour that reflects into `(x, y)` in that direction:
/// - a visited solid cell loses it (it becomes `zero`), unless its
///   neighbour `(sx, sy)` is a visited solid cell too and comes later, in
///   which case the value comes back to where it was;
/// - an open cell next to a visited solid cell `(sx, sy)` receives the
///   population that `(sx, sy)` had moving the opposite way;
/// - every other value stays.
pub open spec fn bounced_back<T>(p: Populations<T>, bar: Seq<bool>, w: int, h: int, zero: T, d: Heading, x: int, y: int) -> T {
    let sx = x - step_x(d);
    let sy = y - step_y(d);
    if solid_visited(bar, w, h, x, y) {
        if solid_visited(bar, w, h, sx, sy) && after(sx, sy, x, y) {
            moving(p, d)[cell(x, y, w)]
        } else {
            zero
        }
    } else if solid_visited(bar, w, h, sx, sy) {
        moving(p, reverse(d))[cell(sx, sy, w)]
    } else {
        moving(p, d)[cell(x, y, w)]
    }
}

/// Whether the walk, having reached column `kx` of row `kr`, has reflected
/// at cell `(x, y)`.
spec fn struck(bar: Seq<bool>, w: int, h: int, kr: int, kx: int, x: int, y: int) -> bool {
    solid_visited(bar, w, h, x, y) && (y < kr || (y == kr && x < kx))
}

/// `bounced_back` for the part of the walk before column `kx` of row `kr`.
spec fn walked_value<T>(p: Populations<T>, bar: Seq<bool>, w: int, h: int, zero: T, kr: int, kx: int, d: Heading, x: int, y: int) -> T {
    let sx = x - step_x(d);
    let sy = y - step_y(d);
    if struck(bar, w, h, kr, kx, x, y) {
        if struck(bar, w, h, kr, kx, sx, sy) && after(sx, sy, x, y) {
            moving(p, d)[cell(x, y, w)]
        } else {
            zero
        }
    } else if struck(bar, w, h, kr, kx, sx, sy) {
        moving(p, reverse(d))[cell(sx, sy, w)]
    } else {
        moving(p, d)[cell(x, y, w)]
    }
}

/// `q` is `p0` after the walk has reached column `kx` of row `kr`.
spec fn walked<T>(q: Populations<T>, p0: Populations<T>, bar: Seq<bool>, w: int, h: int, zero: T, kr: int, kx: int) -> bool {
    &&& sized(q, w * h)
    &&& forall|d: Heading, x: int, y: int| 0 <= x < w && 0 <= y < h ==>
        #[trigger] moving(q, d)[cell(x, y, w)] == walked_value(p0, bar, w, h, zero, kr, kx, d, x, y)
    &&& forall|x: int, y: int| 0 <= x < w && 0 <= y < h ==>
        #[trigger] q.unit[cell(x, y, w)] == if struck(bar, w, h, kr, kx, x, y) { zero } else { p0.unit[cell(x, y, w)] }
}

proof fn lemma_heading(d: Heading)
    ensures
        reverse(reverse(d)) == d,
        step_x(reverse(d)) == -step_x(d),
        step_y(reverse(d)) == -step_y(d),
        -1 <= step_x(d) <= 1,
        -1 <= step_y(d) <= 1,
{
}

/// Reflecting at the interior cell `c`, by direction: `c` is emptied, the
/// neighbour that `d` points to from `c` receives the population `c` had
/// moving the opposite way, and every other value stays.
proof fn lemma_reflect_heading<T>(p: Populations<T>, cx: int, cy: int, w: int, h: int, zero: T, d: Heading, x: int, y: int)
    requires
        sized(p, w * h),
        interior(cx, cy, w, h),
        0 <= x < w,
        0 <= y < h,
    ensures
        moving(reflect(p, cell(cx, cy, w), w, zero), d)[cell(x, y, w)] == if x == cx && y == cy {
            zero
        } else if x == cx + step_x(d) && y == cy + step_y(d) {
            moving(p, reverse(d))[cell(cx, cy, w)]
        } else {
            moving(p, d)[cell(x, y, w)]
        },
{
    lemma_reflect_cells(p, cx, cy, w, h, zero, x, y);
}

/// One more cell of the walk keeps `walked`.
proof fn lemma_walk_step<T>(q: Populations<T>, p0: Populations<T>, bar: Seq<bool>, w: int, h: int, zero: T, kr: int, kx: int)
    requires
        walked(q, p0, bar, w, h, zero, kr, kx),
        sized(p0, w * h),
        interior(kx, kr, w, h),
    ensures
        walked(
            if bar[cell(kx, kr, w)] { reflect(q, cell(kx, kr, w), w, zero) } else { q },
            p0, bar, w, h, zero, kr, kx + 1,
        ),
{
    let c: int = cell(kx, kr, w);
    let r = if bar[c] { reflect(q, c, w, zero) } else { q };
    lemma_reflect_cells(q, kx, kr, w, h, zero, 0, 0);
    assert forall|d: Heading, x: int, y: int| 0 <= x < w && 0 <= y < h implies
        #[trigger] moving(r, d)[cell(x, y, w)] == walked_value(p0, bar, w, h, zero, kr, kx + 1, d, x, y) by {
        lemma_heading(d);
        assert(moving(q, d)[cell(x, y, w)] == walked_value(p0, bar, w, h, zero, kr, kx, d, x, y));
        if bar[c] {
            lemma_reflect_heading(q, kx, kr, w, h, zero, d, x, y);
            assert(moving(q, reverse(d))[c] == walked_value(p0, bar, w, h, zero, kr, kx, reverse(d), kx, kr));
        }
    }
    assert forall|x: int, y: int| 0 <= x < w && 0 <= y < h implies
        #[trigger] r.unit[cell(x, y, w)] == if struck(bar, w, h, kr, kx + 1, x, y) { zero } else { p0.unit[cell(x, y, w)] } by {
        assert(q.unit[cell(x, y, w)] == if struck(bar, w, h, kr, kx, x, y) { zero } else { p0.unit[cell(x, y, w)] });
        if bar[c] {
            lemma_reflect_cells(q, kx, kr, w, h, zero, x, y);
        }
    }
}

/// `walked` at two positions of the walk with the same cells behind them.
proof fn lemma_walk_same<T>(q: Populations<T>, p0: Populations<T>, bar: Seq<bool>, w: int, h: int, zero: T, kr: int, kx: int, kr2: int, kx2: int)
    requires
        walked(q, p0, bar, w, h, zero, kr, kx),
        forall|x: int, y: int| struck(bar, w, h, kr, kx, x, y) == struck(bar, w, h, kr2, kx2, x, y),
    ensures
        walked(q, p0, bar, w, h, zero, kr2, kx2),
{
    assert forall|d: Heading, x: int, y: int| 0 <= x < w && 0 <= y < h implies
        #[trigger] moving(q, d)[cell(x, y, w)] == walked_value(p0, bar, w, h, zero, kr2, kx2, d, x, y) by {
        assert(moving(q, d)[cell(x, y, w)] == walked_value(p0, bar, w, h, zero, kr, kx, d, x, y));
        assert(struck(bar, w, h, kr, kx, x - step_x(d), y - step_y(d)) == struck(bar, w, h, kr2, kx2, x - step_x(d), y - step_y(d)));
        assert(struck(bar, w, h, kr, kx, x, y) == struck(bar, w, h, kr2, kx2, x, y));
    }
    assert forall|x: int, y: int| 0 <= x < w && 0 <= y < h implies
        #[trigger] q.unit[cell(x, y, w)] == if struck(bar, w, h, kr2, kx2, x, y) { zero } else { p0.unit[cell(x, y, w)] } by {
        assert(q.unit[cell(x, y, w)] == if struck(bar, w, h, kr, kx, x, y) { zero } else { p0.unit[cell(x, y, w)] });
        assert(struck(bar, w, h, kr, kx, x, y) == struck(bar, w, h, kr2, kx2, x, y));
    }
}

proof fn lemma_row_walk<T>(q: Populations<T>, p0: Populations<T>, bar: Seq<bool>, w: int, h: int, zero: T, row: int, x_end: int)
    requires
        walked(q, p0, bar, w, h, zero, row, 2),
        sized(p0, w * h),
        2 <= row < h - 2,
        x_end <= w - 2,
    ensures
        walked(bounce_row(q, bar, w, row, x_end, zero), p0, bar, w, h, zero, row, if x_end <= 2 { 2 } else { x_end }),
    decreases x_end,
{
    if x_end > 2 {
        let r = bounce_row(q, bar, w, row, x_end - 1, zero);
        lemma_row_walk(q, p0, bar, w, h, zero, row, x_end - 1);
        assert(walked(r, p0, bar, w, h, zero, row, x_end - 1));
        lemma_walk_step(r, p0, bar, w, h, zero, row, x_end - 1);
    }
}

proof fn lemma_rows_walk<T>(p0: Populations<T>, bar: Seq<bool>, w: int, h: int, zero: T, y_end: int)
    requires
        sized(p0, w * h),
        y_end <= h - 2,
    ensures
        walked(bounce_rows(p0, bar, w, y_end, zero), p0, bar, w, h, zero, if y_end <= 2 { 2 } else { y_end }, 2),
    decreases y_end,
{
    if y_end > 2 {
        let q = bounce_rows(p0, bar, w, y_end - 1, zero);
        lemma_rows_walk(p0, bar, w, h, zero, y_end - 1);
        lemma_walk_same(q, p0, bar, w, h, zero, if y_end - 1 <= 2 { 2 } else { y_end - 1 }, 2, y_end - 1, 2);
        lemma_row_walk(q, p0, bar, w, h, zero, y_end - 1, w - 2);
        let r = bounce_row(q, bar, w, y_end - 1, w - 2, zero);
        lemma_walk_same(r, p0, bar, w, h, zero, y_end - 1, if w - 2 <= 2 { 2 } else { w - 2 }, y_end, 2);
    } else {
        assert forall|d: Heading, x: int, y: int| 0 <= x < w && 0 <= y < h implies
            #[trigger] moving(p0, d)[cell(x, y, w)] == walked_value(p0, bar, w, h, zero, 2, 2, d, x, y) by {
        }
    }
}

/// What bounce-back does to every population of every cell, in terms of the
/// populations before the step (see `bounced_back`): the resting population
/// of each visited solid cell is emptied and every other one stays; each
/// moving population is emptied at a visited solid cell, reflected into an
/// open neighbour of one, or kept.
pub proof fn lemma_bounce_values<T>(p: Populations<T>, bar: Seq<bool>, w: int, h: int, zero: T)
    requires
        sized(p, w * h),
    ensures
        sized(bounced(p, bar, w, h, zero), w * h),
        forall|d: Heading, x: int, y: int| 0 <= x < w && 0 <= y < h ==>
            #[trigger] moving(bounced(p, bar, w, h, zero), d)[cell(x, y, w)] == bounced_back(p, bar, w, h, zero, d, x, y),
        forall|x: int, y: int| 0 <= x < w && 0 <= y < h ==>
            #[trigger] bounced(p, bar, w, h, zero).unit[cell(x, y, w)]
                == if solid_visited(bar, w, h, x, y) { zero } else { p.unit[cell(x, y, w)] },
{
    let k: int = if h - 2 <= 2 { 2 } else { h - 2 };
    lemma_rows_walk(p, bar, w, h, zero, h - 2);
    assert forall|x: int, y: int| struck(bar, w, h, k, 2, x, y) == solid_visited(bar, w, h, x, y) by {}
    let q = bounced(p, bar, w, h, zero);
    assert forall|d: Heading, x: int, y: int| 0 <= x < w && 0 <= y < h implies
        #[trigger] moving(q, d)[cell(x, y, w)] == bounced_back(p, bar, w, h, zero, d, x, y) by {
        assert(moving(q, d)[cell(x, y, w)] == walked_value(p, bar, w, h, zero, k, 2, d, x, y));
        assert(struck(bar, w, h, k, 2, x - step_x(d), y - step_y(d)) == solid_visited(bar, w, h, x - step_x(d), y - step_y(d)));
    }
    assert forall|x: int, y: int| 0 <= x < w && 0 <= y < h implies
        #[trigger] q.unit[cell(x, y, w)] == if solid_visited(bar, w, h, x, y) { zero } else { p.unit[cell(x, y, w)] } by {
        assert(q.unit[cell(x, y, w)] == if struck(bar, w, h, k, 2, x, y) { zero } else { p.unit[cell(x, y, w)] });
    }
}

/// Every visited solid cell sends each population back to the neighbour it
/// came from, wherever that neighbour is open: the neighbour above receives
/// as north-moving what the cell had moving south, and so on round all
/// eight directions, whatever the other neighbours are.
pub open spec fn reflects_into_open<T>(new: Populations<T>, old: Populations<T>, bar: Seq<bool>, w: int, h: int) -> bool {
    forall|x: int, y: int| #[trigger] solid_visited(bar, w, h, x, y) ==> {
        let i = cell(x, y, w);
        &&& !solid_visited(bar, w, h, x, y - 1) ==> new.north[cell(x, y - 1, w)] == old.south[i]
        &&& !solid_visited(bar, w, h, x, y + 1) ==> new.south[cell(x, y + 1, w)] == old.north[i]
        &&& !solid_visited(bar, w, h, x + 1, y) ==> new.east[cell(x + 1, y, w)] == old.west[i]
        &&& !solid_visited(bar, w, h, x - 1, y) ==> new.west[cell(x - 1, y, w)] == old.east[i]
        &&& !solid_visited(bar, w, h, x - 1, y - 1) ==> new.north_west[cell(x - 1, y - 1, w)] == old.south_east[i]
        &&& !solid_visited(bar, w, h, x + 1, y - 1) ==> new.north_east[cell(x + 1, y - 1, w)] == old.south_west[i]
        &&& !solid_visited(bar, w, h, x + 1, y + 1) ==> new.south_east[cell(x + 1, y + 1, w)] == old.north_west[i]
        &&& !solid_visited(bar, w, h, x - 1, y + 1) ==> new.south_west[cell(x - 1, y + 1, w)] == old.north_east[i]
    }
}

/// Every visited solid cell ends empty, except that a population it sent
/// into a solid neighbour visited after it is sent straight back: its
/// north-, west-, north-west- and north-east-moving values are then what
/// they were before the step.
pub open spec fn solid_cells_emptied<T>(new: Populations<T>, old: Populations<T>, bar: Seq<bool>, w: int, h: int, zero: T) -> bool {
    forall|x: int, y: int| #[trigger] solid_visited(bar, w, h, x, y) ==> {
        let i = cell(x, y, w);
        &&& new.unit[i] == zero
        &&& new.south[i] == zero
        &&& new.east[i] == zero
        &&& new.south_east[i] == zero
        &&& new.south_west[i] == zero
        &&& new.north[i] == if solid_visited(bar, w, h, x, y + 1) { old.north[i] } else { zero }
        &&& new.west[i] == if solid_visited(bar, w, h, x + 1, y) { old.west[i] } else { zero }
        &&& new.north_west[i] == if solid_visited(bar, w, h, x + 1, y + 1) { old.north_west[i] } else { zero }
        &&& new.north_east[i] == if solid_visited(bar, w, h, x - 1, y + 1) { old.north_east[i] } else { zero }
    }
}

/// Open cells away from every visited solid cell keep all their populations.
pub open spec fn open_cells_kept<T>(new: Populations<T>, old: Populations<T>, bar: Seq<bool>, w: int, h: int) -> bool {
    forall|x: int, y: int| 0 <= x < w && 0 <= y < h && !solid_visited(bar, w, h, x, y) && (forall|bx: int, by: int|
        #[trigger] solid_visited(bar, w, h, bx, by) ==> !near(bx, by, x, y)) ==> #[trigger] same_at(new, old, cell(x, y, w))
}

/// Bounce-back reflects every population of a visited solid cell into the
/// open neighbour it came from, empties the solid cells (but for what a
/// later solid neighbour sends straight back), and keeps the cells that are
/// neither solid nor next to a solid cell.
pub proof fn lemma_bounce_laws<T>(p: Populations<T>, bar: Seq<bool>, w: int, h: int, zero: T)
    requires
        sized(p, w * h),
    ensures
        reflects_into_open(bounced(p, bar, w, h, zero), p, bar, w, h),
        solid_cells_emptied(bounced(p, bar, w, h, zero), p, bar, w, h, zero),
        open_cells_kept(bounced(p, bar, w, h, zero), p, bar, w, h),
{
    let q = bounced(p, bar, w, h, zero);
    lemma_bounce_values(p, bar, w, h, zero);
    assert forall|x: int, y: int| #[trigger] solid_visited(bar, w, h, x, y) implies {
        let i = cell(x, y, w);
        &&& !solid_visited(bar, w, h, x, y - 1) ==> q.north[cell(x, y - 1, w)] == p.south[i]
        &&& !solid_visited(bar, w, h, x, y + 1) ==> q.south[cell(x, y + 1, w)] == p.north[i]
        &&& !solid_visited(bar, w, h, x + 1, y) ==> q.east[cell(x + 1, y, w)] == p.west[i]
        &&& !solid_visited(bar, w, h, x - 1, y) ==> q.west[cell(x - 1, y, w)] == p.east[i]
        &&& !solid_visited(bar, w, h, x - 1, y - 1) ==> q.north_west[cell(x - 1, y - 1, w)] == p.south_east[i]
        &&& !solid_visited(bar, w, h, x + 1, y - 1) ==> q.north_east[cell(x + 1, y - 1, w)] == p.south_west[i]
        &&& !solid_visited(bar, w, h, x + 1, y + 1) ==> q.south_east[cell(x + 1, y + 1, w)] == p.north_west[i]
        &&& !solid_visited(bar, w, h, x - 1, y + 1) ==> q.south_west[cell(x - 1, y + 1, w)] == p.north_east[i]
    } by {
        assert(moving(q, Heading::North)[cell(x, y - 1, w)] == bounced_back(p, bar, w, h, zero, Heading::North, x, y - 1));
        assert(moving(q, Heading::South)[cell(x, y + 1, w)] == bounced_back(p, bar, w, h, zero, Heading::South, x, y + 1));
        assert(moving(q, Heading::East)[cell(x + 1, y, w)] == bounced_back(p, bar, w, h, zero, Heading::East, x + 1, y));
        assert(moving(q, Heading::West)[cell(x - 1, y, w)] == bounced_back(p, bar, w, h, zero, Heading::West, x - 1, y));
        assert(moving(q, Heading::NorthWest)[cell(x - 1, y - 1, w)] == bounced_back(p, bar, w, h, zero, Heading::NorthWest, x - 1, y - 1));
        assert(moving(q, Heading::NorthEast)[cell(x + 1, y - 1, w)] == bounced_back(p, bar, w, h, zero, Heading::NorthEast, x + 1, y - 1));
        assert(moving(q, Heading::SouthEast)[cell(x + 1, y + 1, w)] == bounced_back(p, bar, w, h, zero, Heading::SouthEast, x + 1, y + 1));
        assert(moving(q, Heading::SouthWest)[cell(x - 1, y + 1, w)] == bounced_back(p, bar, w, h, zero, Heading::SouthWest, x - 1, y + 1));
    }
    assert forall|x: int, y: int| #[trigger] solid_visited(bar, w, h, x, y) implies {
        let i = cell(x, y, w);
        &&& q.unit[i] == zero
        &&& q.south[i] == zero
        &&& q.east[i] == zero
        &&& q.south_east[i] == zero
        &&& q.south_west[i] == zero
        &&& q.north[i] == if solid_visited(bar, w, h, x, y + 1) { p.north[i] } else { zero }
        &&& q.west[i] == if solid_visited(bar, w, h, x + 1, y) { p.west[i] } else { zero }
        &&& q.north_west[i] == if solid_visited(bar, w, h, x + 1, y + 1) { p.north_west[i] } else { zero }
        &&& q.north_east[i] == if solid_visited(bar, w, h, x - 1, y + 1) { p.north_east[i] } else { zero }
    } by {
        assert(q.unit[cell(x, y, w)] == zero);
        assert(moving(q, Heading::North)[cell(x, y, w)] == bounced_back(p, bar, w, h, zero, Heading::North, x, y));
        assert(moving(q, Heading::South)[cell(x, y, w)] == bounced_back(p, bar, w, h, zero, Heading::South, x, y));
        assert(moving(q, Heading::East)[cell(x, y, w)] == bounced_back(p, bar, w, h, zero, Heading::East, x, y));
        assert(moving(q, Heading::West)[cell(x, y, w)] == bounced_back(p, bar, w, h, zero, Heading::West, x, y));
        assert(moving(q, Heading::NorthWest)[cell(x, y, w)] == bounced_back(p, bar, w, h, zero, Heading::NorthWest, x, y));
        assert(moving(q, Heading::NorthEast)[cell(x, y, w)] == bounced_back(p, bar, w, h, zero, Heading::NorthEast, x, y));
        assert(moving(q, Heading::SouthEast)[cell(x, y, w)] == bounced_back(p, bar, w, h, zero, Heading::SouthEast, x, y));
        assert(moving(q, Heading::SouthWest)[cell(x, y, w)] == bounced_back(p, bar, w, h, zero, Heading::SouthWest, x, y));
    }
    assert forall|x: int, y: int| 0 <= x < w && 0 <= y < h && !solid_visited(bar, w, h, x, y) && (forall|bx: int, by: int|
        #[trigger] solid_visited(bar, w, h, bx, by) ==> !near(bx, by, x, y)) implies #[trigger] same_at(q, p, cell(x, y, w)) by {
        assert(q.unit[cell(x, y, w)] == p.unit[cell(x, y, w)]);
        assert(moving(q, Heading::North)[cell(x, y, w)] == bounced_back(p, bar, w, h, zero, Heading::North, x, y));
        assert(moving(q, Heading::South)[cell(x, y, w)] == bounced_back(p, bar, w, h, zero, Heading::South, x, y));
        assert(moving(q, Heading::East)[cell(x, y, w)] == bounced_back(p, bar, w, h, zero, Heading::East, x, y));
        assert(moving(q, Heading::West)[cell(x, y, w)] == bounced_back(p, bar, w, h, zero, Heading::West, x, y));
        assert(moving(q, Heading::NorthWest)[cell(x, y, w)] == bounced_back(p, bar, w, h, zero, Heading::NorthWest, x, y));
        assert(moving(q, Heading::NorthEast)[cell(x, y, w)] == bounced_back(p, bar, w, h, zero, Heading::NorthEast, x, y));
        assert(moving(q, Heading::SouthEast)[cell(x, y, w)] == bounced_back(p, bar, w, h, zero, Heading::SouthEast, x, y));
        assert(moving(q, Heading::SouthWest)[cell(x, y, w)] == bounced_back(p, bar, w, h, zero, Heading::SouthWest, x, y));
        assert(!solid_visited(bar, w, h, x, y + 1));
        assert(!solid_visited(bar, w, h, x, y - 1));
        assert(!solid_visited(bar, w, h, x + 1, y));
        assert(!solid_visited(bar, w, h, x - 1, y));
        assert(!solid_visited(bar, w, h, x + 1, y + 1));
        assert(!solid_visited(bar, w, h, x - 1, y - 1));
        assert(!solid_visited(bar, w, h, x + 1, y - 1));
        assert(!solid_visited(bar, w, h, x - 1, y + 1));
    }
}

} // verus!
