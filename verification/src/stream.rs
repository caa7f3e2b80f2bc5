use vstd::prelude::*;
use crate::grid::cell;
use crate::lattice::{uniform, Populations};

verus! {

/// A rectangle of cells: columns `x0 .. x1` and rows `y0 .. y1`.
pub struct Rect {
    pub x0: usize,
    pub x1: usize,
    pub y0: usize,
    pub y1: usize,
}

impl Rect {
    /// Whether the cell `(x, y)` lies in the rectangle.
    pub open spec fn contains(self, x: int, y: int) -> bool {
        self.x0 <= x < self.x1 && self.y0 <= y < self.y1
    }
}

/// `new` is `old` with every cell `(x, y)` for which `moves(x, y)` holds
/// replaced by the value of the cell `(x + dx, y + dy)` of `old`; every
/// other cell keeps its value.
pub open spec fn moved<T>(
    new: Seq<T>,
    old: Seq<T>,
    w: int,
    h: int,
    moves: spec_fn(int, int) -> bool,
    dx: int,
    dy: int,
) -> bool {
    &&& new.len() == old.len()
    &&& forall|x: int, y: int|
        0 <= x < w && 0 <= y < h ==> #[trigger] new[cell(x, y, w)] == if moves(x, y) {
            old[cell(x + dx, y + dy, w)]
        } else {
            old[cell(x, y, w)]
        }
}

/// Position of coordinate `c` in the order in which `lo .. hi` is walked:
/// upwards when the values are read from higher coordinates (`s >= 0`),
/// downwards otherwise, so that every read meets a value not yet written.
spec fn rank(c: int, lo: int, hi: int, s: int) -> int {
    if s >= 0 {
        c - lo
    } else {
        hi - 1 - c
    }
}

/// Whether a walk over `r`, `ky` rows and then `kx` cells of the next row
/// in, has already written cell `(x, y)`.
spec fn done(r: Rect, x: int, y: int, dx: int, dy: int, ky: int, kx: int) -> bool {
    &&& r.contains(x, y)
    &&& {
        ||| rank(y, r.y0 as int, r.y1 as int, dy) < ky
        ||| rank(y, r.y0 as int, r.y1 as int, dy) == ky && rank(x, r.x0 as int, r.x1 as int, dx) < kx
    }
}

/// `v` is `old` with exactly the cells that the walk has written moved.
spec fn partly_moved<T>(
    v: Seq<T>,
    old: Seq<T>,
    w: int,
    h: int,
    r: Rect,
    dx: int,
    dy: int,
    ky: int,
    kx: int,
) -> bool {
    forall|x: int, y: int|
        0 <= x < w && 0 <= y < h ==> #[trigger] v[cell(x, y, w)] == if done(r, x, y, dx, dy, ky, kx) {
            old[cell(x + dx, y + dy, w)]
        } else {
            old[cell(x, y, w)]
        }
}

/// The coordinate one step from `c` in the direction `s`.
fn step_from(c: usize, s: i8) -> (r: usize)
    requires
        -1 <= s <= 1,
        0 <= c + s <= usize::MAX,
    ensures
        r == c + s,
{
    if s < 0 {
        c - 1
    } else if s > 0 {
        c + 1
    } else {
        c
    }
}

/// Moves, in place, the value of cell `(x + dx, y + dy)` into cell `(x, y)`
/// for every cell of the rectangle `r` of a `w` by `h` lattice. The cells
/// are visited in the order in which each read finds a value that this call
/// has not yet overwritten.
pub fn shift<T: Copy>(v: &mut Vec<T>, w: usize, h: usize, r: Rect, dx: i8, dy: i8)
    requires
        old(v).len() == w * h,
        -1 <= dx <= 1,
        -1 <= dy <= 1,
        r.x1 <= w,
        r.y1 <= h,
        r.x0 < r.x1 && r.y0 < r.y1 ==> {
            &&& 0 <= r.x0 + dx
            &&& r.x1 + dx <= w
            &&& 0 <= r.y0 + dy
            &&& r.y1 + dy <= h
        },
    ensures
        moved(final(v)@, old(v)@, w as int, h as int, |x: int, y: int| r.contains(x, y), dx as int, dy as int),
{
    let ghost old_v = v@;
    let ghost wi = w as int;
    let ghost hi = h as int;
    let rows: usize = if r.y0 < r.y1 { r.y1 - r.y0 } else { 0 };
    let cols: usize = if r.x0 < r.x1 { r.x1 - r.x0 } else { 0 };
    let mut ky: usize = 0;
    while ky < rows
        invariant
            v.len() == w * h,
            old_v.len() == w * h,
            wi == w,
            hi == h,
            rows == (if r.y0 < r.y1 { r.y1 - r.y0 } else { 0 }),
            cols == (if r.x0 < r.x1 { r.x1 - r.x0 } else { 0 }),
            ky <= rows,
            -1 <= dx <= 1,
            -1 <= dy <= 1,
            r.x1 <= w,
            r.y1 <= h,
            r.x0 < r.x1 && r.y0 < r.y1 ==> {
                &&& 0 <= r.x0 + dx
                &&& r.x1 + dx <= w
                &&& 0 <= r.y0 + dy
                &&& r.y1 + dy <= h
            },
            partly_moved(v@, old_v, wi, hi, r, dx as int, dy as int, ky as int, 0),
        decreases rows - ky,
    {
        let y: usize = if dy >= 0 { r.y0 + ky } else { r.y1 - 1 - ky };
        let mut kx: usize = 0;
        while kx < cols
            invariant
                v.len() == w * h,
                old_v.len() == w * h,
                wi == w,
                hi == h,
                rows == (if r.y0 < r.y1 { r.y1 - r.y0 } else { 0 }),
                cols == (if r.x0 < r.x1 { r.x1 - r.x0 } else { 0 }),
                ky < rows,
                kx <= cols,
                -1 <= dx <= 1,
                -1 <= dy <= 1,
                r.x1 <= w,
                r.y1 <= h,
                r.x0 < r.x1 && r.y0 < r.y1 ==> {
                    &&& 0 <= r.x0 + dx
                    &&& r.x1 + dx <= w
                    &&& 0 <= r.y0 + dy
                    &&& r.y1 + dy <= h
                },
                y == (if dy >= 0 { r.y0 + ky } else { r.y1 - 1 - ky }),
                partly_moved(v@, old_v, wi, hi, r, dx as int, dy as int, ky as int, kx as int),
            decreases cols - kx,
        {
            let x: usize = if dx >= 0 { r.x0 + kx } else { r.x1 - 1 - kx };
            let sx: usize = step_from(x, dx);
            let sy: usize = step_from(y, dy);
            proof {
                crate::grid::lemma_cell_in_bounds(sx as int, sy as int, wi, hi);
                crate::grid::lemma_cell_in_bounds(x as int, y as int, wi, hi);
                assert(!done(r, sx as int, sy as int, dx as int, dy as int, ky as int, kx as int));
                assert(v@[cell(sx as int, sy as int, wi)] == old_v[cell(sx as int, sy as int, wi)]);
            }
            let value = v[sy * w + sx];
            let ghost before = v@;
            v.set(y * w + x, value);
            proof {
                assert forall|xx: int, yy: int| 0 <= xx < wi && 0 <= yy < hi implies #[trigger] v@[cell(xx, yy, wi)]
                    == if done(r, xx, yy, dx as int, dy as int, ky as int, kx + 1) {
                        old_v[cell(xx + dx, yy + dy, wi)]
                    } else {
                        old_v[cell(xx, yy, wi)]
                    } by {
                    crate::grid::lemma_cell_in_bounds(xx, yy, wi, hi);
                    if xx == x && yy == y {
                    } else {
                        if cell(xx, yy, wi) == cell(x as int, y as int, wi) {
                            crate::grid::lemma_cell_unique(xx, yy, x as int, y as int, wi);
                        }
                        assert(v@[cell(xx, yy, wi)] == before[cell(xx, yy, wi)]);
                    }
                }
            }
            kx = kx + 1;
        }
        proof {
            assert forall|xx: int, yy: int| 0 <= xx < wi && 0 <= yy < hi implies #[trigger] v@[cell(xx, yy, wi)]
                == if done(r, xx, yy, dx as int, dy as int, ky + 1, 0) {
                    old_v[cell(xx + dx, yy + dy, wi)]
                } else {
                    old_v[cell(xx, yy, wi)]
                } by {
                assert(done(r, xx, yy, dx as int, dy as int, ky + 1, 0) == done(r, xx, yy, dx as int, dy as int, ky as int, cols as int));
            }
        }
        ky = ky + 1;
    }
    proof {
        assert forall|xx: int, yy: int| 0 <= xx < wi && 0 <= yy < hi implies #[trigger] v@[cell(xx, yy, wi)]
            == if r.contains(xx, yy) {
                old_v[cell(xx + dx, yy + dy, wi)]
            } else {
                old_v[cell(xx, yy, wi)]
            } by {
            assert(done(r, xx, yy, dx as int, dy as int, rows as int, 0) == r.contains(xx, yy));
        }
    }
}

/// Cells whose north-moving value arrives from the row above after
/// streaming: every row but the last, except the top-right corner.
pub open spec fn north_moves(w: int, h: int) -> spec_fn(int, int) -> bool {
    |x: int, y: int| y + 1 < h && (x + 1 < w || 1 <= y)
}

/// Cells whose south-moving value arrives from the row below after
/// streaming: every row but the first, except the bottom-right corner.
pub open spec fn south_moves(w: int, h: int) -> spec_fn(int, int) -> bool {
    |x: int, y: int| 1 <= y && (x + 1 < w || y + 1 < h)
}

/// Cells of the interior block that leaves out the last column and the last row.
pub open spec fn west_moves(w: int, h: int) -> spec_fn(int, int) -> bool {
    |x: int, y: int| x + 1 < w && y + 1 < h
}

/// Cells that leave out the last column and the first row.
pub open spec fn south_west_moves(w: int, h: int) -> spec_fn(int, int) -> bool {
    |x: int, y: int| x + 1 < w && 1 <= y
}

/// Cells that leave out the first column and the last row.
pub open spec fn east_moves(w: int, h: int) -> spec_fn(int, int) -> bool {
    |x: int, y: int| 1 <= x && y + 1 < h
}

/// Cells that leave out the first column and the first row.
pub open spec fn south_east_moves(w: int, h: int) -> spec_fn(int, int) -> bool {
    |x: int, y: int| 1 <= x && 1 <= y
}

/// Streams the north-moving populations: each cell of `north_moves` takes
/// the value of the cell in the next row (`y + 1`).
pub fn stream_north<T: Copy>(v: &mut Vec<T>, w: usize, h: usize)
    requires
        old(v).len() == w * h,
        1 <= w,
        1 <= h,
    ensures
        moved(final(v)@, old(v)@, w as int, h as int, north_moves(w as int, h as int), 0, 1),
{
    let ghost v0 = v@;
    shift(v, w, h, Rect { x0: 0, x1: w - 1, y0: 0, y1: h - 1 }, 0, 1);
    let ghost v1 = v@;
    shift(v, w, h, Rect { x0: w - 1, x1: w, y0: 1, y1: h - 1 }, 0, 1);
    proof {
        let wi: int = w as int;
        let hi: int = h as int;
        assert forall|x: int, y: int| 0 <= x < wi && 0 <= y < hi implies #[trigger] v@[cell(x, y, wi)]
            == if north_moves(wi, hi)(x, y) { v0[cell(x, y + 1, wi)] } else { v0[cell(x, y, wi)] } by {
            if x == wi - 1 && 1 <= y < hi - 1 {
                assert(v1[cell(x, y + 1, wi)] == v0[cell(x, y + 1, wi)]);
            }
        }
    }
}

/// Streams the south-moving populations: each cell of `south_moves` takes
/// the value of the cell in the previous row (`y - 1`).
pub fn stream_south<T: Copy>(v: &mut Vec<T>, w: usize, h: usize)
    requires
        old(v).len() == w * h,
        1 <= w,
        1 <= h,
    ensures
        moved(final(v)@, old(v)@, w as int, h as int, south_moves(w as int, h as int), 0, -1),
{
    let ghost v0 = v@;
    shift(v, w, h, Rect { x0: 0, x1: w - 1, y0: 1, y1: h }, 0, -1);
    let ghost v1 = v@;
    shift(v, w, h, Rect { x0: w - 1, x1: w, y0: 1, y1: h - 1 }, 0, -1);
    proof {
        let wi: int = w as int;
        let hi: int = h as int;
        assert forall|x: int, y: int| 0 <= x < wi && 0 <= y < hi implies #[trigger] v@[cell(x, y, wi)]
            == if south_moves(wi, hi)(x, y) { v0[cell(x, y - 1, wi)] } else { v0[cell(x, y, wi)] } by {
            if x == wi - 1 && 1 <= y < hi - 1 {
                assert(v1[cell(x, y - 1, wi)] == v0[cell(x, y - 1, wi)]);
            }
        }
    }
}

/// Streams the west-moving populations: each cell of `west_moves` takes
/// the value of the cell in the next column (`x + 1`).
pub fn stream_west<T: Copy>(v: &mut Vec<T>, w: usize, h: usize)
    requires
        old(v).len() == w * h,
        1 <= w,
        1 <= h,
    ensures
        moved(final(v)@, old(v)@, w as int, h as int, west_moves(w as int, h as int), 1, 0),
{
    shift(v, w, h, Rect { x0: 0, x1: w - 1, y0: 0, y1: h - 1 }, 1, 0);
}

/// Streams the north-west-moving populations: each cell of `west_moves`
/// takes the value of the cell at `(x + 1, y + 1)`.
pub fn stream_north_west<T: Copy>(v: &mut Vec<T>, w: usize, h: usize)
    requires
        old(v).len() == w * h,
        1 <= w,
        1 <= h,
    ensures
        moved(final(v)@, old(v)@, w as int, h as int, west_moves(w as int, h as int), 1, 1),
{
    shift(v, w, h, Rect { x0: 0, x1: w - 1, y0: 0, y1: h - 1 }, 1, 1);
}

/// Streams the south-west-moving populations: each cell of
/// `south_west_moves` takes the value of the cell at `(x + 1, y - 1)`.
pub fn stream_south_west<T: Copy>(v: &mut Vec<T>, w: usize, h: usize)
    requires
        old(v).len() == w * h,
        1 <= w,
        1 <= h,
    ensures
        moved(final(v)@, old(v)@, w as int, h as int, south_west_moves(w as int, h as int), 1, -1),
{
    shift(v, w, h, Rect { x0: 0, x1: w - 1, y0: 1, y1: h }, 1, -1);
}

/// Streams the east-moving populations: each cell of `east_moves` takes
/// the value of the cell in the previous column (`x - 1`).
pub fn stream_east<T: Copy>(v: &mut Vec<T>, w: usize, h: usize)
    requires
        old(v).len() == w * h,
        1 <= w,
        1 <= h,
    ensures
        moved(final(v)@, old(v)@, w as int, h as int, east_moves(w as int, h as int), -1, 0),
{
    shift(v, w, h, Rect { x0: 1, x1: w, y0: 0, y1: h - 1 }, -1, 0);
}

/// Streams the north-east-moving populations: each cell of `east_moves`
/// takes the value of the cell at `(x - 1, y + 1)`.
pub fn stream_north_east<T: Copy>(v: &mut Vec<T>, w: usize, h: usize)
    requires
        old(v).len() == w * h,
        1 <= w,
        1 <= h,
    ensures
        moved(final(v)@, old(v)@, w as int, h as int, east_moves(w as int, h as int), -1, 1),
{
    shift(v, w, h, Rect { x0: 1, x1: w, y0: 0, y1: h - 1 }, -1, 1);
}

/// Streams the south-east-moving populations: each cell of
/// `south_east_moves` takes the value of the cell at `(x - 1, y - 1)`.
pub fn stream_south_east<T: Copy>(v: &mut Vec<T>, w: usize, h: usize)
    requires
        old(v).len() == w * h,
        1 <= w,
        1 <= h,
    ensures
        moved(final(v)@, old(v)@, w as int, h as int, south_east_moves(w as int, h as int), -1, -1),
{
    shift(v, w, h, Rect { x0: 1, x1: w, y0: 1, y1: h }, -1, -1);
}

/// The populations `new` are `old` after streaming on a `w` by `h`
/// lattice: each moving population is carried one cell along its direction,
/// over the region that the streaming step covers, and the resting one stays.
pub open spec fn streamed<T>(new: Populations<T>, old: Populations<T>, w: int, h: int) -> bool {
    &&& new.unit == old.unit
    &&& moved(new.north, old.north, w, h, north_moves(w, h), 0, 1)
    &&& moved(new.north_west, old.north_west, w, h, west_moves(w, h), 1, 1)
    &&& moved(new.west, old.west, w, h, west_moves(w, h), 1, 0)
    &&& moved(new.south, old.south, w, h, south_moves(w, h), 0, -1)
    &&& moved(new.south_west, old.south_west, w, h, south_west_moves(w, h), 1, -1)
    &&& moved(new.east, old.east, w, h, east_moves(w, h), -1, 0)
    &&& moved(new.north_east, old.north_east, w, h, east_moves(w, h), -1, 1)
    &&& moved(new.south_east, old.south_east, w, h, south_east_moves(w, h), -1, -1)
}

/// Streaming keeps a field at rest: when every moved cell reads from a cell
/// inside the lattice, a field that holds one value everywhere is unchanged.
pub proof fn lemma_stream_uniform<T>(
    new: Seq<T>,
    old: Seq<T>,
    w: int,
    h: int,
    moves: spec_fn(int, int) -> bool,
    dx: int,
    dy: int,
    value: T,
)
    requires
        0 < w,
        0 <= h,
        old == uniform(value, (w * h) as nat),
        moved(new, old, w, h, moves, dx, dy),
        forall|x: int, y: int| 0 <= x < w && 0 <= y < h && #[trigger] moves(x, y)
            ==> 0 <= x + dx < w && 0 <= y + dy < h,
    ensures
        new == old,
{
    assert(0 <= w * h) by (nonlinear_arith)
        requires 0 < w, 0 <= h;
    assert forall|i: int| 0 <= i < new.len() implies new[i] == old[i] by {
        crate::grid::lemma_cell_cover(i, w, h);
        let x: int = i % w;
        let y: int = i / w;
        if moves(x, y) {
            crate::grid::lemma_cell_in_bounds(x + dx, y + dy, w, h);
        }
    }
    assert(new =~= old);
}

/// `moved` fixes the new field: two fields moved the same way from one
/// field of `w * h` values are equal.
pub proof fn lemma_moved_unique<T>(
    a: Seq<T>,
    b: Seq<T>,
    old: Seq<T>,
    w: int,
    h: int,
    moves: spec_fn(int, int) -> bool,
    dx: int,
    dy: int,
)
    requires
        0 <= w,
        0 <= h,
        old.len() == w * h,
        moved(a, old, w, h, moves, dx, dy),
        moved(b, old, w, h, moves, dx, dy),
    ensures
        a == b,
{
    if w > 0 {
        assert forall|i: int| 0 <= i < a.len() implies a[i] == b[i] by {
            crate::grid::lemma_cell_cover(i, w, h);
            assert(a[cell(i % w, i / w, w)] == b[cell(i % w, i / w, w)]);
        }
    } else {
        assert(w * h == 0);
    }
    assert(a =~= b);
}

/// Streaming is deterministic: `streamed` fixes the new populations of a
/// `w` by `h` lattice completely.
pub proof fn lemma_streamed_unique<T>(a: Populations<T>, b: Populations<T>, old: Populations<T>, w: int, h: int)
    requires
        0 <= w,
        0 <= h,
        crate::bounce::sized(old, w * h),
        streamed(a, old, w, h),
        streamed(b, old, w, h),
    ensures
        a == b,
{
    lemma_moved_unique(a.north, b.north, old.north, w, h, north_moves(w, h), 0, 1);
    lemma_moved_unique(a.north_west, b.north_west, old.north_west, w, h, west_moves(w, h), 1, 1);
    lemma_moved_unique(a.west, b.west, old.west, w, h, west_moves(w, h), 1, 0);
    lemma_moved_unique(a.south, b.south, old.south, w, h, south_moves(w, h), 0, -1);
    lemma_moved_unique(a.south_west, b.south_west, old.south_west, w, h, south_west_moves(w, h), 1, -1);
    lemma_moved_unique(a.east, b.east, old.east, w, h, east_moves(w, h), -1, 0);
    lemma_moved_unique(a.north_east, b.north_east, old.north_east, w, h, east_moves(w, h), -1, 1);
    lemma_moved_unique(a.south_east, b.south_east, old.south_east, w, h, south_east_moves(w, h), -1, -1);
}

/// Streaming keeps a lattice at rest: when each moving population holds a
/// single value over the whole lattice, streaming changes none of them.
pub proof fn lemma_streamed_at_rest<T>(new: Populations<T>, old: Populations<T>, w: int, h: int, value: T)
    requires
        1 <= w,
        1 <= h,
        streamed(new, old, w, h),
        old.north == uniform(value, (w * h) as nat),
        old.south == uniform(value, (w * h) as nat),
        old.east == uniform(value, (w * h) as nat),
        old.west == uniform(value, (w * h) as nat),
        old.north_west == uniform(value, (w * h) as nat),
        old.north_east == uniform(value, (w * h) as nat),
        old.south_east == uniform(value, (w * h) as nat),
        old.south_west == uniform(value, (w * h) as nat),
    ensures
        new == old,
{
    lemma_stream_uniform(new.north, old.north, w, h, north_moves(w, h), 0, 1, value);
    lemma_stream_uniform(new.north_west, old.north_west, w, h, west_moves(w, h), 1, 1, value);
    lemma_stream_uniform(new.west, old.west, w, h, west_moves(w, h), 1, 0, value);
    lemma_stream_uniform(new.south, old.south, w, h, south_moves(w, h), 0, -1, value);
    lemma_stream_uniform(new.south_west, old.south_west, w, h, south_west_moves(w, h), 1, -1, value);
    lemma_stream_uniform(new.east, old.east, w, h, east_moves(w, h), -1, 0, value);
    lemma_stream_uniform(new.north_east, old.north_east, w, h, east_moves(w, h), -1, 1, value);
    lemma_stream_uniform(new.south_east, old.south_east, w, h, south_east_moves(w, h), -1, -1, value);
}

/// Moving a field and then moving the result back the opposite way
/// restores every cell that both moves covered.
proof fn lemma_moved_back<T>(
    a: Seq<T>,
    b: Seq<T>,
    old: Seq<T>,
    w: int,
    h: int,
    there: spec_fn(int, int) -> bool,
    back: spec_fn(int, int) -> bool,
    dx: int,
    dy: int,
    x: int,
    y: int,
)
    requires
        moved(a, old, w, h, there, dx, dy),
        moved(b, a, w, h, back, -dx, -dy),
        0 <= x < w,
        0 <= y < h,
        0 <= x - dx < w,
        0 <= y - dy < h,
        back(x, y),
        there(x - dx, y - dy),
    ensures
        b[cell(x, y, w)] == old[cell(x, y, w)],
{
    assert(b[cell(x, y, w)] == a[cell(x - dx, y - dy, w)]);
    assert(a[cell(x - dx, y - dy, w)] == old[cell(x - dx + dx, y - dy + dy, w)]);
}

/// Streaming a field north and then south gives it back on every row but
/// the first and the last, except at the right end of the second row.
pub proof fn lemma_north_south_round_trip<T>(a: Seq<T>, b: Seq<T>, old: Seq<T>, w: int, h: int)
    requires
        moved(a, old, w, h, north_moves(w, h), 0, 1),
        moved(b, a, w, h, south_moves(w, h), 0, -1),
    ensures
        forall|x: int, y: int| 0 <= x < w && 1 <= y < h - 1 && (x + 1 < w || 2 <= y)
            ==> #[trigger] b[cell(x, y, w)] == old[cell(x, y, w)],
{
    assert forall|x: int, y: int| 0 <= x < w && 1 <= y < h - 1 && (x + 1 < w || 2 <= y)
        implies #[trigger] b[cell(x, y, w)] == old[cell(x, y, w)] by {
        lemma_moved_back(a, b, old, w, h, north_moves(w, h), south_moves(w, h), 0, 1, x, y);
    }
}

/// Streaming a field west and then east gives it back on every cell but
/// those of the first column and of the last row.
pub proof fn lemma_west_east_round_trip<T>(a: Seq<T>, b: Seq<T>, old: Seq<T>, w: int, h: int)
    requires
        moved(a, old, w, h, west_moves(w, h), 1, 0),
        moved(b, a, w, h, east_moves(w, h), -1, 0),
    ensures
        forall|x: int, y: int| 1 <= x < w && 0 <= y < h - 1 ==> #[trigger] b[cell(x, y, w)] == old[cell(x, y, w)],
{
    assert forall|x: int, y: int| 1 <= x < w && 0 <= y < h - 1 implies #[trigger] b[cell(x, y, w)] == old[cell(x, y, w)] by {
        lemma_moved_back(a, b, old, w, h, west_moves(w, h), east_moves(w, h), 1, 0, x, y);
    }
}

/// Streaming a field north-west and then south-east gives it back on every
/// cell but those of the first column and the first row.
pub proof fn lemma_north_west_south_east_round_trip<T>(a: Seq<T>, b: Seq<T>, old: Seq<T>, w: int, h: int)
    requires
        moved(a, old, w, h, west_moves(w, h), 1, 1),
        moved(b, a, w, h, south_east_moves(w, h), -1, -1),
    ensures
        forall|x: int, y: int| 1 <= x < w && 1 <= y < h ==> #[trigger] b[cell(x, y, w)] == old[cell(x, y, w)],
{
    assert forall|x: int, y: int| 1 <= x < w && 1 <= y < h implies #[trigger] b[cell(x, y, w)] == old[cell(x, y, w)] by {
        lemma_moved_back(a, b, old, w, h, west_moves(w, h), south_east_moves(w, h), 1, 1, x, y);
    }
}

/// Streaming a field north-east and then south-west gives it back on every
/// cell but those of the last column and the first row.
pub proof fn lemma_north_east_south_west_round_trip<T>(a: Seq<T>, b: Seq<T>, old: Seq<T>, w: int, h: int)
    requires
        moved(a, old, w, h, east_moves(w, h), -1, 1),
        moved(b, a, w, h, south_west_moves(w, h), 1, -1),
    ensures
        forall|x: int, y: int| 0 <= x < w - 1 && 1 <= y < h ==> #[trigger] b[cell(x, y, w)] == old[cell(x, y, w)],
{
    assert forall|x: int, y: int| 0 <= x < w - 1 && 1 <= y < h implies #[trigger] b[cell(x, y, w)] == old[cell(x, y, w)] by {
        lemma_moved_back(a, b, old, w, h, east_moves(w, h), south_west_moves(w, h), -1, 1, x, y);
    }
}

} // verus!
