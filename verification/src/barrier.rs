use vstd::prelude::*;
use bitvec::vec::BitVec;
use crate::grid::cell;

verus! {

/// The barrier mask of a lattice: one bit per cell, in row-major order,
/// set where the cell is solid. The bits are held in a `bitvec::vec::BitVec`.
#[verifier::external_body]
pub struct Barrier {
    bits: BitVec,
}

/// The bits that a barrier holds, in order.
pub uninterp spec fn barrier_bits(b: Barrier) -> Seq<bool>;

impl Barrier {
    /// Collects `bools` into a `BitVec` through its `FromIterator<bool>` impl,
    /// which extends an empty bit vector with the items in order; the
    /// contract claims that the bits are `bools`, in the same order.
    #[verifier::external_body]
    pub fn from_bools(bools: Vec<bool>) -> (r: Barrier)
        ensures
            barrier_bits(r) == bools@,
    {
        Barrier { bits: bools.into_iter().collect() }
    }

    /// Calls `BitSlice::len` on the held bits; the contract claims that it
    /// is the number of bits.
    #[verifier::external_body]
    pub fn len(&self) -> (n: usize)
        ensures
            n == barrier_bits(*self).len(),
    {
        self.bits.len()
    }

    /// Indexes the held bits with `Index<usize>` of `BitVec`, which panics
    /// out of bounds; the contract claims that the result is bit `i`.
    #[verifier::external_body]
    pub fn get(&self, i: usize) -> (b: bool)
        requires
            i < barrier_bits(*self).len(),
        ensures
            b == barrier_bits(*self)[i as int],
    {
        self.bits[i]
    }
}

/// Signed offset of coordinate `a` from coordinate `b`, each first cast to `i32`.
pub open spec fn offset(a: usize, b: usize) -> int {
    (a as i32) as int - (b as i32) as int
}

/// Whether every intermediate value of the disk test at cell `(x, y)` fits
/// in an `i32`.
pub open spec fn disk_test_fits(x: usize, y: usize, center: (usize, usize)) -> bool {
    let dx: int = offset(x, center.0);
    let dy: int = offset(y, center.1);
    &&& i32::MIN <= dx <= i32::MAX
    &&& i32::MIN <= dy <= i32::MAX
    &&& dx * dx <= i32::MAX
    &&& dy * dy <= i32::MAX
    &&& dx * dx + dy * dy <= i32::MAX
}

/// Whether the cell `(x, y)` lies in the disk of the given center and radius:
/// its squared distance to the center is at most the squared radius read as
/// an `i32`.
pub open spec fn in_disk(x: usize, y: usize, center: (usize, usize), radius: u32) -> bool {
    let dx: int = offset(x, center.0);
    let dy: int = offset(y, center.1);
    dx * dx + dy * dy <= ((radius * radius) as i32) as int
}

/// Whether the disk test can be carried out on every cell of a
/// `width` by `height` lattice without arithmetic overflow.
pub open spec fn disk_fits(width: usize, height: usize, center: (usize, usize), radius: u32) -> bool {
    (width > 0 && height > 0) ==> {
        &&& radius * radius <= u32::MAX
        &&& forall|x: usize, y: usize|
            x < width && y < height ==> #[trigger] disk_test_fits(x, y, center)
    }
}

/// The disk test cannot overflow on a lattice whose sides and center
/// coordinates are below 20000 and whose radius is below 65536.
pub proof fn lemma_disk_fits(width: usize, height: usize, center: (usize, usize), radius: u32)
    requires
        width <= 20000,
        height <= 20000,
        center.0 <= 20000,
        center.1 <= 20000,
        radius < 65536,
    ensures
        disk_fits(width, height, center, radius),
{
    assert(radius * radius <= u32::MAX) by (nonlinear_arith)
        requires radius < 65536;
    assert forall|x: usize, y: usize| x < width && y < height implies #[trigger] disk_test_fits(x, y, center) by {
        assert((x as i32) as int == x as int);
        assert((y as i32) as int == y as int);
        assert((center.0 as i32) as int == center.0 as int);
        assert((center.1 as i32) as int == center.1 as int);
        let dx: int = offset(x, center.0);
        let dy: int = offset(y, center.1);
        assert(dx * dx <= 400000000) by (nonlinear_arith)
            requires -20000 <= dx <= 20000;
        assert(dy * dy <= 400000000) by (nonlinear_arith)
            requires -20000 <= dy <= 20000;
    }
}

/// Where no coordinate or squared radius is cut by the casts to `i32`, the
/// disk test is the plain one: squared distance to the center at most the
/// squared radius.
proof fn lemma_plain_disk(x: usize, y: usize, center: (usize, usize), radius: u32)
    requires
        x <= i32::MAX,
        y <= i32::MAX,
        center.0 <= i32::MAX,
        center.1 <= i32::MAX,
        radius * radius <= i32::MAX,
    ensures
        in_disk(x, y, center, radius) == (
        (x - center.0) * (x - center.0) + (y - center.1) * (y - center.1) <= radius * radius),
{
    assert((x as i32) as int == x as int);
    assert((y as i32) as int == y as int);
    assert((center.0 as i32) as int == center.0 as int);
    assert((center.1 as i32) as int == center.1 as int);
    assert(((radius * radius) as i32) as int == radius * radius);
}

/// Builds the barrier of a cylinder standing in a `width` by `height`
/// lattice: the cell `(x, y)` is solid exactly when it lies in the disk
/// around `center` with the given radius.
pub fn cyllindircal_barrier(width: usize, height: usize, center: (usize, usize), radius: u32) -> (r: Barrier)
    requires
        disk_fits(width, height, center, radius),
    ensures
        barrier_bits(r).len() == width * height,
        forall|x: int, y: int|
            0 <= x < width && 0 <= y < height ==> #[trigger] barrier_bits(r)[cell(x, y, width as int)]
                == in_disk(x as usize, y as usize, center, radius),
        center.0 <= i32::MAX && center.1 <= i32::MAX && radius * radius <= i32::MAX ==> forall|x: int, y: int|
            0 <= x < width && 0 <= y < height && x <= i32::MAX && y <= i32::MAX
                ==> #[trigger] barrier_bits(r)[cell(x, y, width as int)] == (
                (x - center.0) * (x - center.0) + (y - center.1) * (y - center.1) <= radius * radius),
{
    let mut output: Vec<bool> = Vec::new();
    let mut y: usize = 0;
    while y < height
        invariant
            y <= height,
            disk_fits(width, height, center, radius),
            output.len() == y * width,
            forall|xx: int, yy: int|
                0 <= xx < width && 0 <= yy < y ==> #[trigger] output@[cell(xx, yy, width as int)]
                    == in_disk(xx as usize, yy as usize, center, radius),
        decreases height - y,
    {
        let mut x: usize = 0;
        while x < width
            invariant
                y < height,
                x <= width,
                disk_fits(width, height, center, radius),
                output.len() == y * width + x,
                forall|xx: int, yy: int|
                    0 <= xx < width && 0 <= yy < y ==> #[trigger] output@[cell(xx, yy, width as int)]
                        == in_disk(xx as usize, yy as usize, center, radius),
                forall|xx: int|
                    0 <= xx < x ==> #[trigger] output@[cell(xx, y as int, width as int)]
                        == in_disk(xx as usize, y, center, radius),
            decreases width - x,
        {
            assert(disk_test_fits(x, y, center));
            let dx: i32 = #[verifier::truncate] (x as i32) - #[verifier::truncate] (center.0 as i32);
            let dy: i32 = #[verifier::truncate] (y as i32) - #[verifier::truncate] (center.1 as i32);
            assert(0 <= dx * dx && 0 <= dy * dy) by (nonlinear_arith);
            let inside: bool = dx * dx + dy * dy <= (radius * radius) as i32;
            let ghost before = output@;
            output.push(inside);
            proof {
                assert forall|xx: int, yy: int|
                    0 <= xx < width && 0 <= yy < y implies #[trigger] output@[cell(xx, yy, width as int)]
                        == in_disk(xx as usize, yy as usize, center, radius) by {
                    crate::grid::lemma_cell_in_bounds(xx, yy, width as int, y as int);
                    assert(output@[cell(xx, yy, width as int)] == before[cell(xx, yy, width as int)]);
                }
                assert forall|xx: int|
                    0 <= xx < x + 1 implies #[trigger] output@[cell(xx, y as int, width as int)]
                        == in_disk(xx as usize, y, center, radius) by {
                    if xx < x {
                        assert(output@[cell(xx, y as int, width as int)] == before[cell(xx, y as int, width as int)]);
                    }
                }
            }
            x = x + 1;
        }
        proof {
            assert(y * width + width == (y + 1) * width) by (nonlinear_arith);
            assert forall|xx: int, yy: int|
                0 <= xx < width && 0 <= yy < y + 1 implies #[trigger] output@[cell(xx, yy, width as int)]
                    == in_disk(xx as usize, yy as usize, center, radius) by {
                if yy == y {
                    assert(output@[cell(xx, y as int, width as int)] == in_disk(xx as usize, y, center, radius));
                }
            }
        }
        y = y + 1;
    }
    assert(height * width == width * height) by (nonlinear_arith);
    proof {
        if center.0 <= i32::MAX && center.1 <= i32::MAX && radius * radius <= i32::MAX {
            assert forall|x: int, y: int| 0 <= x < width && 0 <= y < height && x <= i32::MAX && y <= i32::MAX
                implies #[trigger] output@[cell(x, y, width as int)] == (
                (x - center.0) * (x - center.0) + (y - center.1) * (y - center.1) <= radius * radius) by {
                lemma_plain_disk(x as usize, y as usize, center, radius);
            }
        }
    }
    Barrier::from_bools(output)
}

/// Whether a pixel of the given colour marks a solid cell: every colour but
/// pure black does.
pub open spec fn solid_colour(rgb: (u8, u8, u8)) -> bool {
    !(rgb.0 == 0 && rgb.1 == 0 && rgb.2 == 0)
}

/// Builds the barrier drawn by an image whose pixels are given in row-major
/// order: a cell is solid exactly when its pixel is not black.
pub fn barrier_from_pixels(pixels: &Vec<(u8, u8, u8)>) -> (r: Barrier)
    ensures
        barrier_bits(r).len() == pixels.len(),
        forall|i: int| 0 <= i < pixels.len() ==> #[trigger] barrier_bits(r)[i] == solid_colour(pixels@[i]),
        forall|i: int| 0 <= i < pixels.len() ==> #[trigger] barrier_bits(r)[i] == (pixels@[i].0 != 0
            || pixels@[i].1 != 0 || pixels@[i].2 != 0),
{
    let mut output: Vec<bool> = Vec::new();
    let mut i: usize = 0;
    while i < pixels.len()
        invariant
            i <= pixels.len(),
            output.len() == i,
            forall|j: int| 0 <= j < i ==> #[trigger] output@[j] == solid_colour(pixels@[j]),
        decreases pixels.len() - i,
    {
        let pixel: (u8, u8, u8) = pixels[i];
        output.push(!(pixel.0 == 0 && pixel.1 == 0 && pixel.2 == 0));
        i = i + 1;
    }
    Barrier::from_bools(output)
}

/// The width, height and row-major RGB pixels of the BMP image encoded by
/// `bytes`, or `None` where the bytes do not decode as one.
pub uninterp spec fn bmp_rgb(bytes: Seq<u8>) -> Option<(u32, u32, Seq<(u8, u8, u8)>)>;

/// Decodes `bytes` with `image::load_from_memory_with_format` as a BMP,
/// converts the image with `to_rgb8` and lists its pixels in the order of
/// `ImageBuffer::pixels` (row by row). The contract names the result
/// `bmp_rgb(bytes)`, with `None` for a decoding error, and claims that the
/// image has one pixel per cell of its `width` by `height` area, as
/// `pixels` walks exactly that many.
#[verifier::external_body]
fn decode_bmp(bytes: &[u8]) -> (r: Option<(u32, u32, Vec<(u8, u8, u8)>)>)
    ensures
        match r {
            Some((w, h, p)) => bmp_rgb(bytes@) == Some((w, h, p@)) && p@.len() == w * h,
            None => bmp_rgb(bytes@) is None,
        },
{
    match image::load_from_memory_with_format(bytes, image::ImageFormat::Bmp) {
        Ok(img) => {
            let rgb = img.to_rgb8();
            let (w, h) = rgb.dimensions();
            Some((w, h, rgb.pixels().map(|p| (p.0[0], p.0[1], p.0[2])).collect()))
        },
        Err(_) => None,
    }
}

/// Reads the barrier drawn in a BMP image: its width, its height and a mask
/// in which a cell is solid exactly when its pixel is not black; `None`
/// where the bytes are not a BMP image.
pub fn barrier_from_bmp(bytes: &[u8]) -> (r: Option<(u32, u32, Barrier)>)
    ensures
        match bmp_rgb(bytes@) {
            None => r is None,
            Some((w, h, p)) => r matches Some((rw, rh, b)) && rw == w && rh == h
                && barrier_bits(b).len() == p.len()
                && p.len() == w * h
                && (forall|i: int| 0 <= i < p.len() ==> #[trigger] barrier_bits(b)[i] == solid_colour(p[i]))
                && (forall|i: int| 0 <= i < p.len() ==> #[trigger] barrier_bits(b)[i] == (p[i].0 != 0 || p[i].1 != 0
                || p[i].2 != 0)),
        },
{
    match decode_bmp(bytes) {
        Some((w, h, pixels)) => Some((w, h, barrier_from_pixels(&pixels))),
        None => None,
    }
}

/// The largest `offset(c, from)` square over the coordinates `c < n`, with a
/// coordinate that attains it, or `None` where some offset or square leaves
/// the `i32` range.
fn largest_square(n: usize, from: usize) -> (r: Option<(usize, i64)>)
    requires
        0 < n,
    ensures
        match r {
            Some((c, sq)) => {
                &&& c < n
                &&& sq == offset(c, from) * offset(c, from)
                &&& forall|k: usize| k < n ==> {
                    let o = #[trigger] offset(k, from);
                    &&& i32::MIN <= o <= i32::MAX
                    &&& o * o <= sq
                }
                &&& 0 <= sq <= i32::MAX
            },
            None => exists|k: usize| k < n && {
                let o = #[trigger] offset(k, from);
                !(i32::MIN <= o <= i32::MAX) || o * o > i32::MAX
            },
        },
{
    let start: i64 = #[verifier::truncate] (from as i32) as i64;
    let mut best: usize = 0;
    let mut best_sq: i64 = 0;
    let mut c: usize = 0;
    while c < n
        invariant
            0 < n,
            c <= n,
            start == (from as i32) as int,
            c > 0 ==> best < c && best_sq == offset(best, from) * offset(best, from),
            best_sq <= i32::MAX,
            0 <= best_sq,
            forall|k: usize| k < c ==> {
                let o = #[trigger] offset(k, from);
                &&& i32::MIN <= o <= i32::MAX
                &&& o * o <= best_sq
            },
        decreases n - c,
    {
        let d: i64 = (#[verifier::truncate] (c as i32)) as i64 - start;
        assert(d == offset(c, from));
        if d < i32::MIN as i64 || d > i32::MAX as i64 {
            return None;
        }
        assert(0 <= d * d <= 0x4000_0000_0000_0000) by (nonlinear_arith)
            requires i32::MIN <= d <= i32::MAX;
        let sq: i64 = d * d;
        if sq > i32::MAX as i64 {
            return None;
        }
        if c == 0 || sq > best_sq {
            best = c;
            best_sq = sq;
        }
        c = c + 1;
    }
    Some((best, best_sq))
}

/// Whether `disk_fits`, computed from the largest squared offset along each
/// axis; the disk test overflows exactly when one of them, or their sum, or
/// the squared radius does.
pub fn disk_fits_check(width: usize, height: usize, center: (usize, usize), radius: u32) -> (b: bool)
    ensures
        b == disk_fits(width, height, center, radius),
{
    if width == 0 || height == 0 {
        return true;
    }
    if radius.checked_mul(radius).is_none() {
        return false;
    }
    let along_x = largest_square(width, center.0);
    let along_y = largest_square(height, center.1);
    match (along_x, along_y) {
        (Some((bx, sx)), Some((by, sy))) => {
            let fits: bool = sx + sy <= i32::MAX as i64;
            proof {
                if fits {
                    assert forall|x: usize, y: usize| x < width && y < height implies #[trigger] disk_test_fits(x, y, center) by {
                        let ox = offset(x, center.0);
                        let oy = offset(y, center.1);
                        assert(ox * ox <= sx);
                        assert(oy * oy <= sy);
                    }
                } else {
                    assert(!disk_test_fits(bx, by, center));
                }
            }
            fits
        },
        (None, _) => {
            proof {
                let k = choose|k: usize| k < width && {
                    let o = #[trigger] offset(k, center.0);
                    !(i32::MIN <= o <= i32::MAX) || o * o > i32::MAX
                };
                assert(!disk_test_fits(k, 0, center));
            }
            false
        },
        (_, None) => {
            proof {
                let k = choose|k: usize| k < height && {
                    let o = #[trigger] offset(k, center.1);
                    !(i32::MIN <= o <= i32::MAX) || o * o > i32::MAX
                };
                assert(!disk_test_fits(0, k, center));
            }
            false
        },
    }
}

/// The cylinder barrier where the disk test fits in `i32` on every cell,
/// and `None` where it would overflow.
pub fn try_cyllindircal_barrier(width: usize, height: usize, center: (usize, usize), radius: u32) -> (r: Option<Barrier>)
    ensures
        r is Some <==> disk_fits(width, height, center, radius),
        r matches Some(b) ==> {
            &&& barrier_bits(b).len() == width * height
            &&& forall|x: int, y: int|
                0 <= x < width && 0 <= y < height ==> #[trigger] barrier_bits(b)[cell(x, y, width as int)]
                    == in_disk(x as usize, y as usize, center, radius)
            &&& center.0 <= i32::MAX && center.1 <= i32::MAX && radius * radius <= i32::MAX ==> forall|x: int, y: int|
                0 <= x < width && 0 <= y < height && x <= i32::MAX && y <= i32::MAX
                    ==> #[trigger] barrier_bits(b)[cell(x, y, width as int)] == (
                    (x - center.0) * (x - center.0) + (y - center.1) * (y - center.1) <= radius * radius)
        },
{
    if disk_fits_check(width, height, center, radius) {
        Some(cyllindircal_barrier(width, height, center, radius))
    } else {
        None
    }
}

} // verus!
