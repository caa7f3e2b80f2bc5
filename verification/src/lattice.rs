use vstd::prelude::*;
use crate::barrier::{Barrier, barrier_bits};
use crate::bounce::{
    bounced, bounced_back, bounce_row, reflects_into_open, solid_cells_emptied, open_cells_kept, bounce_rows, barrier_covers_interior, moving, reflect, sized, solid_visited, Heading,
};
use crate::grid::cell;
use crate::grid::D2;
use crate::stream::{
    streamed, stream_north, stream_south, stream_west, stream_north_west, stream_south_west, stream_east,
    stream_north_east, stream_south_east,
};

verus! {

/// The state of a D2Q9 lattice-Boltzmann simulation on a `width` by
/// `height` grid. Each per-cell field holds one value per cell in row-major
/// order: the nine microscopic densities (the resting one in `unit`, the
/// others by the direction they move in), the macroscopic density, the two
/// velocity components and the speed. The fields are reached through the
/// methods, which keep the size, barrier and parameters of the lattice.
pub struct Lattice<T> {
    unit: Vec<T>,
    north: Vec<T>,
    south: Vec<T>,
    east: Vec<T>,
    west: Vec<T>,
    north_west: Vec<T>,
    north_east: Vec<T>,
    south_east: Vec<T>,
    south_west: Vec<T>,
    density: Vec<T>,
    velx: Vec<T>,
    vely: Vec<T>,
    /// The solid cells.
    bar: Barrier,
    speed: Vec<T>,
    dimensions: D2,
    /// The number of steps taken.
    timestep: u32,
    /// The total time the steps took, in milliseconds.
    time: u32,
    height: usize,
    width: usize,
    /// The relaxation parameter of the collision step.
    omega: T,
    /// The value that stands for an empty population.
    zero: T,
}

/// The nine microscopic density fields of a lattice, as sequences.
#[verifier::ext_equal]
pub struct Populations<T> {
    pub unit: Seq<T>,
    pub north: Seq<T>,
    pub south: Seq<T>,
    pub east: Seq<T>,
    pub west: Seq<T>,
    pub north_west: Seq<T>,
    pub north_east: Seq<T>,
    pub south_east: Seq<T>,
    pub south_west: Seq<T>,
}

/// The per-cell fields of a lattice.
#[derive(Clone, Copy, Debug, PartialEq, Eq)]
pub enum Field {
    Unit,
    North,
    South,
    East,
    West,
    NorthWest,
    NorthEast,
    SouthEast,
    SouthWest,
    Density,
    VelX,
    VelY,
    Speed,
}

/// What a lattice holds, as mathematical values.
#[verifier::ext_equal]
pub struct LatticeView<T> {
    pub populations: Populations<T>,
    pub density: Seq<T>,
    pub velx: Seq<T>,
    pub vely: Seq<T>,
    pub speed: Seq<T>,
    /// The barrier bits, one per cell for a well-formed lattice.
    pub bar: Seq<bool>,
    pub dimensions: D2,
    pub timestep: u32,
    pub time: u32,
    pub height: usize,
    pub width: usize,
    pub omega: T,
    pub zero: T,
}

impl<T> LatticeView<T> {
    /// The number of cells.
    pub open spec fn cells(self) -> int {
        self.width * self.height
    }

    /// Every per-cell field holds one value per cell, and `dimensions`
    /// records the width and height.
    pub open spec fn well_formed(self) -> bool {
        let n = self.cells();
        &&& n <= usize::MAX
        &&& sized(self.populations, n)
        &&& self.density.len() == n
        &&& self.velx.len() == n
        &&& self.vely.len() == n
        &&& self.speed.len() == n
        &&& self.dimensions == D2 { x: self.width, y: self.height }
    }

    /// The values of one per-cell field.
    pub open spec fn field(self, f: Field) -> Seq<T> {
        match f {
            Field::Unit => self.populations.unit,
            Field::North => self.populations.north,
            Field::South => self.populations.south,
            Field::East => self.populations.east,
            Field::West => self.populations.west,
            Field::NorthWest => self.populations.north_west,
            Field::NorthEast => self.populations.north_east,
            Field::SouthEast => self.populations.south_east,
            Field::SouthWest => self.populations.south_west,
            Field::Density => self.density,
            Field::VelX => self.velx,
            Field::VelY => self.vely,
            Field::Speed => self.speed,
        }
    }
}

/// `b` has the frame of `a`: the same size, barrier, relaxation parameter
/// and empty value, and well-formed if `a` is.
pub open spec fn same_frame<T>(a: LatticeView<T>, b: LatticeView<T>) -> bool {
    &&& a.well_formed() ==> b.well_formed()
    &&& b.width == a.width
    &&& b.height == a.height
    &&& b.dimensions == a.dimensions
    &&& b.bar == a.bar
    &&& b.omega == a.omega
    &&& b.zero == a.zero
}

/// `b` follows `a` by one call that changes a lattice: the frame is kept,
/// and the step count goes up by one where the call `counted` a step, and
/// otherwise neither the count nor the total time changes.
pub open spec fn kept_step<T>(a: LatticeView<T>, b: LatticeView<T>, counted: bool) -> bool {
    &&& same_frame(a, b)
    &&& b.timestep == a.timestep + if counted { 1int } else { 0int }
    &&& !counted ==> b.time == a.time
}

/// The number of `true` entries.
pub open spec fn count_true(s: Seq<bool>) -> nat
    decreases s.len(),
{
    if s.len() == 0 {
        0
    } else {
        count_true(s.drop_last()) + if s.last() { 1nat } else { 0nat }
    }
}

/// Over any run of calls that change a lattice (each call of this library
/// that takes it mutably is a `kept_step`), the last state has the frame of
/// the first, so its coordinates are still those it was built with, and its
/// step count has grown by the number of counted steps. A simulation step
/// records exactly one step, so `k` simulation steps from a new lattice
/// leave the count at `k`.
pub proof fn lemma_run_kept<T>(run: Seq<LatticeView<T>>, counted: Seq<bool>)
    requires
        run.len() == counted.len() + 1,
        forall|k: int| 0 <= k < counted.len() ==> kept_step(#[trigger] run[k], run[k + 1], counted[k]),
    ensures
        same_frame(run[0], run.last()),
        run.last().timestep == run[0].timestep + count_true(counted),
    decreases counted.len(),
{
    if counted.len() > 0 {
        let shorter = run.drop_last();
        let fewer = counted.drop_last();
        assert forall|k: int| 0 <= k < fewer.len() implies kept_step(#[trigger] shorter[k], shorter[k + 1], fewer[k]) by {
            assert(kept_step(run[k], run[k + 1], counted[k]));
        }
        lemma_run_kept(shorter, fewer);
        assert(kept_step(run[run.len() - 2], run[run.len() - 1], counted[counted.len() - 1]));
    }
}

/// A sequence of `n` copies of `value`.
pub open spec fn uniform<T>(value: T, n: nat) -> Seq<T> {
    Seq::new(n, |i: int| value)
}

/// Result of one completed simulation step, handed to whoever reports progress.
#[derive(Clone, Copy, Debug, PartialEq, Eq)]
pub struct StepReport {
    /// How long this step took, in milliseconds.
    pub elapsed_ms: u128,
    /// The mean duration of the steps so far, in milliseconds.
    pub average_ms: u32,
}

/// A step is reported every this many steps.
pub const REPORT_EVERY: u32 = 500;

/// Builds a vector of `n` copies of `value`.
pub fn filled<T: Copy>(value: T, n: usize) -> (v: Vec<T>)
    ensures
        v@ == uniform(value, n as nat),
{
    let mut v: Vec<T> = Vec::new();
    let mut i: usize = 0;
    while i < n
        invariant
            i <= n,
            v@ == uniform(value, i as nat),
        decreases n - i,
    {
        v.push(value);
        i = i + 1;
    }
    v
}

impl<T> View for Lattice<T> {
    type V = LatticeView<T>;

    open spec fn view(&self) -> LatticeView<T> {
        self.as_view()
    }
}

impl<T> Lattice<T> {
    /// What the lattice holds.
    pub closed spec fn as_view(&self) -> LatticeView<T> {
        LatticeView {
            populations: self.pops(),
            density: self.density@,
            velx: self.velx@,
            vely: self.vely@,
            speed: self.speed@,
            bar: barrier_bits(self.bar),
            dimensions: self.dimensions,
            timestep: self.timestep,
            time: self.time,
            height: self.height,
            width: self.width,
            omega: self.omega,
            zero: self.zero,
        }
    }

    spec fn pops(&self) -> Populations<T> {
        Populations {
            unit: self.unit@,
            north: self.north@,
            south: self.south@,
            east: self.east@,
            west: self.west@,
            north_west: self.north_west@,
            north_east: self.north_east@,
            south_east: self.south_east@,
            south_west: self.south_west@,
        }
    }

    /// Every per-cell field holds one value per cell, and `dimensions`
    /// records the width and height.
    pub open spec fn wf(&self) -> bool {
        self@.well_formed()
    }
}

impl<T: Copy> Lattice<T> {
    /// A lattice of `width` by `height` cells whose per-cell fields all hold
    /// `zero`, with the given relaxation parameter and barrier, and no step
    /// taken yet.
    pub fn new(width: usize, height: usize, omega: T, barriers: Barrier, zero: T) -> (l: Lattice<T>)
        requires
            width * height <= usize::MAX,
        ensures
            l.wf(),
            l@.width == width,
            l@.height == height,
            l@.omega == omega,
            l@.zero == zero,
            l@.bar == barrier_bits(barriers),
            l@.timestep == 0,
            l@.time == 0,
            forall|f: Field| #[trigger] l@.field(f) == uniform(zero, l@.cells() as nat),
    {
        let length: usize = width * height;
        let l = Lattice {
            unit: filled(zero, length),
            north: filled(zero, length),
            south: filled(zero, length),
            east: filled(zero, length),
            west: filled(zero, length),
            north_west: filled(zero, length),
            north_east: filled(zero, length),
            south_east: filled(zero, length),
            south_west: filled(zero, length),
            density: filled(zero, length),
            velx: filled(zero, length),
            vely: filled(zero, length),
            bar: barriers,
            speed: filled(zero, length),
            dimensions: D2 { x: width, y: height },
            timestep: 0,
            time: 0,
            width,
            height,
            omega,
            zero,
        };
        assert forall|f: Field| #[trigger] l@.field(f) == uniform(zero, l@.cells() as nat) by {
            match f {
                Field::Unit => {},
                Field::North => {},
                Field::South => {},
                Field::East => {},
                Field::West => {},
                Field::NorthWest => {},
                Field::NorthEast => {},
                Field::SouthEast => {},
                Field::SouthWest => {},
                Field::Density => {},
                Field::VelX => {},
                Field::VelY => {},
                Field::Speed => {},
            }
        }
        l
    }

    /// The width and height of the lattice.
    pub fn get_coordinates(&self) -> (d: D2)
        ensures
            d == self@.dimensions,
    {
        self.dimensions
    }

    /// The number of columns.
    pub fn width(&self) -> (w: usize)
        ensures
            w == self@.width,
    {
        self.width
    }

    /// The number of rows.
    pub fn height(&self) -> (h: usize)
        ensures
            h == self@.height,
    {
        self.height
    }

    /// The relaxation parameter.
    pub fn omega(&self) -> (o: T)
        ensures
            o == self@.omega,
    {
        self.omega
    }

    /// The value that stands for an empty population.
    pub fn zero(&self) -> (z: T)
        ensures
            z == self@.zero,
    {
        self.zero
    }

    /// The number of steps recorded.
    pub fn timestep(&self) -> (n: u32)
        ensures
            n == self@.timestep,
    {
        self.timestep
    }

    /// The total duration of the recorded steps, in milliseconds.
    pub fn time(&self) -> (t: u32)
        ensures
            t == self@.time,
    {
        self.time
    }

    /// The barrier.
    pub fn barrier(&self) -> (b: &Barrier)
        ensures
            barrier_bits(*b) == self@.bar,
    {
        &self.bar
    }

    /// The values of one per-cell field.
    pub fn field(&self, f: Field) -> (v: &Vec<T>)
        ensures
            v@ == self@.field(f),
    {
        match f {
            Field::Unit => &self.unit,
            Field::North => &self.north,
            Field::South => &self.south,
            Field::East => &self.east,
            Field::West => &self.west,
            Field::NorthWest => &self.north_west,
            Field::NorthEast => &self.north_east,
            Field::SouthEast => &self.south_east,
            Field::SouthWest => &self.south_west,
            Field::Density => &self.density,
            Field::VelX => &self.velx,
            Field::VelY => &self.vely,
            Field::Speed => &self.speed,
        }
    }

    /// Replaces one per-cell field by `values`, one per cell; the other
    /// fields, the frame and the step count stay.
    pub fn set_field(&mut self, f: Field, values: Vec<T>)
        requires
            old(self).wf(),
            values.len() == old(self)@.cells(),
        ensures
            kept_step(old(self)@, final(self)@, false),
            forall|g: Field| #[trigger] final(self)@.field(g) == if g == f { values@ } else { old(self)@.field(g) },
    {
        match f {
            Field::Unit => { self.unit = values; },
            Field::North => { self.north = values; },
            Field::South => { self.south = values; },
            Field::East => { self.east = values; },
            Field::West => { self.west = values; },
            Field::NorthWest => { self.north_west = values; },
            Field::NorthEast => { self.north_east = values; },
            Field::SouthEast => { self.south_east = values; },
            Field::SouthWest => { self.south_west = values; },
            Field::Density => { self.density = values; },
            Field::VelX => { self.velx = values; },
            Field::VelY => { self.vely = values; },
            Field::Speed => { self.speed = values; },
        }
    }

    /// Whether the barrier has a bit for every cell of the lattice, as the
    /// steps that read it need.
    pub fn barrier_covers_lattice(&self) -> (b: bool)
        requires
            self.wf(),
        ensures
            b == (self@.bar.len() >= self@.cells()),
    {
        self.bar.len() >= self.width * self.height
    }

    /// The speed field as it is shown: the speed of each cell, or `blocked`
    /// where the cell is solid.
    pub fn speed_show(&self, blocked: T) -> (frame: Vec<T>)
        requires
            self@.bar.len() >= self@.speed.len(),
        ensures
            frame@.len() == self@.speed.len(),
            forall|i: int| 0 <= i < frame@.len() ==> #[trigger] frame@[i] == if self@.bar[i] {
                blocked
            } else {
                self@.speed[i]
            },
    {
        let mut frame: Vec<T> = Vec::new();
        let mut index: usize = 0;
        while index < self.speed.len()
            invariant
                index <= self.speed.len(),
                barrier_bits(self.bar).len() >= self.speed.len(),
                frame.len() == index,
                forall|i: int| 0 <= i < index ==> #[trigger] frame@[i] == if barrier_bits(self.bar)[i] {
                    blocked
                } else {
                    self.speed@[i]
                },
            decreases self.speed.len() - index,
        {
            let speed = self.speed[index];
            if !self.bar.get(index) {
                frame.push(speed);
            } else {
                frame.push(blocked);
            }
            index = index + 1;
        }
        frame
    }

    /// Streams every moving population one cell along its direction (see
    /// `streamed`); the resting populations and all other fields are left
    /// as they are.
    pub fn stream(&mut self)
        requires
            old(self).wf(),
            1 <= old(self)@.width,
            1 <= old(self)@.height,
        ensures
            kept_step(old(self)@, final(self)@, false),
            streamed(
                final(self)@.populations,
                old(self)@.populations,
                old(self)@.width as int,
                old(self)@.height as int,
            ),
            forall|x: int, y: int| 1 <= x < old(self)@.width - 1 && 1 <= y < old(self)@.height - 1 ==> {
                &&& #[trigger] final(self)@.populations.north[cell(x, y, old(self)@.width as int)]
                    == old(self)@.populations.north[cell(x, y + 1, old(self)@.width as int)]
                &&& final(self)@.populations.south[cell(x, y, old(self)@.width as int)]
                    == old(self)@.populations.south[cell(x, y - 1, old(self)@.width as int)]
                &&& final(self)@.populations.east[cell(x, y, old(self)@.width as int)]
                    == old(self)@.populations.east[cell(x - 1, y, old(self)@.width as int)]
                &&& final(self)@.populations.west[cell(x, y, old(self)@.width as int)]
                    == old(self)@.populations.west[cell(x + 1, y, old(self)@.width as int)]
                &&& final(self)@.populations.north_west[cell(x, y, old(self)@.width as int)]
                    == old(self)@.populations.north_west[cell(x + 1, y + 1, old(self)@.width as int)]
                &&& final(self)@.populations.north_east[cell(x, y, old(self)@.width as int)]
                    == old(self)@.populations.north_east[cell(x - 1, y + 1, old(self)@.width as int)]
                &&& final(self)@.populations.south_east[cell(x, y, old(self)@.width as int)]
                    == old(self)@.populations.south_east[cell(x - 1, y - 1, old(self)@.width as int)]
                &&& final(self)@.populations.south_west[cell(x, y, old(self)@.width as int)]
                    == old(self)@.populations.south_west[cell(x + 1, y - 1, old(self)@.width as int)]
                &&& final(self)@.populations.unit[cell(x, y, old(self)@.width as int)]
                    == old(self)@.populations.unit[cell(x, y, old(self)@.width as int)]
            },
            forall|y: int| 1 <= y < old(self)@.height - 1 ==> {
                &&& #[trigger] final(self)@.populations.north[cell(old(self)@.width - 1, y, old(self)@.width as int)]
                    == old(self)@.populations.north[cell(old(self)@.width - 1, y + 1, old(self)@.width as int)]
                &&& final(self)@.populations.south[cell(old(self)@.width - 1, y, old(self)@.width as int)]
                    == old(self)@.populations.south[cell(old(self)@.width - 1, y - 1, old(self)@.width as int)]
            },
            final(self)@.density == old(self)@.density,
            final(self)@.velx == old(self)@.velx,
            final(self)@.vely == old(self)@.vely,
            final(self)@.speed == old(self)@.speed,
    {
        let height: usize = self.height;
        let width: usize = self.width;
        stream_north(&mut self.north, width, height);
        stream_north_west(&mut self.north_west, width, height);
        stream_west(&mut self.west, width, height);
        stream_south(&mut self.south, width, height);
        stream_south_west(&mut self.south_west, width, height);
        stream_east(&mut self.east, width, height);
        stream_north_east(&mut self.north_east, width, height);
        stream_south_east(&mut self.south_east, width, height);
    }

    /// Accounts for one simulation step that took `elapsed_ms` milliseconds:
    /// counts the step and adds its duration (cut to 32 bits) to the total.
    /// Every `REPORT_EVERY`-th step yields a report with the step's duration
    /// and the mean duration so far.
    pub fn record_step(&mut self, elapsed_ms: u128) -> (report: Option<StepReport>)
        requires
            old(self)@.timestep < u32::MAX,
            old(self)@.time + (elapsed_ms as u32) <= u32::MAX,
        ensures
            kept_step(old(self)@, final(self)@, true),
            final(self)@.time == old(self)@.time + (elapsed_ms as u32),
            report == if final(self)@.timestep % REPORT_EVERY == 0 {
                Some(StepReport { elapsed_ms, average_ms: (final(self)@.time / final(self)@.timestep) as u32 })
            } else {
                None
            },
            final(self)@.populations == old(self)@.populations,
            final(self)@.density == old(self)@.density,
            final(self)@.velx == old(self)@.velx,
            final(self)@.vely == old(self)@.vely,
            final(self)@.speed == old(self)@.speed,
    {
        self.timestep = self.timestep + 1;
        self.time = self.time + #[verifier::truncate] (elapsed_ms as u32);
        if self.timestep % REPORT_EVERY == 0 {
            Some(StepReport { elapsed_ms, average_ms: self.time / self.timestep })
        } else {
            None
        }
    }

    /// Bounce-back from the solid cells: see `bounced`.
    pub fn bounce(&mut self)
        requires
            old(self).wf(),
            2 <= old(self)@.height,
            5 <= old(self)@.height ==> 2 <= old(self)@.width,
            barrier_covers_interior(old(self)@.bar, old(self)@.width as int, old(self)@.height as int),
        ensures
            kept_step(old(self)@, final(self)@, false),
            final(self)@.populations == bounced(
                old(self)@.populations,
                old(self)@.bar,
                old(self)@.width as int,
                old(self)@.height as int,
                old(self)@.zero,
            ),
            reflects_into_open(
                final(self)@.populations,
                old(self)@.populations,
                old(self)@.bar,
                old(self)@.width as int,
                old(self)@.height as int,
            ),
            solid_cells_emptied(
                final(self)@.populations,
                old(self)@.populations,
                old(self)@.bar,
                old(self)@.width as int,
                old(self)@.height as int,
                old(self)@.zero,
            ),
            open_cells_kept(
                final(self)@.populations,
                old(self)@.populations,
                old(self)@.bar,
                old(self)@.width as int,
                old(self)@.height as int,
            ),
            forall|d: Heading, x: int, y: int| 0 <= x < old(self)@.width && 0 <= y < old(self)@.height ==>
                #[trigger] moving(final(self)@.populations, d)[cell(x, y, old(self)@.width as int)] == bounced_back(
                    old(self)@.populations,
                    old(self)@.bar,
                    old(self)@.width as int,
                    old(self)@.height as int,
                    old(self)@.zero,
                    d,
                    x,
                    y,
                ),
            forall|x: int, y: int| 0 <= x < old(self)@.width && 0 <= y < old(self)@.height ==>
                #[trigger] final(self)@.populations.unit[cell(x, y, old(self)@.width as int)] == if solid_visited(
                    old(self)@.bar,
                    old(self)@.width as int,
                    old(self)@.height as int,
                    x,
                    y,
                ) {
                    old(self)@.zero
                } else {
                    old(self)@.populations.unit[cell(x, y, old(self)@.width as int)]
                },
            final(self)@.density == old(self)@.density,
            final(self)@.velx == old(self)@.velx,
            final(self)@.vely == old(self)@.vely,
            final(self)@.speed == old(self)@.speed,
    {
        let ghost s0 = *self;
        let ghost p0 = self.pops();
        let ghost bar = barrier_bits(self.bar);
        let ghost wi = self.width as int;
        let ghost hi = self.height as int;
        let y_end: usize = self.height - 2;
        let mut y: usize = 2;
        while y < y_end
            invariant
                self.wf(),
                s0.wf(),
                wi == self.width,
                hi == self.height,
                y_end == self.height - 2,
                2 <= y,
                y <= y_end || y_end < 2,
                y_end < 2 ==> y == 2,
                5 <= hi ==> 2 <= wi,
                bar == barrier_bits(self.bar),
                barrier_covers_interior(bar, wi, hi),
                self.pops() == bounce_rows(p0, bar, wi, y as int, s0.zero),
                self.density == s0.density,
                self.velx == s0.velx,
                self.vely == s0.vely,
                self.speed == s0.speed,
                self.bar == s0.bar,
                self.dimensions == s0.dimensions,
                self.timestep == s0.timestep,
                self.time == s0.time,
                self.width == s0.width,
                self.height == s0.height,
                self.omega == s0.omega,
                self.zero == s0.zero,
            decreases y_end - y,
        {
            let x_end: usize = self.width - 2;
            let ghost row_start = self.pops();
            let mut x: usize = 2;
            while x < x_end
                invariant
                    self.wf(),
                    wi == self.width,
                    hi == self.height,
                    y_end == self.height - 2,
                    x_end == self.width - 2,
                    2 <= y < y_end,
                    2 <= x,
                    x <= x_end || x_end < 2,
                    x_end < 2 ==> x == 2,
                    bar == barrier_bits(self.bar),
                    barrier_covers_interior(bar, wi, hi),
                    row_start == bounce_rows(p0, bar, wi, y as int, s0.zero),
                    self.pops() == bounce_row(row_start, bar, wi, y as int, x as int, s0.zero),
                    self.density == s0.density,
                    self.velx == s0.velx,
                    self.vely == s0.vely,
                    self.speed == s0.speed,
                    self.bar == s0.bar,
                    self.dimensions == s0.dimensions,
                    self.timestep == s0.timestep,
                    self.time == s0.time,
                    self.width == s0.width,
                    self.height == s0.height,
                    self.omega == s0.omega,
                    self.zero == s0.zero,
                decreases x_end - x,
            {
                let w: usize = self.width;
                proof {
                    crate::grid::lemma_cell_in_bounds(x as int, y as int, wi, hi);
                    crate::grid::lemma_neighbours(x as int, y as int, wi, hi);
                    assert(y as int * wi <= (hi - 3) * wi) by (nonlinear_arith)
                        requires y <= hi - 3, 0 <= wi;
                }
                let idx: usize = y * w + x;
                let ghost before = self.pops();
                if self.bar.get(idx) {
                    self.north.set(idx - w, self.south[idx]);
                    self.south.set(idx, self.zero);
                    self.south.set(idx + w, self.north[idx]);
                    self.north.set(idx, self.zero);
                    self.east.set(idx + 1, self.west[idx]);
                    self.west.set(idx, self.zero);
                    self.west.set(idx - 1, self.east[idx]);
                    self.east.set(idx, self.zero);
                    self.north_east.set(idx - w + 1, self.south_west[idx]);
                    self.south_west.set(idx, self.zero);
                    self.north_west.set(idx - w - 1, self.south_east[idx]);
                    self.south_east.set(idx, self.zero);
                    self.south_east.set(idx + w + 1, self.north_west[idx]);
                    self.north_west.set(idx, self.zero);
                    self.south_west.set(idx + w - 1, self.north_east[idx]);
                    self.north_east.set(idx, self.zero);
                    self.unit.set(idx, self.zero);
                    proof {
                        assert(self.pops() =~= reflect(before, idx as int, wi, s0.zero));
                    }
                }
                x = x + 1;
            }
            proof {
                if x_end < 2 {
                    // Too narrow a lattice: neither the loop nor the row visits a cell.
                    assert(bounce_row(row_start, bar, wi, y as int, x as int, s0.zero) == row_start);
                    assert(bounce_row(row_start, bar, wi, y as int, wi - 2, s0.zero) == row_start);
                }
            }
            y = y + 1;
        }
        proof {
            if y_end < 2 {
                // Too short a lattice: no row is visited.
                assert(bounce_rows(p0, bar, wi, y as int, s0.zero) == p0);
                assert(bounce_rows(p0, bar, wi, hi - 2, s0.zero) == p0);
            }
        }
        proof {
            crate::bounce::lemma_bounce_values(p0, bar, wi, hi, s0.zero);
            crate::bounce::lemma_bounce_laws(p0, bar, wi, hi, s0.zero);
        }
    }
}

} // verus!
