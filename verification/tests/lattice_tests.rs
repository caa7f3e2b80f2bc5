use lbm::barrier::{
    barrier_from_bmp, barrier_from_pixels, cyllindircal_barrier, disk_fits_check, try_cyllindircal_barrier, Barrier,
};
use lbm::grid::{cell_order, D2};
use lbm::lattice::{Field, Lattice, StepReport, REPORT_EVERY};

fn open_barrier(n: usize) -> Barrier {
    Barrier::from_bools(vec![false; n])
}

fn bits(b: &Barrier) -> Vec<bool> {
    (0..b.len()).map(|i| b.get(i)).collect()
}

fn numbered(n: usize, base: i32) -> Vec<i32> {
    (0..n as i32).map(|i| base + i).collect()
}

fn lattice_with_numbers(w: usize, h: usize, barrier: Barrier) -> Lattice<i32> {
    let n = w * h;
    let mut l = Lattice::new(w, h, 1, barrier, 0);
    l.set_field(Field::Unit, numbered(n, 0));
    l.set_field(Field::North, numbered(n, 100));
    l.set_field(Field::South, numbered(n, 200));
    l.set_field(Field::East, numbered(n, 300));
    l.set_field(Field::West, numbered(n, 400));
    l.set_field(Field::NorthWest, numbered(n, 500));
    l.set_field(Field::NorthEast, numbered(n, 600));
    l.set_field(Field::SouthEast, numbered(n, 700));
    l.set_field(Field::SouthWest, numbered(n, 800));
    l
}

#[test]
fn new_lattice_is_zeroed_and_sized() {
    let l: Lattice<f32> = Lattice::new(4, 3, 0.5, open_barrier(12), 0.0);
    assert_eq!(l.get_coordinates(), D2 { x: 4, y: 3 });
    assert_eq!(l.width(), 4);
    assert_eq!(l.height(), 3);
    assert_eq!(l.timestep(), 0);
    assert_eq!(l.time(), 0);
    assert_eq!(l.omega(), 0.5);
    for v in [l.field(Field::Unit), l.field(Field::North), l.field(Field::South), l.field(Field::East), l.field(Field::West), l.field(Field::NorthWest), l.field(Field::NorthEast),
        l.field(Field::SouthEast), l.field(Field::SouthWest), l.field(Field::Density), l.field(Field::VelX), l.field(Field::VelY), l.field(Field::Speed)] {
        assert_eq!(v, &vec![0.0f32; 12]);
    }
}

#[test]
fn stream_moves_each_direction_on_three_by_three() {
    let mut l = Lattice::new(3, 3, 1, open_barrier(9), 0);
    let v = numbered(9, 0);
    l.set_field(Field::Unit, v.clone());
    l.set_field(Field::North, v.clone());
    l.set_field(Field::South, v.clone());
    l.set_field(Field::East, v.clone());
    l.set_field(Field::West, v.clone());
    l.set_field(Field::NorthWest, v.clone());
    l.set_field(Field::NorthEast, v.clone());
    l.set_field(Field::SouthEast, v.clone());
    l.set_field(Field::SouthWest, v.clone());
    l.stream();
    assert_eq!(*l.field(Field::Unit), v);
    assert_eq!(*l.field(Field::North), vec![3, 4, 2, 6, 7, 8, 6, 7, 8]);
    assert_eq!(*l.field(Field::South), vec![0, 1, 2, 0, 1, 2, 3, 4, 8]);
    assert_eq!(*l.field(Field::West), vec![1, 2, 2, 4, 5, 5, 6, 7, 8]);
    assert_eq!(*l.field(Field::NorthWest), vec![4, 5, 2, 7, 8, 5, 6, 7, 8]);
    assert_eq!(*l.field(Field::SouthWest), vec![0, 1, 2, 1, 2, 5, 4, 5, 8]);
    assert_eq!(*l.field(Field::East), vec![0, 0, 1, 3, 3, 4, 6, 7, 8]);
    assert_eq!(*l.field(Field::NorthEast), vec![0, 3, 4, 3, 6, 7, 6, 7, 8]);
    assert_eq!(*l.field(Field::SouthEast), vec![0, 1, 2, 3, 0, 1, 6, 3, 4]);
}

#[test]
fn stream_on_single_row_and_single_column() {
    let mut row = Lattice::new(3, 1, 1, open_barrier(3), 0);
    row.set_field(Field::North, numbered(3, 0));
    row.set_field(Field::South, numbered(3, 0));
    row.set_field(Field::East, numbered(3, 0));
    row.set_field(Field::West, numbered(3, 0));
    row.stream();
    assert_eq!(*row.field(Field::North), vec![0, 1, 2]);
    assert_eq!(*row.field(Field::South), vec![0, 1, 2]);
    assert_eq!(*row.field(Field::East), vec![0, 1, 2]);
    assert_eq!(*row.field(Field::West), vec![0, 1, 2]);

    let mut column = Lattice::new(1, 3, 1, open_barrier(3), 0);
    column.set_field(Field::North, numbered(3, 0));
    column.set_field(Field::South, numbered(3, 0));
    column.stream();
    // Only the edge pass along the last column moves anything here.
    assert_eq!(*column.field(Field::North), vec![0, 2, 2]);
    assert_eq!(*column.field(Field::South), vec![0, 0, 2]);
}

#[test]
fn stream_keeps_a_field_at_rest() {
    let mut l: Lattice<f32> = Lattice::new(4, 5, 1.0, open_barrier(20), 0.0);
    for f in [Field::North, Field::South, Field::East, Field::West, Field::NorthWest,
        Field::NorthEast, Field::SouthEast, Field::SouthWest] {
        l.set_field(f, vec![0.25f32; 20]);
    }
    l.stream();
    for v in [l.field(Field::North), l.field(Field::South), l.field(Field::East), l.field(Field::West), l.field(Field::NorthWest), l.field(Field::NorthEast),
        l.field(Field::SouthEast), l.field(Field::SouthWest)] {
        assert_eq!(v, &vec![0.25f32; 20]);
    }
}

#[test]
fn bounce_reflects_a_single_solid_cell() {
    let mut mask = vec![false; 25];
    mask[12] = true;
    let mut l = lattice_with_numbers(5, 5, Barrier::from_bools(mask));
    l.bounce();
    assert_eq!(l.field(Field::North)[7], 212);
    assert_eq!(l.field(Field::North)[12], 0);
    assert_eq!(l.field(Field::South)[17], 112);
    assert_eq!(l.field(Field::South)[12], 0);
    assert_eq!(l.field(Field::East)[13], 412);
    assert_eq!(l.field(Field::West)[12], 0);
    assert_eq!(l.field(Field::West)[11], 312);
    assert_eq!(l.field(Field::East)[12], 0);
    assert_eq!(l.field(Field::NorthEast)[8], 812);
    assert_eq!(l.field(Field::SouthWest)[12], 0);
    assert_eq!(l.field(Field::NorthWest)[6], 712);
    assert_eq!(l.field(Field::SouthEast)[12], 0);
    assert_eq!(l.field(Field::SouthEast)[18], 512);
    assert_eq!(l.field(Field::NorthWest)[12], 0);
    assert_eq!(l.field(Field::SouthWest)[16], 612);
    assert_eq!(l.field(Field::NorthEast)[12], 0);
    assert_eq!(l.field(Field::Unit)[12], 0);
    // A cell away from the solid one keeps its populations.
    assert_eq!(l.field(Field::North)[0], 100);
    assert_eq!(l.field(Field::Unit)[7], 7);
    assert_eq!(l.field(Field::SouthWest)[24], 824);
}

#[test]
fn bounce_visits_adjacent_solid_cells_in_order() {
    let mut mask = vec![false; 36];
    mask[14] = true;
    mask[15] = true;
    let mut l = lattice_with_numbers(6, 6, Barrier::from_bools(mask));
    l.bounce();
    // The west-moving value of cell 14 goes east into cell 15, which sends it back.
    assert_eq!(l.field(Field::West)[14], 414);
    assert_eq!(l.field(Field::East)[16], 415);
    assert_eq!(l.field(Field::West)[13], 314);
    assert_eq!(l.field(Field::East)[14], 0);
    assert_eq!(l.field(Field::East)[15], 0);
    assert_eq!(l.field(Field::West)[15], 0);
    assert_eq!(l.field(Field::Unit)[14], 0);
    assert_eq!(l.field(Field::Unit)[15], 0);
}

#[test]
fn bounce_ignores_solid_cells_near_the_edge() {
    let mut mask = vec![true; 25];
    mask[12] = false;
    let mut l = lattice_with_numbers(5, 5, Barrier::from_bools(mask));
    let before = (l.field(Field::Unit).clone(), l.field(Field::North).clone(), l.field(Field::SouthEast).clone());
    l.bounce();
    assert_eq!((l.field(Field::Unit).clone(), l.field(Field::North).clone(), l.field(Field::SouthEast).clone()), before);
}

#[test]
fn bounce_on_small_lattices_changes_nothing() {
    let mut l = lattice_with_numbers(1, 2, Barrier::from_bools(vec![true, true]));
    l.bounce();
    assert_eq!(*l.field(Field::Unit), vec![0, 1]);
    let mut l = lattice_with_numbers(3, 4, Barrier::from_bools(vec![true; 12]));
    l.bounce();
    assert_eq!(*l.field(Field::North), numbered(12, 100));
}

#[test]
fn cylinder_barrier_marks_the_disk() {
    let b = cyllindircal_barrier(5, 5, (2, 2), 1);
    let mut expected = vec![false; 25];
    for i in [7, 11, 12, 13, 17] {
        expected[i] = true;
    }
    assert_eq!(bits(&b), expected);

    let b = cyllindircal_barrier(4, 3, (0, 0), 0);
    let mut expected = vec![false; 12];
    expected[0] = true;
    assert_eq!(bits(&b), expected);

    let b = cyllindircal_barrier(3, 2, (10, 10), 2);
    assert_eq!(bits(&b), vec![false; 6]);

    let b = cyllindircal_barrier(0, 7, (1, 1), 1);
    assert_eq!(b.len(), 0);
}

#[test]
fn pixel_barrier_marks_non_black_pixels() {
    let pixels = vec![(0, 0, 0), (255, 255, 255), (0, 0, 1), (0, 3, 0), (9, 0, 0), (0, 0, 0)];
    let b = barrier_from_pixels(&pixels);
    assert_eq!(bits(&b), vec![false, true, true, true, true, false]);
}

#[test]
fn speed_show_marks_solid_cells() {
    let mut l: Lattice<f32> = Lattice::new(2, 2, 1.0, Barrier::from_bools(vec![false, true, true, false]), 0.0);
    l.set_field(Field::Speed, vec![0.1, 0.2, 0.3, 0.4]);
    assert_eq!(l.speed_show(-10.0), vec![0.1, -10.0, -10.0, 0.4]);
}

#[test]
fn record_step_reports_every_five_hundredth_step() {
    let mut l: Lattice<f32> = Lattice::new(1, 1, 1.0, open_barrier(1), 0.0);
    for step in 1..REPORT_EVERY {
        assert_eq!(l.record_step(3), None, "step {}", step);
    }
    assert_eq!(l.record_step(503), Some(StepReport { elapsed_ms: 503, average_ms: 4 }));
    assert_eq!(l.timestep(), 500);
    assert_eq!(l.time(), 499 * 3 + 503);
    assert_eq!(l.record_step(1), None);
}

#[test]
fn record_step_keeps_the_low_bits_of_the_duration() {
    let mut l: Lattice<f32> = Lattice::new(1, 1, 1.0, open_barrier(1), 0.0);
    assert_eq!(l.record_step((1u128 << 32) + 5), None);
    assert_eq!(l.time(), 5);
    assert_eq!(l.timestep(), 1);
}

#[test]
fn cell_order_lists_columns_first() {
    assert_eq!(cell_order(3, 2), vec![0, 3, 1, 4, 2, 5]);
    assert_eq!(cell_order(0, 4), Vec::<usize>::new());
}

#[test]
fn bounce_without_solid_cells_changes_nothing() {
    let mut l = lattice_with_numbers(6, 7, open_barrier(42));
    l.bounce();
    assert_eq!(*l.field(Field::Unit), numbered(42, 0));
    assert_eq!(*l.field(Field::North), numbered(42, 100));
    assert_eq!(*l.field(Field::South), numbered(42, 200));
    assert_eq!(*l.field(Field::East), numbered(42, 300));
    assert_eq!(*l.field(Field::West), numbered(42, 400));
    assert_eq!(*l.field(Field::NorthWest), numbered(42, 500));
    assert_eq!(*l.field(Field::NorthEast), numbered(42, 600));
    assert_eq!(*l.field(Field::SouthEast), numbered(42, 700));
    assert_eq!(*l.field(Field::SouthWest), numbered(42, 800));
}

#[test]
fn barrier_coverage_is_checked() {
    let l: Lattice<f32> = Lattice::new(3, 2, 1.0, open_barrier(6), 0.0);
    assert!(l.barrier_covers_lattice());
    let l: Lattice<f32> = Lattice::new(3, 2, 1.0, open_barrier(5), 0.0);
    assert!(!l.barrier_covers_lattice());
}

fn bmp_bytes(width: u32, height: u32, pixels: &[[u8; 3]]) -> Vec<u8> {
    let mut img = image::RgbImage::new(width, height);
    for (i, p) in pixels.iter().enumerate() {
        img.put_pixel(i as u32 % width, i as u32 / width, image::Rgb(*p));
    }
    let mut bytes = std::io::Cursor::new(Vec::new());
    image::DynamicImage::ImageRgb8(img).write_to(&mut bytes, image::ImageFormat::Bmp).unwrap();
    bytes.into_inner()
}

#[test]
fn bmp_barrier_marks_non_black_pixels() {
    let bytes = bmp_bytes(3, 2, &[[0, 0, 0], [255, 0, 0], [0, 0, 0], [0, 0, 9], [0, 0, 0], [200, 200, 200]]);
    let (w, h, b) = barrier_from_bmp(&bytes).unwrap();
    assert_eq!((w, h), (3, 2));
    assert_eq!(bits(&b), vec![false, true, false, true, false, true]);
}

#[test]
fn bmp_barrier_refuses_other_bytes() {
    assert!(barrier_from_bmp(&[1, 2, 3, 4]).is_none());
    assert!(barrier_from_bmp(&[]).is_none());
}

#[test]
fn disk_fit_check_is_exact() {
    // The program's largest ordinary run: every offset squared stays small.
    assert!(disk_fits_check(24000, 13500, (400, 450), 100));
    // An offset of 46341 squares past i32::MAX.
    assert!(disk_fits_check(46341, 1, (0, 0), 1));
    assert!(!disk_fits_check(46342, 1, (0, 0), 1));
    // The two axes fit alone but not together.
    assert!(!disk_fits_check(40000, 40000, (0, 0), 1));
    // The squared radius overflows u32.
    assert!(!disk_fits_check(3, 3, (1, 1), 65536));
    assert!(disk_fits_check(3, 3, (1, 1), 65535));
    // With no cell there is nothing to compute.
    assert!(disk_fits_check(0, 5, (usize::MAX, 0), u32::MAX));
}

#[test]
fn checked_cylinder_barrier() {
    let b = try_cyllindircal_barrier(5, 5, (2, 2), 1).unwrap();
    assert_eq!(bits(&b), bits(&cyllindircal_barrier(5, 5, (2, 2), 1)));
    assert!(try_cyllindircal_barrier(3, 3, (1, 1), 65536).is_none());
}

#[test]
fn solid_cells_two_apart_each_reflect_fully() {
    // 7 by 5: cells (2, 2) and (4, 2) are solid, with the open cell (3, 2) between them.
    let mut mask = vec![false; 35];
    mask[16] = true;
    mask[18] = true;
    let mut l = lattice_with_numbers(7, 5, Barrier::from_bools(mask));
    l.bounce();
    for i in [16usize, 18] {
        for v in [l.field(Field::Unit), l.field(Field::North), l.field(Field::South), l.field(Field::East), l.field(Field::West), l.field(Field::NorthWest), l.field(Field::NorthEast),
            l.field(Field::SouthEast), l.field(Field::SouthWest)] {
            assert_eq!(v[i], 0);
        }
        let i32i = i as i32;
        assert_eq!(l.field(Field::North)[i - 7], 200 + i32i);
        assert_eq!(l.field(Field::South)[i + 7], 100 + i32i);
        assert_eq!(l.field(Field::East)[i + 1], 400 + i32i);
        assert_eq!(l.field(Field::West)[i - 1], 300 + i32i);
        assert_eq!(l.field(Field::NorthWest)[i - 8], 700 + i32i);
        assert_eq!(l.field(Field::NorthEast)[i - 6], 800 + i32i);
        assert_eq!(l.field(Field::SouthEast)[i + 8], 500 + i32i);
        assert_eq!(l.field(Field::SouthWest)[i + 6], 600 + i32i);
    }
}

#[test]
fn adjacent_solid_cells_are_emptied_except_where_reflected_into() {
    let mut mask = vec![false; 36];
    mask[14] = true;
    mask[15] = true;
    let mut l = lattice_with_numbers(6, 6, Barrier::from_bools(mask));
    l.bounce();
    for v in [l.field(Field::Unit), l.field(Field::South), l.field(Field::East), l.field(Field::SouthEast), l.field(Field::SouthWest), l.field(Field::North), l.field(Field::NorthWest),
        l.field(Field::NorthEast)] {
        assert_eq!(v[14], 0);
        assert_eq!(v[15], 0);
    }
    // Cell 15, right of 14, sends the west-moving value back into it.
    assert_eq!(l.field(Field::West)[14], 414);
    assert_eq!(l.field(Field::West)[15], 0);
}

#[test]
fn steps_keep_the_frame_and_count() {
    let mut l: Lattice<f32> = Lattice::new(6, 5, 0.5, open_barrier(30), 0.0);
    for k in 1..=7u32 {
        l.stream();
        l.bounce();
        l.set_field(Field::Density, vec![k as f32; 30]);
        l.speed_show(-10.0);
        l.record_step(2);
        assert_eq!(l.timestep(), k);
    }
    assert_eq!(l.get_coordinates(), D2 { x: 6, y: 5 });
    assert_eq!(l.time(), 14);
    assert_eq!(l.omega(), 0.5);
    assert_eq!(l.zero(), 0.0);
    assert_eq!(l.barrier().len(), 30);
    assert_eq!(*l.field(Field::Density), vec![7.0f32; 30]);
}
