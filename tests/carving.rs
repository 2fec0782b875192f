use seam_carver::carve::{create_debug_image, CarveError, Carver, Image, DEBUG_COLOUR};
use seam_carver::energy::pixel_energy;
use seam_carver::energy_grid::EnergyGrid;
use seam_carver::grid::{Cell, Grid};
use seam_carver::pixel::{average_pixels, square_gradient};
use seam_carver::seam::{calculate_energy, calculate_path_costs, find_path, get_path_start};

const A: [u8; 4] = [0, 0, 0, 255];
const B: [u8; 4] = [100, 50, 0, 255];
const C: [u8; 4] = [200, 200, 200, 255];
const D: [u8; 4] = [10, 20, 30, 40];

fn image(width: usize, height: usize, pixels: Vec<[u8; 4]>) -> Image {
    Image { width, height, pixels }
}

fn gradient_image(width: usize, height: usize) -> Image {
    let mut pixels = vec![];
    for y in 0..height {
        for x in 0..width {
            let v = ((x * 37 + y * 91 + x * y * 13) % 256) as u8;
            pixels.push([v, 255 - v, (v / 2) ^ 0x55, 255]);
        }
    }
    image(width, height, pixels)
}

/// A grid whose energies are `energies`, its colours all alike.
fn grid_with_energies(energies: &[Vec<u32>]) -> Grid {
    let height = energies.len();
    let width = energies[0].len();
    let mut grid = Grid::from_pixels(width, height, &vec![A; width * height]);
    for y in 0..height {
        for x in 0..width {
            let mut c = grid.get(x, y);
            c.energy = energies[y][x];
            grid.set(x, y, c);
        }
    }
    grid
}

fn path_costs(grid: &Grid) -> Vec<Vec<u128>> {
    (0..grid.height())
        .map(|y| (0..grid.width()).map(|x| grid.get(x, y).path_cost).collect())
        .collect()
}

fn small_pixel_energy() -> Vec<Vec<u32>> {
    vec![vec![20808, 52020, 20808],
         vec![20808, 52225, 21220],
         vec![20809, 52024, 20809],
         vec![20808, 52225, 21220]]
}

fn medium_pixel_energy() -> Vec<Vec<u32>> {
    vec![vec![57685, 50893, 91370, 25418, 33055, 37246],
         vec![15421, 56334, 22808, 54796, 11641, 25496],
         vec![12344, 19236, 52030, 17708, 44735, 20663],
         vec![17074, 23678, 30279, 80663, 37831, 45595],
         vec![32337, 30796, 4909, 73334, 40613, 36556]]
}

#[test]
fn carver_small_path_energy_test() {
    let mut grid = grid_with_energies(&small_pixel_energy());
    calculate_path_costs(&mut grid);
    let expected: Vec<Vec<u128>> = vec![vec![20808, 52020, 20808],
                                       vec![41616, 73033, 42028],
                                       vec![62425, 93640, 62837],
                                       vec![83233, 114650, 84057]];
    assert_eq!(expected, path_costs(&grid));
}

#[test]
fn carver_small_get_path_start_test() {
    let mut grid = grid_with_energies(&small_pixel_energy());
    calculate_path_costs(&mut grid);
    assert_eq!((0, 3), get_path_start(&grid));
}

#[test]
fn carver_small_find_path_test() {
    let mut grid = grid_with_energies(&small_pixel_energy());
    calculate_path_costs(&mut grid);
    let (x, y) = get_path_start(&grid);
    assert_eq!(vec![(0, 3), (0, 2), (0, 1), (0, 0)], find_path(&grid, x, y));
}

#[test]
fn carver_medium_path_energy_test() {
    let mut grid = grid_with_energies(&medium_pixel_energy());
    calculate_path_costs(&mut grid);
    let expected: Vec<Vec<u128>> = vec![vec![57685, 50893, 91370, 25418, 33055, 37246],
                                       vec![66314, 107227, 48226, 80214, 37059, 58551],
                                       vec![78658, 67462, 100256, 54767, 81794, 57722],
                                       vec![84536, 91140, 85046, 135430, 92598, 103317],
                                       vec![116873, 115332, 89955, 158380, 133211, 129154]];
    assert_eq!(expected, path_costs(&grid));
}

#[test]
fn carver_medium_get_path_start_test() {
    let mut grid = grid_with_energies(&medium_pixel_energy());
    calculate_path_costs(&mut grid);
    assert_eq!((2, 4), get_path_start(&grid));
}

#[test]
fn carver_medium_find_path_test() {
    let mut grid = grid_with_energies(&medium_pixel_energy());
    calculate_path_costs(&mut grid);
    let (x, y) = get_path_start(&grid);
    assert_eq!(vec![(2, 4), (2, 3), (3, 2), (4, 1), (3, 0)], find_path(&grid, x, y));
}

#[test]
fn average_of_two_pixels_rounds_down() {
    assert_eq!([15, 25, 35, 255], average_pixels(&[10, 20, 30, 255], &[20, 30, 40, 255]));
    assert_eq!([0, 127, 255, 1], average_pixels(&[0, 0, 255, 2], &[1, 255, 255, 1]));
}

#[test]
fn square_gradient_sums_squared_differences() {
    assert_eq!(0, square_gradient(&B, &B));
    assert_eq!(100 * 100 + 50 * 50, square_gradient(&A, &B));
    assert_eq!(4 * 255 * 255, square_gradient(&[0, 0, 0, 0], &[255, 255, 255, 255]));
}

#[test]
fn energy_wraps_around_the_border() {
    // 3 x 3: left of column 0 is column 2, above row 0 is row 2.
    let img = image(3, 3, vec![A, B, C, D, A, B, C, D, A]);
    let grid = Grid::from_pixels(3, 3, &img.pixels);
    // (0, 0): left C, right B; up C, down D.
    assert_eq!(square_gradient(&C, &B) + square_gradient(&C, &D), pixel_energy(&grid, 0, 0));
    // (2, 2): left D, right C; up B, down C.
    assert_eq!(square_gradient(&D, &C) + square_gradient(&B, &C), pixel_energy(&grid, 2, 2));
    // centre: left D, right B, up B, down D.
    assert_eq!(2 * square_gradient(&D, &B), pixel_energy(&grid, 1, 1));
}

#[test]
fn border_cell_of_a_row_compares_its_wrapped_neighbours() {
    let img = image(3, 1, vec![[0, 0, 0, 255], [10, 0, 0, 255], [20, 0, 0, 255]]);
    let mut carver = Carver::new(&img).unwrap();
    carver.calculate_energy();
    // column 0: left is column 2, right column 1; one row, so no vertical gradient.
    assert_eq!(vec![vec![100, 400, 100]], carver.get_pixel_energy());
}

#[test]
fn path_cost_is_at_least_energy_and_row_zero_equals_it() {
    let mut grid = Grid::from_pixels(5, 4, &gradient_image(5, 4).pixels);
    calculate_energy(&mut grid);
    for y in 0..4 {
        for x in 0..5 {
            let c = grid.get(x, y);
            assert!(c.path_cost >= c.energy as u128);
            if y == 0 {
                assert_eq!(c.path_cost, c.energy as u128);
            }
        }
    }
}

#[test]
fn cheapest_seam_has_one_point_per_row_and_is_connected() {
    let mut grid = Grid::from_pixels(7, 6, &gradient_image(7, 6).pixels);
    calculate_energy(&mut grid);
    let (x, y) = get_path_start(&grid);
    let seam = find_path(&grid, x, y);
    assert_eq!(6, seam.len());
    for (i, &(px, py)) in seam.iter().enumerate() {
        assert_eq!(5 - i, py);
        assert!(px < 7);
        if i > 0 {
            let prev = seam[i - 1].0 as i64;
            assert!((px as i64 - prev).abs() <= 1);
        }
    }
}

#[test]
fn shrink_then_grow_restores_dimensions() {
    let mut carver = Carver::new(&gradient_image(8, 5)).unwrap();
    let small = carver.resize(5, 5).unwrap();
    assert_eq!((5, 5, 25), (small.width, small.height, small.pixels.len()));
    let big = carver.resize(8, 5).unwrap();
    assert_eq!((8, 5, 40), (big.width, big.height, big.pixels.len()));
}

#[test]
fn growing_gives_the_exact_width() {
    for (w, d) in [(1usize, 3usize), (2, 7), (4, 2), (6, 11)] {
        let mut carver = Carver::new(&gradient_image(w, 3)).unwrap();
        let out = carver.resize(w + d, 3).unwrap();
        assert_eq!((w + d, 3, (w + d) * 3), (out.width, out.height, out.pixels.len()));
    }
}

#[test]
fn vertical_resize_in_both_directions() {
    let mut carver = Carver::new(&gradient_image(4, 6)).unwrap();
    let out = carver.resize(4, 3).unwrap();
    assert_eq!((4, 3, 12), (out.width, out.height, out.pixels.len()));
    let out = carver.resize(2, 9).unwrap();
    assert_eq!((2, 9, 18), (out.width, out.height, out.pixels.len()));
}

#[test]
fn rotating_twice_restores_the_grid() {
    let img = gradient_image(4, 3);
    let mut grid = Grid::from_pixels(4, 3, &img.pixels);
    grid.rotate();
    assert_eq!((3, 4), (grid.width(), grid.height()));
    assert_eq!(img.pixels[2 * 4 + 1], grid.get(2, 1).pixel);
    grid.rotate();
    assert_eq!((4, 3), (grid.width(), grid.height()));
    assert_eq!(img.pixels, grid.to_pixels());
}

#[test]
fn shrinking_removes_the_cheapest_seam() {
    // Energies per row: B-C, A-C, A-B; column 2 (A against B) is cheapest.
    let img = image(3, 2, vec![A, B, C, A, B, C]);
    let mut carver = Carver::new(&img).unwrap();
    let out = carver.resize(2, 2).unwrap();
    assert_eq!(vec![A, B, A, B], out.pixels);
    assert_eq!(vec![(2, 1), (2, 0)], carver.get_removed_points());
}

#[test]
fn growing_inserts_the_average_of_neighbours() {
    let img = image(2, 1, vec![[10, 20, 30, 255], [20, 30, 40, 255]]);
    let mut carver = Carver::new(&img).unwrap();
    let out = carver.resize(3, 1).unwrap();
    assert_eq!(vec![[10, 20, 30, 255], [15, 25, 35, 255], [20, 30, 40, 255]], out.pixels);
    assert_eq!(vec![(0, 0)], carver.get_removed_points());
}

#[test]
fn vertical_shrink_reports_points_in_image_frame() {
    let img = image(1, 3, vec![A, B, C]);
    let mut carver = Carver::new(&img).unwrap();
    let out = carver.resize(1, 2).unwrap();
    // The cheapest cell is C (compared with B above and A wrapped below).
    assert_eq!(vec![A, B], out.pixels);
    assert_eq!(vec![(0, 2)], carver.get_removed_points());
}

#[test]
fn resize_to_same_size_keeps_the_image() {
    let img = gradient_image(3, 4);
    let mut carver = Carver::new(&img).unwrap();
    let out = carver.resize(3, 4).unwrap();
    assert_eq!(img.pixels, out.pixels);
    assert!(carver.get_removed_points().is_empty());
}

#[test]
fn invalid_dimensions_are_refused() {
    assert_eq!(Some(CarveError::InvalidDimensions), Carver::new(&image(0, 3, vec![])).err());
    assert_eq!(Some(CarveError::InvalidDimensions), Carver::new(&image(3, 0, vec![])).err());
    assert_eq!(Some(CarveError::InvalidDimensions), Carver::new(&image(2, 2, vec![A; 3])).err());
    let mut carver = Carver::new(&gradient_image(3, 3)).unwrap();
    assert_eq!(Some(CarveError::InvalidDimensions), carver.resize(0, 3).err());
    assert_eq!(Some(CarveError::InvalidDimensions), carver.resize(3, 0).err());
    let out = carver.resize(3, 3).unwrap();
    assert_eq!((3, 3), (out.width, out.height));
}

#[test]
fn inspection_after_a_cost_pass() {
    let img = image(3, 1, vec![A, B, C]);
    let mut carver = Carver::new(&img).unwrap();
    carver.calculate_energy();
    let e = vec![square_gradient(&C, &B), square_gradient(&A, &C), square_gradient(&B, &A)];
    assert_eq!(vec![e.clone()], carver.get_pixel_energy());
    let costs: Vec<u128> = e.iter().map(|&v| v as u128).collect();
    assert_eq!(vec![costs], carver.get_path_energy());
    assert_eq!((2, 0), carver.get_path_start());
    assert_eq!(vec![(2, 0)], carver.find_path(2, 0));
}

#[test]
fn debug_image_paints_points_inside_only() {
    let img = image(2, 2, vec![A, B, C, D]);
    let out = create_debug_image(&img, &vec![(1, 0), (5, 5), (0, 1)]);
    assert_eq!(vec![A, DEBUG_COLOUR, DEBUG_COLOUR, D], out.pixels);
}

#[test]
fn wrapped_energy_grid_and_its_rotations() {
    // 3 x 2 with wrap-around neighbours.
    let img = image(3, 2, vec![A, B, C, D, A, B]);
    let mut grid = EnergyGrid::from_image(&img);
    assert_eq!((3, 2), grid.dimensions());
    // (0, 0): left C, right B, up and down both D.
    assert_eq!(square_gradient(&C, &B), grid.get(0, 0));
    // (1, 1): left D, right B, up and down both B.
    assert_eq!(square_gradient(&D, &B), grid.get(1, 1));
    let mut max = 0;
    for y in 0..2 {
        for x in 0..3 {
            max = max.max(grid.get(x, y));
        }
    }
    assert_eq!(max, grid.darkest_value());
    let before: Vec<u32> = (0..2).flat_map(|y| (0..3).map(move |x| (x, y))).map(|(x, y)| grid.get(x, y)).collect();
    grid.rotate_clockwise();
    assert_eq!((2, 3), grid.dimensions());
    // new (j, i) = old (i, h - 1 - j)
    assert_eq!(before[1 * 3 + 0], grid.get(0, 0));
    assert_eq!(before[0 * 3 + 2], grid.get(1, 2));
    grid.rotate_counterclockwise();
    assert_eq!((3, 2), grid.dimensions());
    let after: Vec<u32> = (0..2).flat_map(|y| (0..3).map(move |x| (x, y))).map(|(x, y)| grid.get(x, y)).collect();
    assert_eq!(before, after);
}

#[test]
fn cell_from_pixel_has_no_derived_data() {
    let c = Cell::from_pixel(D);
    assert_eq!((D, 0, 0, (0, 0)), (c.pixel, c.energy, c.path_cost, c.original_position));
}

#[test]
fn growing_by_the_whole_width_inserts_right_of_every_pixel() {
    let a = [10, 20, 30, 255];
    let b = [20, 30, 40, 255];
    let mut carver = Carver::new(&image(2, 1, vec![a, b])).unwrap();
    let out = carver.resize(4, 1).unwrap();
    assert_eq!(vec![a, [15, 25, 35, 255], b, b], out.pixels);
    assert_eq!(vec![(1, 0), (0, 0)], carver.get_removed_points());
}

#[test]
fn growing_records_one_point_per_row_and_column() {
    let mut carver = Carver::new(&gradient_image(5, 3)).unwrap();
    carver.resize(7, 3).unwrap();
    let points = carver.get_removed_points();
    assert_eq!(2 * 3, points.len());
    for w in points.windows(2) {
        assert!(w[0].0 >= w[1].0);
    }
    for y in 0..3 {
        assert_eq!(2, points.iter().filter(|p| p.1 == y).count());
    }
}

#[test]
fn walk_from_a_middle_row_sums_to_its_path_cost() {
    let mut grid = grid_with_energies(&medium_pixel_energy());
    calculate_path_costs(&mut grid);
    let walk = find_path(&grid, 3, 2);
    assert_eq!(vec![(3, 2), (4, 1), (3, 0)], walk);
    let sum: u128 = walk.iter().map(|&(x, y)| grid.get(x, y).energy as u128).sum();
    assert_eq!(grid.get(3, 2).path_cost, sum);
}
