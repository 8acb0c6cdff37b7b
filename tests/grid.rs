use astar::grid::{bounds, circle, dist_sq, four_directions, heuristic, open_neighbours, step_cost};
use astar::render::{carve_path, index_color, jittered_color, mirror_x, mirror_y, random_pos};
use rand::rngs::SmallRng;
use rand::SeedableRng;

#[test]
fn bounds_inside_and_outside() {
    assert_eq!(bounds(2, 3, 5, 4), Some(17));
    assert_eq!(bounds(0, 0, 5, 4), Some(0));
    assert_eq!(bounds(4, 3, 5, 4), Some(19));
    assert_eq!(bounds(5, 0, 5, 4), None);
    assert_eq!(bounds(0, 4, 5, 4), None);
    assert_eq!(bounds(-1, 0, 5, 4), None);
    assert_eq!(bounds(0, -1, 5, 4), None);
}

#[test]
fn squared_distance_and_heuristic() {
    assert_eq!(dist_sq((1, 2), (4, 6)), 25);
    assert_eq!(dist_sq((-3, 0), (0, 0)), 9);
    assert_eq!(heuristic((0, 0), (3, 4), (3, 4)), 25);
    assert_eq!(heuristic((3, 4), (0, 0), (3, 4)), -25);
}

#[test]
fn step_cost_floors_at_zero() {
    assert_eq!(step_cost((5, 0), (4, 0), (0, 0)), 0);
    assert_eq!(step_cost((0, 0), (1, 0), (0, 0)), 2);
    assert_eq!(step_cost((1, 0), (0, 0), (0, 0)), 0);
    assert_eq!(step_cost((2, 0), (2, 1), (0, 0)), 2);
}

#[test]
fn four_directions_order() {
    assert_eq!(four_directions((3, -2)), [(2, -2), (4, -2), (3, -3), (3, -1)]);
}

#[test]
fn open_neighbours_filters_edges_and_blocks() {
    let blocked = vec![false, true, false, false];
    let mut n = open_neighbours((0, 0), 2, 2, &blocked);
    n.sort();
    assert_eq!(n, vec![(0, 1)]);
    let mut m = open_neighbours((1, 1), 2, 2, &blocked);
    m.sort();
    assert_eq!(m, vec![(0, 1)]);
}

#[test]
fn circle_cells() {
    let c = circle((0, 0), 2);
    assert_eq!(c, vec![(-1, -1), (-1, 0), (-1, 1), (0, -1), (0, 0), (0, 1), (1, -1), (1, 0), (1, 1)]);
    assert_eq!(circle((5, -5), 2), vec![(4, -6), (4, -5), (4, -4), (5, -6), (5, -5), (5, -4), (6, -6), (6, -5), (6, -4)]);
    assert!(circle((0, 0), isize::MIN + 1).is_empty());
    assert_eq!(circle((10, 10), 1), vec![(10, 10)]);
    assert!(circle((0, 0), 0).is_empty());
    assert!(circle((0, 0), -3).is_empty());
    assert_eq!(circle((0, 0), 11).len(), 373);
}

#[test]
fn mirror_y_doubles_rows() {
    let img = [1u8, 2, 3, 4, 5, 6];
    assert_eq!(mirror_y(&img, 1), vec![1, 2, 3, 3, 2, 1, 4, 5, 6, 6, 5, 4]);
    let with_rest = [1u8, 2, 3, 9];
    assert_eq!(mirror_y(&with_rest, 1), vec![1, 2, 3, 3, 2, 1]);
}

#[test]
fn mirror_x_appends_rows_upside_down() {
    let img = [1u8, 2, 3, 4, 5, 6];
    assert_eq!(mirror_x(&img, 1), vec![1, 2, 3, 4, 5, 6, 4, 5, 6, 1, 2, 3]);
    assert_eq!(mirror_x(&[], 2), Vec::<u8>::new());
}

#[test]
fn jittered_colour_is_clamped() {
    assert_eq!(jittered_color(0, [0, 0, 0]), [0xFF, 0xEC, 0x04]);
    assert_eq!(jittered_color(3, [30, -30, -30]), [255, 0xEC - 30, 0]);
    assert_eq!(jittered_color(1, [1, 2, 3]), [0x39, 0xC8, 0xDE]);
    assert_eq!(jittered_color(5, [-1, 0, 1]), [0xDA, 0x38, 0x84]);
}

#[test]
fn index_colour_stays_near_base() {
    for idx in 0..30usize {
        let c = index_color(idx);
        let base: [i32; 3] = match idx % 3 {
            0 => [0xFF, 0xEC, 0x04],
            1 => [0x38, 0xC6, 0xDB],
            _ => [0xDB, 0x38, 0x83],
        };
        for k in 0..3 {
            let v = c[k] as i32;
            assert!(v >= (base[k] - 30).clamp(0, 255) && v <= (base[k] + 30).clamp(0, 255));
        }
        assert_eq!(index_color(idx), c);
    }
    assert!((0..30usize).any(|idx| index_color(idx) != jittered_color(idx, [0, 0, 0])));
}

#[test]
fn random_positions_in_grid() {
    let mut rng = SmallRng::seed_from_u64(7);
    for _ in 0..200 {
        let (x, y) = random_pos(&mut rng, 13, 5);
        assert!(x >= 0 && x < 13 && y >= 0 && y < 5);
    }
    assert_eq!(random_pos(&mut rng, 1, 1), (0, 0));
    let mut seen = std::collections::HashSet::new();
    for _ in 0..100 {
        seen.insert(random_pos(&mut rng, 100, 100));
    }
    assert!(seen.len() > 1);
    assert!(seen.iter().any(|&(x, y)| x > 0 || y > 0));
}

#[test]
fn carve_marks_path_and_disc() {
    let (w, h) = (5usize, 5usize);
    let mut blocked = vec![false; w * h];
    let mut image = vec![0u8; 3 * w * h];
    carve_path(&mut blocked, &mut image, &[(2, 2), (9, 9)], [10, 20, 30], 2, w, h);
    let marked: Vec<usize> = (0..w * h).filter(|&i| blocked[i]).collect();
    assert_eq!(marked, vec![6, 7, 8, 11, 12, 13, 16, 17, 18]);
    assert_eq!(&image[36..39], &[10, 20, 30]);
    assert_eq!(image.iter().filter(|&&b| b != 0).count(), 3);
}

#[test]
fn carve_without_radius_marks_cells_only() {
    let mut blocked = vec![false; 4];
    let mut image = vec![0u8; 12];
    carve_path(&mut blocked, &mut image, &[(0, 0), (1, 1)], [1, 2, 3], 0, 2, 2);
    assert_eq!(blocked, vec![true, false, false, true]);
    assert_eq!(image, vec![1, 2, 3, 0, 0, 0, 0, 0, 0, 1, 2, 3]);
}
