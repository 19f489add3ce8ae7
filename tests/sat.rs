use rand::rngs::StdRng;
use rand::{Rng, SeedableRng};
use wcloud::canvas::{build_table, create_mask_skip_list, find_image_bounds, rebuild_from, u8_to_u32_vec};
use wcloud::sat::{find_space_for_rect, find_space_for_rect_masked, region_is_empty, reservoir_step, to_summed_area_table, Point, Rect};

#[test]
fn simplest_sat() {
    let mut table = [1, 1, 1, 1, 1, 1, 1, 1, 1];
    to_summed_area_table(&mut table, 3, 0);

    let expected = [1, 2, 3, 2, 4, 6, 3, 6, 9];
    assert_eq!(table, expected);
}

#[test]
fn simple_sat() {
    let mut table = [1, 2, 3, 4, 5, 6, 7, 8, 9, 10, 100, 200, 300, 400, 500, 600];
    to_summed_area_table(&mut table, 4, 0);

    let expected = [
        1, 3, 6, 10, 6, 14, 24, 36, 15, 33, 143, 355, 315, 733, 1343, 2155,
    ];
    assert_eq!(table, expected);
}

#[test]
fn uneven_sat() {
    let mut table = [1, 2, 3, 4, 5, 6, 7, 8, 9, 10, 100, 200, 300, 400, 500, 600];
    to_summed_area_table(&mut table, 8, 0);

    let expected = [
        1, 3, 6, 10, 15, 21, 28, 36, 10, 22, 125, 329, 634, 1040, 1547, 2155,
    ];
    assert_eq!(table, expected);
}

#[test]
fn partial_rebuild_seeds_from_row_above() {
    // rows 0 and 1 already summed, rows 2 and 3 raw
    let mut table = [1, 2, 3, 2, 4, 6, 1, 1, 1, 1, 1, 1];
    to_summed_area_table(&mut table, 3, 2);
    assert_eq!(table, [1, 2, 3, 2, 4, 6, 3, 6, 9, 4, 8, 12]);
}

#[test]
fn start_row_past_the_end_changes_nothing() {
    let mut table = [1, 2, 3, 4];
    to_summed_area_table(&mut table, 2, 5);
    assert_eq!(table, [1, 2, 3, 4]);
}

#[test]
fn trailing_partial_row_is_left_alone() {
    let mut table = [1, 1, 1, 1, 7];
    to_summed_area_table(&mut table, 2, 0);
    assert_eq!(table, [1, 2, 2, 4, 7]);
}

fn brute_force_empty(grid: &[u8], width: usize, x: usize, y: usize, w: usize, h: usize) -> bool {
    (y..y + h).all(|yy| (x..x + w).all(|xx| grid[yy * width + xx] == 0))
}

#[test]
fn region_test_matches_brute_force_on_random_grids() {
    let mut rng = StdRng::seed_from_u64(7);
    for _ in 0..40 {
        let width = rng.gen_range(1..9usize);
        let height = rng.gen_range(1..9usize);
        let grid: Vec<u8> = (0..width * height).map(|_| if rng.gen_bool(0.2) { 1 } else { 0 }).collect();
        let table = build_table(&grid, width);
        for y in 0..=height {
            for x in 0..=width {
                for h in 0..=height - y {
                    for w in 0..=width - x {
                        assert_eq!(
                            region_is_empty(&table, width, x, y, w, h),
                            brute_force_empty(&grid, width, x, y, w, h)
                        );
                    }
                }
            }
        }
    }
}

#[test]
fn region_is_empty_uses_zero_border() {
    // grid [[0, 1], [0, 0]]
    let table = build_table(&[0, 1, 0, 0], 2);
    assert_eq!(table, vec![0, 1, 0, 1]);
    assert!(region_is_empty(&table, 2, 0, 0, 1, 2));
    assert!(!region_is_empty(&table, 2, 1, 0, 1, 1));
    assert!(region_is_empty(&table, 2, 1, 1, 1, 1));
    assert!(!region_is_empty(&table, 2, 0, 0, 2, 2));
    assert!(region_is_empty(&table, 2, 2, 2, 0, 0));
}

#[test]
fn rebuild_after_stamp_equals_full_build() {
    let width = 6;
    let mut grid = vec![0u8; width * 5];
    grid[1] = 1;
    let mut table = build_table(&grid, width);
    // stamp a word whose box starts at row 2
    for y in 2..4 {
        for x in 1..5 {
            grid[y * width + x] = 1;
        }
    }
    rebuild_from(&mut table, &grid, width, 2);
    assert_eq!(table, build_table(&grid, width));
}

#[test]
fn u8_to_u32_copies_each_byte() {
    let mut dst = [9u32; 4];
    u8_to_u32_vec(&[0, 255, 3], &mut dst);
    assert_eq!(dst, [0, 255, 3, 9]);
}

#[test]
fn find_space_on_full_canvas_is_none() {
    let table = build_table(&[1, 1, 1, 1], 2);
    let mut rng = StdRng::seed_from_u64(1);
    assert!(find_space_for_rect(&table, 2, 2, &Rect { width: 1, height: 1 }, &mut rng).is_none());
}

#[test]
fn find_space_larger_than_canvas_is_none() {
    let table = build_table(&[0, 0, 0, 0], 2);
    let mut rng = StdRng::seed_from_u64(1);
    assert!(find_space_for_rect(&table, 2, 2, &Rect { width: 3, height: 1 }, &mut rng).is_none());
}

#[test]
fn find_space_finds_the_only_hole() {
    // 3x3 grid with only the bottom-right cell free
    let grid = [1, 1, 1, 1, 1, 1, 1, 1, 0];
    let table = build_table(&grid, 3);
    for seed in 0..10 {
        let mut rng = StdRng::seed_from_u64(seed);
        let p = find_space_for_rect(&table, 3, 3, &Rect { width: 1, height: 1 }, &mut rng).unwrap();
        assert_eq!((p.x, p.y), (2, 2));
    }
}

#[test]
fn whole_canvas_rect_fits_empty_canvas() {
    let table = build_table(&[0; 12], 4);
    let mut rng = StdRng::seed_from_u64(3);
    let p = find_space_for_rect(&table, 4, 3, &Rect { width: 4, height: 3 }, &mut rng).unwrap();
    assert_eq!((p.x, p.y), (0, 0));
}

#[test]
fn slot_choice_is_uniform() {
    // 1x1 rect on an empty 3x2 canvas: six positions
    let table = build_table(&[0; 6], 3);
    let mut counts = [0u32; 6];
    let trials = 6000;
    for seed in 0..trials {
        let mut rng = StdRng::seed_from_u64(seed);
        let p = find_space_for_rect(&table, 3, 2, &Rect { width: 1, height: 1 }, &mut rng).unwrap();
        counts[(p.y * 3 + p.x) as usize] += 1;
    }
    for c in counts {
        assert!(c > 850 && c < 1150, "counts {:?}", counts);
    }
}

fn place_words(seed: u64) -> Vec<(u32, u32)> {
    let width = 20usize;
    let height = 12usize;
    let mut grid = vec![0u8; width * height];
    let mut table = build_table(&grid, width);
    let mut rng = StdRng::seed_from_u64(seed);
    let mut placed = Vec::new();
    for (w, h) in [(8u32, 4u32), (6, 3), (5, 2), (4, 2), (3, 1)] {
        let rect = Rect { width: w, height: h };
        match find_space_for_rect(&table, width as u32, height as u32, &rect, &mut rng) {
            Some(Point { x, y }) => {
                for yy in y..y + h {
                    for xx in x..x + w {
                        grid[yy as usize * width + xx as usize] = 1;
                    }
                }
                rebuild_from(&mut table, &grid, width, y as usize);
                placed.push((x, y));
            }
            None => break,
        }
    }
    placed
}

#[test]
fn same_seed_gives_same_placements() {
    let first = place_words(42);
    let second = place_words(42);
    assert!(!first.is_empty());
    assert_eq!(first, second);
}

#[test]
fn skip_list_gives_first_and_last_free_column() {
    let pixels = [255, 0, 0, 255, 255, 255, 255, 255, 0, 255, 255, 255];
    let skip = create_mask_skip_list(&pixels, 4);
    assert_eq!(skip, vec![(1, 2), (0, 4), (0, 0)]);
}

#[test]
fn masked_search_stays_in_skip_ranges() {
    // mask: only columns 2..=3 of each row are free
    let width = 6usize;
    let mask: Vec<u8> = (0..width * 4).map(|i| if (2..4).contains(&(i % width)) { 0 } else { 255 }).collect();
    let grid: Vec<u8> = mask.iter().map(|p| if *p == 0 { 0 } else { 1 }).collect();
    let table = build_table(&grid, width);
    let skip = create_mask_skip_list(&mask, width);
    for seed in 0..20 {
        let mut rng = StdRng::seed_from_u64(seed);
        let p = find_space_for_rect_masked(&table, 6, 4, &skip, &Rect { width: 2, height: 2 }, &mut rng).unwrap();
        assert_eq!(p.x, 2);
        assert!(p.y <= 2);
    }
    let mut rng = StdRng::seed_from_u64(0);
    assert!(find_space_for_rect_masked(&table, 6, 4, &skip, &Rect { width: 3, height: 1 }, &mut rng).is_none());
}

#[test]
fn image_bounds_span_every_free_pixel() {
    // free pixels at (2, 1), (1, 2) and (3, 2) of a 5x4 canvas
    let mut pixels = vec![255u8; 20];
    pixels[1 * 5 + 2] = 0;
    pixels[2 * 5 + 1] = 0;
    pixels[2 * 5 + 3] = 0;
    let r = find_image_bounds(&pixels, 5);
    assert_eq!((r.x, r.y, r.width, r.height), (1, 1, 2, 1));
}

#[test]
fn reservoir_step_replaces_on_matching_draw() {
    let held = Some(Point { x: 1, y: 1 });
    let kept = reservoir_step(held, 3, 2, 5, 6).unwrap();
    assert_eq!((kept.x, kept.y), (1, 1));
    let taken = reservoir_step(held, 3, 3, 5, 6).unwrap();
    assert_eq!((taken.x, taken.y), (5, 6));
    let first = reservoir_step(None, 0, 0, 7, 8).unwrap();
    assert_eq!((first.x, first.y), (7, 8));
}

#[test]
fn failed_search_draws_nothing() {
    let table = build_table(&[1, 1, 1, 1], 2);
    let mut used = StdRng::seed_from_u64(9);
    assert!(find_space_for_rect(&table, 2, 2, &Rect { width: 1, height: 1 }, &mut used).is_none());
    assert!(find_space_for_rect(&table, 2, 2, &Rect { width: 3, height: 3 }, &mut used).is_none());
    let mut fresh = StdRng::seed_from_u64(9);
    assert_eq!(used.gen::<u64>(), fresh.gen::<u64>());
}
