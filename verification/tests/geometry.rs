use quadtree_lod::grid::{compute_lod_count, lod_size, Cell, MAX_LEVEL};
use quadtree_lod::proximity::{
    chunk_edge, classify, Proximity, Sight, VerticalBounds, ViewPosition, MAX_SPLIT_SCALE,
    MIN_SPLIT_SCALE, SCALE_UNIT, STEP, UNIT,
};

fn sight(base_size: u32, split_scale: u32, x: i64, y: i64, z: i64) -> Sight {
    Sight { base_size, split_scale, view: ViewPosition { x, y, z } }
}

#[test]
fn lod_count_of_a_terrain_sixty_four_chunks_wide() {
    assert_eq!(compute_lod_count(16, 1024), 6);
}

#[test]
fn lod_count_is_zero_when_the_terrain_is_one_chunk() {
    assert_eq!(compute_lod_count(16, 16), 0);
}

#[test]
fn lod_count_is_zero_when_the_terrain_is_smaller_than_a_chunk() {
    assert_eq!(compute_lod_count(16, 8), 0);
}

#[test]
fn lod_count_rounds_halvings_down() {
    // 1000 -> 500 -> 250 -> 125 -> 62 -> 31 -> 15
    assert_eq!(compute_lod_count(16, 1000), 6);
    assert_eq!(compute_lod_count(16, 17), 1);
    assert_eq!(compute_lod_count(16, 33), 1);
    assert_eq!(compute_lod_count(16, 34), 2);
    assert_eq!(compute_lod_count(1, u32::MAX), 31);
}

#[test]
fn lod_count_with_base_size_zero_halves_down_to_zero() {
    assert_eq!(compute_lod_count(0, 0), 0);
    assert_eq!(compute_lod_count(0, 1), 1);
    assert_eq!(compute_lod_count(0, 1024), 11);
    assert_eq!(compute_lod_count(0, u32::MAX), MAX_LEVEL);
}

#[test]
fn lod_size_is_a_power_of_two() {
    assert_eq!(lod_size(0), 1);
    assert_eq!(lod_size(5), 32);
    assert_eq!(lod_size(31), 1 << 31);
    assert_eq!(lod_size(32), 1 << 32);
}

#[test]
fn chunk_edge_scales_the_base_size() {
    assert_eq!(chunk_edge(16, 0), 16);
    assert_eq!(chunk_edge(16, 4), 256);
    assert_eq!(chunk_edge(0, 7), 0);
    assert_eq!(chunk_edge(3, 30), 3 << 30);
}

#[test]
fn quadrants_follow_the_bits_of_their_index() {
    let parent = Cell { level: 3, x: 5, y: 9 };
    assert_eq!(parent.quadrant(0), Cell { level: 2, x: 10, y: 18 });
    assert_eq!(parent.quadrant(1), Cell { level: 2, x: 11, y: 18 });
    assert_eq!(parent.quadrant(2), Cell { level: 2, x: 10, y: 19 });
    assert_eq!(parent.quadrant(3), Cell { level: 2, x: 11, y: 19 });
}

#[test]
fn quadrants_of_the_last_cell_do_not_wrap() {
    let parent = Cell { level: 1, x: (1 << 31) - 1, y: (1 << 31) - 1 };
    assert_eq!(parent.quadrant(3), Cell { level: 0, x: u32::MAX, y: u32::MAX });
}

#[test]
fn split_scale_range_is_two_to_five() {
    assert_eq!(MIN_SPLIT_SCALE as f32 / SCALE_UNIT as f32, 2.0);
    assert_eq!(MAX_SPLIT_SCALE as f32 / SCALE_UNIT as f32, 5.0);
    assert_eq!(SCALE_UNIT, 1 << 22);
    assert_eq!(STEP * 2 * UNIT, SCALE_UNIT);
}

/// A length of whole grid units, in parts of a position.
fn units(length: i64) -> i64 {
    length * UNIT as i64
}

const TWO: u32 = MIN_SPLIT_SCALE;
const TWO_AND_A_HALF: u32 = 10_485_760;

#[test]
fn view_at_the_centre_is_near() {
    // Chunk 16 wide at the origin: centre (8, 8), split distance 32.
    let cell = Cell { level: 0, x: 0, y: 0 };
    let s = sight(16, TWO, units(8), 0, units(8));
    assert_eq!(classify(cell, &s, VerticalBounds::Flat), Proximity::Near);
}

#[test]
fn view_at_the_split_distance_is_on_the_boundary() {
    let cell = Cell { level: 0, x: 0, y: 0 };
    let s = sight(16, TWO, units(40), 0, units(8));
    assert_eq!(classify(cell, &s, VerticalBounds::Flat), Proximity::Boundary);
    let before = sight(16, TWO, units(40) - 1, 0, units(8));
    assert_eq!(classify(cell, &before, VerticalBounds::Flat), Proximity::Near);
    let behind = sight(16, TWO, units(40) + 1, 0, units(8));
    assert_eq!(classify(cell, &behind, VerticalBounds::Flat), Proximity::Far);
}

#[test]
fn one_part_of_the_scale_moves_the_boundary() {
    let cell = Cell { level: 0, x: 0, y: 0 };
    let at_two = sight(16, TWO, units(40), 0, units(8));
    assert_eq!(classify(cell, &at_two, VerticalBounds::Flat), Proximity::Boundary);
    let wider = sight(16, TWO + 1, units(40), 0, units(8));
    assert_eq!(classify(cell, &wider, VerticalBounds::Flat), Proximity::Near);
    // 16 * 2.5 = 40: the same viewer, nine units further out.
    let half = sight(16, TWO_AND_A_HALF, units(48), 0, units(8));
    assert_eq!(classify(cell, &half, VerticalBounds::Flat), Proximity::Boundary);
    let narrower = sight(16, TWO_AND_A_HALF - 1, units(48), 0, units(8));
    assert_eq!(classify(cell, &narrower, VerticalBounds::Flat), Proximity::Far);
}

#[test]
fn distance_is_taken_in_three_dimensions() {
    // 3-4-5 triangle with hypotenuse 40, the split distance at scale 2.5:
    // legs 24 and 32.
    let cell = Cell { level: 0, x: 0, y: 0 };
    let s = sight(16, TWO_AND_A_HALF, units(8 + 24), 0, units(8 - 32));
    assert_eq!(classify(cell, &s, VerticalBounds::Flat), Proximity::Boundary);
    let raised = sight(16, TWO_AND_A_HALF, units(8 + 24), 1, units(8 - 32));
    assert_eq!(classify(cell, &raised, VerticalBounds::Flat), Proximity::Far);
    let all_three = sight(16, TWO_AND_A_HALF, units(8), units(24), units(8 + 32));
    assert_eq!(classify(cell, &all_three, VerticalBounds::Flat), Proximity::Boundary);
}

#[test]
fn centre_moves_with_origin_and_level() {
    // Level 2, base 16: chunk 64 wide; origin (3, 1): centre (224, 96);
    // split distance 64 * 2.5 = 160.
    let cell = Cell { level: 2, x: 3, y: 1 };
    let s = sight(16, TWO_AND_A_HALF, units(224), 0, units(96 + 160));
    assert_eq!(classify(cell, &s, VerticalBounds::Flat), Proximity::Boundary);
    let nearer = sight(16, TWO_AND_A_HALF, units(224), 0, units(96 + 160) - 1);
    assert_eq!(classify(cell, &nearer, VerticalBounds::Flat), Proximity::Near);
    let further = sight(16, TWO_AND_A_HALF, units(224), 0, units(96 - 160) - 1);
    assert_eq!(classify(cell, &further, VerticalBounds::Flat), Proximity::Far);
}

#[test]
fn vertical_bounds_set_the_height_of_the_centre() {
    let cell = Cell { level: 0, x: 0, y: 0 };
    let bounds = VerticalBounds::Range { low: units(-10), high: units(30) };
    // Midpoint 10: a viewer 32 above it is on the boundary.
    let s = sight(16, TWO, units(8), units(42), units(8));
    assert_eq!(classify(cell, &s, bounds), Proximity::Boundary);
    assert_eq!(classify(cell, &s, VerticalBounds::Flat), Proximity::Far);
    let lower = sight(16, TWO, units(8), units(42) - 1, units(8));
    assert_eq!(classify(cell, &lower, bounds), Proximity::Near);
}

#[test]
fn odd_sum_of_bounds_keeps_its_half() {
    let cell = Cell { level: 0, x: 0, y: 0 };
    // Midpoint half a part: 32 above it lies between two whole parts.
    let bounds = VerticalBounds::Range { low: 0, high: 1 };
    let below = sight(16, TWO, units(8), units(32), units(8));
    assert_eq!(classify(cell, &below, bounds), Proximity::Near);
    let above = sight(16, TWO, units(8), units(32) + 1, units(8));
    assert_eq!(classify(cell, &above, bounds), Proximity::Far);
}

#[test]
fn extreme_positions_are_far() {
    let cell = Cell { level: 0, x: u32::MAX, y: u32::MAX };
    let s = sight(16, MAX_SPLIT_SCALE, i64::MIN, i64::MAX, i64::MIN);
    assert_eq!(classify(cell, &s, VerticalBounds::Flat), Proximity::Far);
    let bounds = VerticalBounds::Range { low: i64::MIN, high: i64::MIN };
    let t = sight(16, MAX_SPLIT_SCALE, i64::MAX, i64::MAX, i64::MAX);
    assert_eq!(classify(cell, &t, bounds), Proximity::Far);
}

#[test]
fn a_chunk_at_the_far_corner_is_measured_without_overflow() {
    // Finest chunks 2^20 wide, the last cell of the grid, the largest
    // scale: the centre lies at (2^32 - 1/2) * 2^20 on both axes.
    let cell = Cell { level: 0, x: u32::MAX, y: u32::MAX };
    let base: u32 = 1 << 20;
    let centre: i64 = ((1i64 << 33) - 1) << 29;
    let reach: i64 = 5 * (base as i64) * (UNIT as i64);
    let s = sight(base, MAX_SPLIT_SCALE, centre, 0, centre);
    assert_eq!(classify(cell, &s, VerticalBounds::Flat), Proximity::Near);
    let on = sight(base, MAX_SPLIT_SCALE, centre, 0, centre + reach);
    assert_eq!(classify(cell, &on, VerticalBounds::Flat), Proximity::Boundary);
    let out = sight(base, MAX_SPLIT_SCALE, centre - reach - 1, 0, centre);
    assert_eq!(classify(cell, &out, VerticalBounds::Flat), Proximity::Far);
    let origin = sight(base, MAX_SPLIT_SCALE, 0, 0, 0);
    assert_eq!(classify(cell, &origin, VerticalBounds::Flat), Proximity::Far);
}

#[test]
fn nothing_is_near_a_chunk_of_size_zero() {
    let cell = Cell { level: 3, x: 0, y: 0 };
    let s = sight(0, MAX_SPLIT_SCALE, 0, 0, 0);
    assert_eq!(classify(cell, &s, VerticalBounds::Flat), Proximity::Boundary);
    let off = sight(0, MAX_SPLIT_SCALE, 1, 0, 0);
    assert_eq!(classify(cell, &off, VerticalBounds::Flat), Proximity::Far);
}
