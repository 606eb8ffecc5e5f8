use quadtree_lod::debug::DebugRect;
use quadtree_lod::engine::{LodError, QuadTreeLod};
use quadtree_lod::grid::Cell;
use quadtree_lod::host::{ChunkHost, NoCallbacks};
use quadtree_lod::proximity::{VerticalBounds, ViewPosition};
use std::cell::RefCell;
use std::rc::Rc;

/// What a recording host has seen.
#[derive(Default)]
struct Record {
    made: Vec<(u32, Cell)>,
    recycled: Vec<(u32, Cell)>,
    asked: Vec<Cell>,
}

/// A host that numbers its chunks and records every call.
struct Recorder {
    record: Rc<RefCell<Record>>,
    next: u32,
    makes_chunks: bool,
    heights: fn(Cell) -> VerticalBounds,
}

fn flat(_cell: Cell) -> VerticalBounds {
    VerticalBounds::Flat
}

impl Recorder {
    fn new(record: &Rc<RefCell<Record>>) -> Self {
        Recorder { record: record.clone(), next: 1, makes_chunks: true, heights: flat }
    }
}

impl ChunkHost<u32> for Recorder {
    fn make(&mut self, cell: Cell) -> Option<u32> {
        if !self.makes_chunks {
            return None;
        }
        let chunk = self.next;
        self.next += 1;
        self.record.borrow_mut().made.push((chunk, cell));
        Some(chunk)
    }

    fn recycle(&mut self, chunk: u32, cell: Cell) {
        self.record.borrow_mut().recycled.push((chunk, cell));
    }

    fn vertical_bounds(&mut self, cell: Cell) -> VerticalBounds {
        self.record.borrow_mut().asked.push(cell);
        (self.heights)(cell)
    }
}

fn at(x: f32, y: f32, z: f32) -> ViewPosition {
    ViewPosition {
        x: (x * 1024.0).round() as i64,
        y: (y * 1024.0).round() as i64,
        z: (z * 1024.0).round() as i64,
    }
}

fn scale(value: f32) -> u32 {
    (value * 4_194_304.0).round() as u32
}

fn unscaled(parts: u32) -> f32 {
    parts as f32 / 4_194_304.0
}

fn engine_with(record: &Rc<RefCell<Record>>) -> QuadTreeLod<u32, Recorder> {
    let mut engine = QuadTreeLod::new();
    engine.set_callbacks(Recorder::new(record));
    engine
}

fn live(record: &Record) -> Vec<(u32, Cell)> {
    let mut live = record.made.clone();
    for gone in &record.recycled {
        let found = live.iter().position(|held| held == gone);
        assert!(found.is_some(), "{:?} was recycled while not live", gone);
        live.remove(found.unwrap());
    }
    live
}

fn sorted(mut chunks: Vec<(u32, Cell)>) -> Vec<(u32, Cell)> {
    chunks.sort_by_key(|(chunk, _)| *chunk);
    chunks
}

fn rect_over(rects: &[DebugRect], px: u64, py: u64) -> Vec<DebugRect> {
    rects
        .iter()
        .filter(|r| r.x <= px && px < r.x + r.size && r.y <= py && py < r.y + r.size)
        .copied()
        .collect()
}

fn settle(engine: &mut QuadTreeLod<u32, Recorder>, view: ViewPosition) {
    for _ in 0..8 {
        assert_eq!(engine.update(view), Ok(()));
    }
}

#[test]
fn a_new_engine_is_one_empty_leaf() {
    let engine: QuadTreeLod<u32, Recorder> = QuadTreeLod::new();
    assert_eq!(engine.get_lod_count(), 1);
    assert_eq!(engine.get_split_scale(), 2 << 22);
    let rects = engine.debug_draw_tree().unwrap();
    assert_eq!(
        rects,
        vec![DebugRect { x: 0, y: 0, size: 1, level: 0, chequered: false, has_chunk: false }]
    );
}

#[test]
fn lod_size_doubles_with_each_level() {
    let engine: QuadTreeLod<u32, Recorder> = QuadTreeLod::new();
    assert_eq!(engine.get_lod_size(0), 1);
    assert_eq!(engine.get_lod_size(5), 32);
    assert_eq!(engine.get_lod_size(31), 1 << 31);
}

#[test]
fn lod_count_is_one_more_than_the_depth() {
    let record = Rc::new(RefCell::new(Record::default()));
    let mut engine = engine_with(&record);
    assert_eq!(engine.create_from_sizes(16, 256), Ok(()));
    assert_eq!(engine.get_lod_count(), 5);
    assert_eq!(engine.create_from_sizes(16, 1024), Ok(()));
    assert_eq!(engine.get_lod_count(), 7);
    assert_eq!(engine.create_from_sizes(16, 8), Ok(()));
    assert_eq!(engine.get_lod_count(), 1);
    assert_eq!(engine.clear(), Ok(()));
    assert_eq!(engine.get_lod_count(), 1);
}

#[test]
fn split_scale_is_clamped() {
    let mut engine: QuadTreeLod<u32, Recorder> = QuadTreeLod::new();
    engine.set_split_scale(scale(1.0));
    assert_eq!(unscaled(engine.get_split_scale()), 2.0);
    engine.set_split_scale(scale(10.0));
    assert_eq!(unscaled(engine.get_split_scale()), 5.0);
    engine.set_split_scale(scale(3.5));
    assert_eq!(unscaled(engine.get_split_scale()), 3.5);
    engine.set_split_scale(scale(2.0));
    assert_eq!(engine.get_split_scale(), 8_388_608);
    engine.set_split_scale(scale(5.0));
    assert_eq!(engine.get_split_scale(), 20_971_520);
    engine.set_split_scale(8_388_607);
    assert_eq!(engine.get_split_scale(), 8_388_608);
    engine.set_split_scale(20_971_521);
    assert_eq!(engine.get_split_scale(), 20_971_520);
    engine.set_split_scale(0);
    assert_eq!(unscaled(engine.get_split_scale()), 2.0);
    engine.set_split_scale(u32::MAX);
    assert_eq!(unscaled(engine.get_split_scale()), 5.0);
}

#[test]
fn a_split_scale_within_the_range_comes_back_as_it_was_set() {
    let mut engine: QuadTreeLod<u32, Recorder> = QuadTreeLod::new();
    for value in [2.0004f32, 2.0000002, 3.1415927, 3.9999998, 4.0000005, 4.9999995] {
        engine.set_split_scale(scale(value));
        assert_eq!(unscaled(engine.get_split_scale()), value);
    }
}

#[test]
fn first_update_of_a_flat_tree_makes_the_root_chunk() {
    let record = Rc::new(RefCell::new(Record::default()));
    let mut engine = engine_with(&record);
    assert_eq!(engine.create_from_sizes(16, 16), Ok(()));
    assert_eq!(engine.update(at(8.0, 0.0, 8.0)), Ok(()));
    let root = Cell { level: 0, x: 0, y: 0 };
    assert_eq!(record.borrow().asked, vec![root]);
    assert_eq!(record.borrow().made, vec![(1, root)]);
    assert!(record.borrow().recycled.is_empty());
    let rects = engine.debug_draw_tree().unwrap();
    assert_eq!(
        rects,
        vec![DebugRect { x: 0, y: 0, size: 1, level: 0, chequered: false, has_chunk: true }]
    );
}

#[test]
fn a_near_leaf_splits_into_its_four_quadrants() {
    let record = Rc::new(RefCell::new(Record::default()));
    let mut engine = engine_with(&record);
    assert_eq!(engine.create_from_sizes(16, 32), Ok(()));
    // Far away first, so that the root gets a chunk of its own.
    assert_eq!(engine.update(at(1000.0, 0.0, 1000.0)), Ok(()));
    let root = Cell { level: 1, x: 0, y: 0 };
    assert_eq!(record.borrow().made, vec![(1, root)]);
    assert_eq!(engine.update(at(16.0, 0.0, 16.0)), Ok(()));
    assert_eq!(
        record.borrow().made,
        vec![
            (1, root),
            (2, Cell { level: 0, x: 0, y: 0 }),
            (3, Cell { level: 0, x: 1, y: 0 }),
            (4, Cell { level: 0, x: 0, y: 1 }),
            (5, Cell { level: 0, x: 1, y: 1 }),
        ]
    );
    assert_eq!(record.borrow().recycled, vec![(1, root)]);
    let rects = engine.debug_draw_tree().unwrap();
    assert_eq!(
        rects,
        vec![
            DebugRect { x: 0, y: 0, size: 1, level: 0, chequered: false, has_chunk: true },
            DebugRect { x: 1, y: 0, size: 1, level: 0, chequered: true, has_chunk: true },
            DebugRect { x: 0, y: 1, size: 1, level: 0, chequered: true, has_chunk: true },
            DebugRect { x: 1, y: 1, size: 1, level: 0, chequered: false, has_chunk: true },
        ]
    );
}

#[test]
fn a_far_branch_joins_into_one_leaf() {
    let record = Rc::new(RefCell::new(Record::default()));
    let mut engine = engine_with(&record);
    assert_eq!(engine.create_from_sizes(16, 32), Ok(()));
    assert_eq!(engine.update(at(16.0, 0.0, 16.0)), Ok(()));
    assert_eq!(record.borrow().made.len(), 4);
    assert_eq!(engine.update(at(1000.0, 0.0, 1000.0)), Ok(()));
    let root = Cell { level: 1, x: 0, y: 0 };
    assert_eq!(
        record.borrow().recycled,
        vec![
            (1, Cell { level: 0, x: 0, y: 0 }),
            (2, Cell { level: 0, x: 1, y: 0 }),
            (3, Cell { level: 0, x: 0, y: 1 }),
            (4, Cell { level: 0, x: 1, y: 1 }),
        ]
    );
    assert_eq!(record.borrow().made[4], (5, root));
    let rects = engine.debug_draw_tree().unwrap();
    assert_eq!(
        rects,
        vec![DebugRect { x: 0, y: 0, size: 2, level: 1, chequered: false, has_chunk: true }]
    );
}

#[test]
fn a_view_at_the_threshold_neither_splits_nor_joins() {
    let record = Rc::new(RefCell::new(Record::default()));
    let mut engine = engine_with(&record);
    assert_eq!(engine.create_from_sizes(16, 32), Ok(()));
    // Root: chunk 32 wide, centre (16, 16), split distance 64.
    let threshold = at(16.0 + 64.0, 0.0, 16.0);
    assert_eq!(engine.update(threshold), Ok(()));
    assert_eq!(engine.debug_draw_tree().unwrap().len(), 1);
    assert_eq!(engine.update(at(16.0, 0.0, 16.0)), Ok(()));
    assert_eq!(engine.debug_draw_tree().unwrap().len(), 4);
    let calls = record.borrow().made.len() + record.borrow().recycled.len();
    assert_eq!(engine.update(threshold), Ok(()));
    assert_eq!(engine.update(threshold), Ok(()));
    assert_eq!(engine.debug_draw_tree().unwrap().len(), 4);
    assert_eq!(record.borrow().made.len() + record.borrow().recycled.len(), calls);
}

#[test]
fn updates_converge_to_a_tree_that_is_finest_at_the_centre() {
    let record = Rc::new(RefCell::new(Record::default()));
    let mut engine = engine_with(&record);
    assert_eq!(engine.create_from_sizes(16, 256), Ok(()));
    assert_eq!(engine.get_lod_count(), 5);
    let centre = at(128.0, 0.0, 128.0);
    let mut leaves = Vec::new();
    for _ in 0..4 {
        assert_eq!(engine.update(centre), Ok(()));
        leaves.push(engine.debug_draw_tree().unwrap().len());
    }
    // One level more with each update: 4, then 16, then the twelve cells
    // of level 2 that are near split, then those of level 1.
    assert_eq!(leaves[0], 4);
    assert_eq!(leaves[1], 16);
    assert_eq!(leaves[2], 4 + 12 * 4);
    let settled = engine.debug_draw_tree().unwrap();
    assert_eq!(engine.update(centre), Ok(()));
    assert_eq!(engine.debug_draw_tree().unwrap(), settled);

    // The leaves tile the whole extent, 16 finest cells on each side.
    let mut covered = vec![0u32; 16 * 16];
    for rect in &settled {
        assert_eq!(rect.size, 1 << rect.level);
        assert!(rect.has_chunk);
        for py in rect.y..rect.y + rect.size {
            for px in rect.x..rect.x + rect.size {
                covered[(py * 16 + px) as usize] += 1;
            }
        }
    }
    assert!(covered.iter().all(|&times| times == 1));

    // Finest at the centre, coarser away from it.
    for (px, py) in [(7, 7), (8, 7), (7, 8), (8, 8)] {
        let over = rect_over(&settled, px, py);
        assert_eq!(over.len(), 1);
        assert_eq!(over[0].level, 0);
    }
    for (px, py) in [(0, 0), (15, 0), (0, 15), (15, 15)] {
        let over = rect_over(&settled, px, py);
        assert_eq!(over.len(), 1);
        assert_eq!(over[0].level, 2);
        assert_eq!(over[0].size, 4);
    }
    assert!(settled.iter().all(|r| r.level <= 2));

    // What is live is what the leaves hold.
    assert_eq!(live(&record.borrow()).len(), settled.len());
}

#[test]
fn a_second_update_for_the_same_view_calls_nothing() {
    let record = Rc::new(RefCell::new(Record::default()));
    let mut engine = engine_with(&record);
    assert_eq!(engine.create_from_sizes(16, 256), Ok(()));
    let view = at(40.0, 3.0, 200.0);
    settle(&mut engine, view);
    let made = record.borrow().made.len();
    let recycled = record.borrow().recycled.len();
    let tree = engine.debug_draw_tree().unwrap();
    assert_eq!(engine.update(view), Ok(()));
    assert_eq!(engine.update(view), Ok(()));
    assert_eq!(record.borrow().made.len(), made);
    assert_eq!(record.borrow().recycled.len(), recycled);
    assert_eq!(engine.debug_draw_tree().unwrap(), tree);
}

#[test]
fn a_second_update_goes_on_splitting_while_the_tree_grows() {
    let record = Rc::new(RefCell::new(Record::default()));
    let mut engine = engine_with(&record);
    assert_eq!(engine.create_from_sizes(16, 256), Ok(()));
    let centre = at(128.0, 0.0, 128.0);
    assert_eq!(engine.update(centre), Ok(()));
    assert_eq!(record.borrow().made.len(), 4);
    assert_eq!(engine.update(centre), Ok(()));
    assert_eq!(record.borrow().made.len(), 4 + 16);
    assert_eq!(record.borrow().recycled.len(), 4);
}

#[test]
fn a_far_view_collapses_the_tree_to_its_root() {
    let record = Rc::new(RefCell::new(Record::default()));
    let mut engine = engine_with(&record);
    assert_eq!(engine.create_from_sizes(16, 256), Ok(()));
    settle(&mut engine, at(128.0, 0.0, 128.0));
    let before = live(&record.borrow());
    assert!(before.len() > 16);
    assert_eq!(engine.update(at(1.0e6, 0.0, 1.0e6)), Ok(()));
    let rects = engine.debug_draw_tree().unwrap();
    assert_eq!(
        rects,
        vec![DebugRect { x: 0, y: 0, size: 16, level: 4, chequered: false, has_chunk: true }]
    );
    let record = record.borrow();
    for held in &before {
        let times = record.recycled.iter().filter(|gone| *gone == held).count();
        assert_eq!(times, 1, "{:?}", held);
    }
    let after = live(&record);
    assert_eq!(after.len(), 1);
    assert_eq!(after[0].1, Cell { level: 4, x: 0, y: 0 });
    assert_eq!(after[0], *record.made.last().unwrap());
}

#[test]
fn every_chunk_made_is_recycled_once_for_its_cell() {
    let record = Rc::new(RefCell::new(Record::default()));
    let mut engine = engine_with(&record);
    assert_eq!(engine.create_from_sizes(16, 1024), Ok(()));
    let path = [
        at(10.0, 0.0, 10.0),
        at(500.0, 20.0, 500.0),
        at(500.0, 20.0, 500.0),
        at(1000.0, 0.0, 30.0),
        at(-4000.0, 0.0, 9000.0),
        at(512.0, 0.0, 512.0),
        at(512.0, 300.0, 512.0),
        at(700.0, 0.0, 100.0),
    ];
    for view in path {
        assert_eq!(engine.update(view), Ok(()));
        assert_eq!(engine.update(view), Ok(()));
        let held = engine.debug_draw_tree().unwrap().iter().filter(|r| r.has_chunk).count();
        assert_eq!(live(&record.borrow()).len(), held);
    }
    assert!(record.borrow().made.len() > 100);
    assert_eq!(engine.clear(), Ok(()));
    let record = record.borrow();
    assert!(live(&record).is_empty());
    assert_eq!(sorted(record.recycled.clone()), sorted(record.made.clone()));
    let rects = engine.debug_draw_tree().unwrap();
    assert_eq!(
        rects,
        vec![DebugRect { x: 0, y: 0, size: 1, level: 0, chequered: false, has_chunk: false }]
    );
}

#[test]
fn clear_recycles_the_leaves_quadrant_by_quadrant() {
    let record = Rc::new(RefCell::new(Record::default()));
    let mut engine = engine_with(&record);
    assert_eq!(engine.create_from_sizes(16, 32), Ok(()));
    assert_eq!(engine.update(at(16.0, 0.0, 16.0)), Ok(()));
    assert_eq!(engine.clear(), Ok(()));
    assert_eq!(
        record.borrow().recycled,
        vec![
            (1, Cell { level: 0, x: 0, y: 0 }),
            (2, Cell { level: 0, x: 1, y: 0 }),
            (3, Cell { level: 0, x: 0, y: 1 }),
            (4, Cell { level: 0, x: 1, y: 1 }),
        ]
    );
    assert_eq!(engine.get_lod_count(), 1);
    assert_eq!(engine.clear(), Ok(()));
    assert_eq!(record.borrow().recycled.len(), 4);
}

#[test]
fn create_from_sizes_clears_what_was_there() {
    let record = Rc::new(RefCell::new(Record::default()));
    let mut engine = engine_with(&record);
    assert_eq!(engine.create_from_sizes(16, 64), Ok(()));
    settle(&mut engine, at(32.0, 0.0, 32.0));
    assert_eq!(engine.debug_draw_tree().unwrap().len(), 16);
    assert_eq!(engine.create_from_sizes(8, 64), Ok(()));
    assert!(live(&record.borrow()).is_empty());
    assert_eq!(engine.get_lod_count(), 4);
    assert_eq!(engine.debug_draw_tree().unwrap().len(), 1);
}

#[test]
fn a_host_without_chunks_is_asked_for_the_root_again() {
    let record = Rc::new(RefCell::new(Record::default()));
    let mut engine: QuadTreeLod<u32, Recorder> = QuadTreeLod::new();
    let mut host = Recorder::new(&record);
    host.makes_chunks = false;
    engine.set_callbacks(host);
    assert_eq!(engine.create_from_sizes(16, 32), Ok(()));
    let far = at(1000.0, 0.0, 1000.0);
    assert_eq!(engine.update(far), Ok(()));
    assert_eq!(engine.update(far), Ok(()));
    assert_eq!(engine.update(at(16.0, 0.0, 16.0)), Ok(()));
    let rects = engine.debug_draw_tree().unwrap();
    assert_eq!(rects.len(), 4);
    assert!(rects.iter().all(|r| !r.has_chunk));
    assert_eq!(engine.update(far), Ok(()));
    assert_eq!(engine.debug_draw_tree().unwrap().len(), 1);
    assert_eq!(engine.clear(), Ok(()));
    // An empty handle is never handed back.
    assert!(record.borrow().recycled.is_empty());
    assert!(record.borrow().made.is_empty());
}

#[test]
fn an_engine_without_callbacks_still_shapes_its_tree() {
    let mut engine: QuadTreeLod<u32, Recorder> = QuadTreeLod::new();
    assert_eq!(engine.create_from_sizes(16, 64), Ok(()));
    assert_eq!(engine.update(at(32.0, 0.0, 32.0)), Ok(()));
    assert_eq!(engine.update(at(32.0, 0.0, 32.0)), Ok(()));
    let rects = engine.debug_draw_tree().unwrap();
    assert_eq!(rects.len(), 16);
    assert!(rects.iter().all(|r| !r.has_chunk && r.level == 0));
    assert_eq!(engine.clear(), Ok(()));
}

#[test]
fn new_callbacks_take_over_the_chunks_of_the_old() {
    let first = Rc::new(RefCell::new(Record::default()));
    let second = Rc::new(RefCell::new(Record::default()));
    let mut engine = engine_with(&first);
    assert_eq!(engine.create_from_sizes(16, 32), Ok(()));
    assert_eq!(engine.update(at(16.0, 0.0, 16.0)), Ok(()));
    engine.set_callbacks(Recorder::new(&second));
    assert!(first.borrow().recycled.is_empty());
    assert_eq!(engine.debug_draw_tree().unwrap().len(), 4);
    assert_eq!(engine.clear(), Ok(()));
    assert!(first.borrow().recycled.is_empty());
    assert_eq!(second.borrow().recycled, first.borrow().made);
}

fn high_ground(_cell: Cell) -> VerticalBounds {
    VerticalBounds::Range { low: 100 * 1024, high: 300 * 1024 }
}

#[test]
fn vertical_bounds_lift_the_centre_out_of_reach() {
    let record = Rc::new(RefCell::new(Record::default()));
    let mut engine: QuadTreeLod<u32, Recorder> = QuadTreeLod::new();
    let mut host = Recorder::new(&record);
    host.heights = high_ground;
    engine.set_callbacks(host);
    assert_eq!(engine.create_from_sizes(16, 32), Ok(()));
    // Centre (16, 200, 16), split distance 64.
    assert_eq!(engine.update(at(16.0, 0.0, 16.0)), Ok(()));
    assert_eq!(engine.debug_draw_tree().unwrap().len(), 1);
    assert_eq!(engine.update(at(16.0, 136.0, 16.0)), Ok(()));
    assert_eq!(engine.debug_draw_tree().unwrap().len(), 1);
    assert_eq!(engine.update(at(16.0, 136.001, 16.0)), Ok(()));
    assert_eq!(engine.debug_draw_tree().unwrap().len(), 4);
}

fn no_heights(_cell: Cell) -> VerticalBounds {
    VerticalBounds::Invalid
}

#[test]
fn a_malformed_answer_skips_the_node() {
    let record = Rc::new(RefCell::new(Record::default()));
    let mut engine: QuadTreeLod<u32, Recorder> = QuadTreeLod::new();
    let mut host = Recorder::new(&record);
    host.heights = no_heights;
    engine.set_callbacks(host);
    assert_eq!(engine.create_from_sizes(16, 32), Ok(()));
    assert_eq!(engine.update(at(16.0, 0.0, 16.0)), Ok(()));
    // No split was decided; the single leaf still gets its chunk.
    let root = Cell { level: 1, x: 0, y: 0 };
    assert_eq!(record.borrow().asked, vec![root]);
    assert_eq!(record.borrow().made, vec![(1, root)]);
    assert_eq!(engine.debug_draw_tree().unwrap().len(), 1);
    assert_eq!(engine.update(at(16.0, 0.0, 16.0)), Ok(()));
    assert_eq!(record.borrow().made.len(), 1);
    assert_eq!(engine.debug_draw_tree().unwrap().len(), 1);
}

fn no_heights_in_one_corner(cell: Cell) -> VerticalBounds {
    if cell == (Cell { level: 1, x: 1, y: 1 }) {
        VerticalBounds::Invalid
    } else {
        VerticalBounds::Flat
    }
}

#[test]
fn a_malformed_answer_leaves_the_rest_of_the_tree_to_its_pass() {
    let record = Rc::new(RefCell::new(Record::default()));
    let mut engine: QuadTreeLod<u32, Recorder> = QuadTreeLod::new();
    let mut host = Recorder::new(&record);
    host.heights = no_heights_in_one_corner;
    engine.set_callbacks(host);
    assert_eq!(engine.create_from_sizes(16, 64), Ok(()));
    let centre = at(32.0, 0.0, 32.0);
    assert_eq!(engine.update(centre), Ok(()));
    assert_eq!(engine.update(centre), Ok(()));
    let rects = engine.debug_draw_tree().unwrap();
    // Three quadrants split to level 0, the fourth stays a leaf of level 1.
    assert_eq!(rects.len(), 3 * 4 + 1);
    assert_eq!(
        rect_over(&rects, 3, 3),
        vec![DebugRect { x: 2, y: 2, size: 2, level: 1, chequered: false, has_chunk: true }]
    );
    // The branch above it does not join while a quadrant is a branch.
    assert_eq!(engine.update(at(1.0e6, 0.0, 1.0e6)), Ok(()));
    assert_eq!(engine.debug_draw_tree().unwrap().len(), 1);
}

#[test]
fn heights_are_asked_once_for_each_node_visited() {
    let record = Rc::new(RefCell::new(Record::default()));
    let mut engine = engine_with(&record);
    assert_eq!(engine.create_from_sizes(16, 32), Ok(()));
    assert_eq!(engine.update(at(16.0, 0.0, 16.0)), Ok(()));
    assert_eq!(record.borrow().asked, vec![Cell { level: 1, x: 0, y: 0 }]);
    record.borrow_mut().asked.clear();
    assert_eq!(engine.update(at(16.0, 0.0, 16.0)), Ok(()));
    assert_eq!(
        record.borrow().asked,
        vec![
            Cell { level: 1, x: 0, y: 0 },
            Cell { level: 0, x: 0, y: 0 },
            Cell { level: 0, x: 1, y: 0 },
            Cell { level: 0, x: 0, y: 1 },
            Cell { level: 0, x: 1, y: 1 },
        ]
    );
}

#[test]
fn debug_colours_tell_level_quadrant_and_chunk() {
    let rect = DebugRect { x: 0, y: 0, size: 4, level: 2, chequered: true, has_chunk: true };
    assert_eq!(rect.color_tenths(), (6, 2, 10));
    let plain = DebugRect { x: 0, y: 0, size: 1, level: 0, chequered: false, has_chunk: false };
    assert_eq!(plain.color_tenths(), (10, 0, 0));
    let coarse = DebugRect { x: 0, y: 0, size: 64, level: 6, chequered: false, has_chunk: true };
    assert_eq!(coarse.color_tenths(), (-2, 0, 10));
}

#[test]
fn a_held_engine_refuses_every_operation_on_its_tree() {
    let record = Rc::new(RefCell::new(Record::default()));
    let mut engine = engine_with(&record);
    assert_eq!(engine.create_from_sizes(16, 64), Ok(()));
    let pass = engine.begin_pass().unwrap();
    assert_eq!(engine.update(at(0.0, 0.0, 0.0)), Err(LodError::ReentrancyViolation));
    assert_eq!(engine.clear(), Err(LodError::ReentrancyViolation));
    assert_eq!(engine.create_from_sizes(8, 8), Err(LodError::ReentrancyViolation));
    assert_eq!(engine.debug_draw_tree(), Err(LodError::ReentrancyViolation));
    assert!(matches!(engine.begin_pass(), Err(LodError::ReentrancyViolation)));
    // Nothing was changed by the refused calls.
    assert_eq!(engine.get_lod_count(), 3);
    assert!(record.borrow().made.is_empty());
    assert!(engine.end_pass(pass).is_ok());
    assert_eq!(engine.update(at(0.0, 0.0, 0.0)), Ok(()));
    assert_eq!(engine.get_lod_count(), 3);
}

#[test]
fn an_engine_that_has_its_tree_hands_a_pass_back() {
    let mut one: QuadTreeLod<u32, Recorder> = QuadTreeLod::new();
    let mut other: QuadTreeLod<u32, Recorder> = QuadTreeLod::new();
    assert_eq!(one.create_from_sizes(16, 64), Ok(()));
    let pass = one.begin_pass().unwrap();
    let back = other.end_pass(pass);
    assert!(back.is_err());
    assert_eq!(other.get_lod_count(), 1);
    assert!(one.end_pass(back.err().unwrap()).is_ok());
    assert_eq!(one.get_lod_count(), 3);
    assert_eq!(one.update(at(0.0, 0.0, 0.0)), Ok(()));
}

/// A host that calls back into the engine from `make`.
struct Reentrant {
    engine: Rc<RefCell<QuadTreeLod<u32, Reentrant>>>,
    answers: Rc<RefCell<Vec<Result<(), LodError>>>>,
    next: u32,
}

impl ChunkHost<u32> for Reentrant {
    fn make(&mut self, _cell: Cell) -> Option<u32> {
        let answer = self.engine.borrow_mut().update(at(16.0, 0.0, 16.0));
        self.answers.borrow_mut().push(answer);
        let answer = self.engine.borrow_mut().clear();
        self.answers.borrow_mut().push(answer);
        self.next += 1;
        Some(self.next)
    }

    fn recycle(&mut self, _chunk: u32, _cell: Cell) {
    }

    fn vertical_bounds(&mut self, _cell: Cell) -> VerticalBounds {
        VerticalBounds::Flat
    }
}

#[test]
fn an_update_from_inside_make_is_rejected() {
    let engine: Rc<RefCell<QuadTreeLod<u32, Reentrant>>> = Rc::new(RefCell::new(QuadTreeLod::new()));
    let answers = Rc::new(RefCell::new(Vec::new()));
    let mut host = Reentrant { engine: engine.clone(), answers: answers.clone(), next: 0 };
    assert_eq!(engine.borrow_mut().create_from_sizes(16, 32), Ok(()));

    let begun = engine.borrow_mut().begin_pass();
    let mut pass = begun.unwrap();
    pass.update(&mut host, at(16.0, 0.0, 16.0));
    let ended = engine.borrow_mut().end_pass(pass);
    assert!(ended.is_ok());

    // Four chunks were made, and each call from inside was refused.
    assert_eq!(answers.borrow().len(), 8);
    assert!(answers.borrow().iter().all(|a| *a == Err(LodError::ReentrancyViolation)));

    // The tree is a branch of four leaves, as if nothing had called in.
    let rects = engine.borrow().debug_draw_tree().unwrap();
    assert_eq!(
        rects,
        vec![
            DebugRect { x: 0, y: 0, size: 1, level: 0, chequered: false, has_chunk: true },
            DebugRect { x: 1, y: 0, size: 1, level: 0, chequered: true, has_chunk: true },
            DebugRect { x: 0, y: 1, size: 1, level: 0, chequered: true, has_chunk: true },
            DebugRect { x: 1, y: 1, size: 1, level: 0, chequered: false, has_chunk: true },
        ]
    );
    assert_eq!(engine.borrow().get_lod_count(), 2);
}

#[test]
fn a_pass_clears_its_tree_through_the_host_it_is_given() {
    let record = Rc::new(RefCell::new(Record::default()));
    let mut engine = engine_with(&record);
    assert_eq!(engine.create_from_sizes(16, 32), Ok(()));
    assert_eq!(engine.update(at(16.0, 0.0, 16.0)), Ok(()));
    let other = Rc::new(RefCell::new(Record::default()));
    let mut host = Recorder::new(&other);
    let mut pass = engine.begin_pass().unwrap();
    pass.clear(&mut host);
    assert!(engine.end_pass(pass).is_ok());
    assert_eq!(other.borrow().recycled, record.borrow().made);
    assert_eq!(engine.get_lod_count(), 1);
    assert_eq!(engine.debug_draw_tree().unwrap().len(), 1);
}

#[test]
fn a_terrain_of_chunks_of_size_zero_never_splits() {
    let record = Rc::new(RefCell::new(Record::default()));
    let mut engine = engine_with(&record);
    assert_eq!(engine.create_from_sizes(0, u32::MAX), Ok(()));
    assert_eq!(engine.get_lod_count(), 33);
    let origin = ViewPosition { x: 0, y: 0, z: 0 };
    assert_eq!(engine.update(origin), Ok(()));
    assert_eq!(engine.update(origin), Ok(()));
    let root = Cell { level: 32, x: 0, y: 0 };
    assert_eq!(record.borrow().made, vec![(1, root)]);
    let rects = engine.debug_draw_tree().unwrap();
    assert_eq!(
        rects,
        vec![DebugRect { x: 0, y: 0, size: 1 << 32, level: 32, chequered: false, has_chunk: true }]
    );
}

#[test]
fn the_deepest_tree_refines_down_to_its_last_corner() {
    let record = Rc::new(RefCell::new(Record::default()));
    let mut engine = engine_with(&record);
    assert_eq!(engine.create_from_sizes(1, u32::MAX), Ok(()));
    assert_eq!(engine.get_lod_count(), 32);
    let edge: i64 = 1 << 31;
    let corner = ViewPosition { x: edge * 1024, y: 0, z: edge * 1024 };
    for _ in 0..31 {
        assert_eq!(engine.update(corner), Ok(()));
    }
    let settled = engine.debug_draw_tree().unwrap();
    let made = record.borrow().made.len();
    assert_eq!(engine.update(corner), Ok(()));
    assert_eq!(engine.debug_draw_tree().unwrap(), settled);
    assert_eq!(record.borrow().made.len(), made);

    let last = (edge - 1) as u64;
    assert_eq!(
        rect_over(&settled, last, last),
        vec![DebugRect { x: last, y: last, size: 1, level: 0, chequered: false, has_chunk: true }]
    );
    let first = rect_over(&settled, 0, 0);
    assert_eq!(first.len(), 1);
    assert_eq!(first[0].level, 30);
    assert_eq!(first[0].size, 1 << 30);

    // The leaves still tile the grid: their areas add up to its area.
    let area: u128 = settled.iter().map(|r| (r.size as u128) * (r.size as u128)).sum();
    assert_eq!(area, 1u128 << 62);
    assert_eq!(live(&record.borrow()).len(), settled.len());

    assert_eq!(engine.clear(), Ok(()));
    assert!(live(&record.borrow()).is_empty());
}

#[test]
fn a_pass_updates_its_tree_through_the_host_it_is_given() {
    let installed = Rc::new(RefCell::new(Record::default()));
    let mut engine = engine_with(&installed);
    assert_eq!(engine.create_from_sizes(16, 32), Ok(()));
    let given = Rc::new(RefCell::new(Record::default()));
    let mut host = Recorder::new(&given);
    let mut pass = engine.begin_pass().unwrap();
    pass.update(&mut host, at(16.0, 0.0, 16.0));
    assert!(engine.end_pass(pass).is_ok());
    assert!(installed.borrow().made.is_empty());
    assert_eq!(given.borrow().made.len(), 4);
    assert_eq!(engine.debug_draw_tree().unwrap().len(), 4);
    // The engine goes on from the tree that the pass left.
    assert_eq!(engine.update(at(1000.0, 0.0, 1000.0)), Ok(()));
    assert_eq!(installed.borrow().recycled, given.borrow().made);
    assert_eq!(installed.borrow().made, vec![(1, Cell { level: 1, x: 0, y: 0 })]);
}

#[test]
fn the_absent_host_makes_nothing_and_keeps_no_heights() {
    let mut absent: NoCallbacks<u32> = NoCallbacks::new();
    let cell = Cell { level: 2, x: 1, y: 3 };
    assert_eq!(absent.make(cell), None);
    assert_eq!(absent.vertical_bounds(cell), VerticalBounds::Flat);
    absent.recycle(7, cell);
    assert_eq!(absent.make(Cell { level: 0, x: 0, y: 0 }), None);
}
