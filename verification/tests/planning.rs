use rs3_pathfinding::builder::{build_bd_array, build_se_array, build_walk_array};
use rs3_pathfinding::grid::{ByteGrid, ByteGrid3, WordGrid3};
use rs3_pathfinding::heuristic::{Heuristic, HeuristicTable, Memo};
use rs3_pathfinding::map_section::{ChunkStore, MapSection, SectionChunk};
use rs3_pathfinding::movemap::MoveMap;
use rs3_pathfinding::search::{a_star_end_buffer, MoveKind};
use rs3_pathfinding::state::State;

fn open_grid(width: usize, height: usize) -> ByteGrid {
    let mut g = ByteGrid::new(width, height);
    for x in 0..width {
        for y in 0..height {
            g.set(x, y, 0xff);
        }
    }
    g
}

fn open_move_map(width: usize, height: usize) -> MoveMap {
    MoveMap::new(0, 0, open_grid(width, height)).unwrap()
}

fn start_state(x: u16, y: u16, cds: u8) -> State {
    State {
        pos_x: x,
        pos_y: y,
        direction: 4,
        secd: cds,
        scd: cds,
        ecd: cds,
        bdcd: cds,
    }
}

/// A store holding one chunk at (0, 0) of floor 0 with the given datasets.
fn one_chunk_store(
    size: usize,
    bd: WordGrid3,
    walk: WordGrid3,
    se: ByteGrid3,
) -> ChunkStore {
    ChunkStore {
        chunk_size: size,
        chunks: vec![SectionChunk { cx: 0, cy: 0, floor: 0, bd, walk, se }],
    }
}

/// Empty 5x5 open grid, no ability data, all cooldowns ready: the plan walks
/// to the goal tolerance box and every compressed instruction is one walk.
#[test]
fn walk_only_scenario() {
    let size = 8;
    let m = open_move_map(size, size);
    let walk = build_walk_array(&m, 0, 0, size);
    let bd = WordGrid3::new(size, size, 7);
    let se = ByteGrid3::new(size, size, 8);
    let store = one_chunk_store(size, bd, walk, se);
    let section = MapSection::create_map_section(0, size - 1, 0, size - 1, 0, &store).unwrap();
    let heuristic = Heuristic::new(HeuristicTable::build(20));
    let start = start_state(0, 0, 0);
    let (path, moves) = a_star_end_buffer(start, (3, 3), &section, heuristic).unwrap();
    assert_eq!(path[0], start);
    let last = path.last().unwrap();
    assert!((last.pos_x as i32 - 3).abs() <= 1 && (last.pos_y as i32 - 3).abs() <= 1);
    assert!(!moves.is_empty());
    for instr in &moves {
        assert_eq!(instr.as_slice(), &[MoveKind::Walk]);
    }
    // one two-tile diagonal step reaches (2, 2), inside the tolerance box
    assert_eq!(path.len(), 2);
    assert_eq!((last.pos_x, last.pos_y), (2, 2));
}

/// Same grid with dash data built from the movement bitmasks: the dash
/// reaches the goal box at zero cost and the plan is one compressed dash.
#[test]
fn dash_scenario() {
    let size = 8;
    let m = open_move_map(size, size);
    let walk = build_walk_array(&m, 0, 0, size);
    let bd = build_bd_array(&m, 0, 0, size);
    let se = build_se_array(&bd);
    let store = one_chunk_store(size, bd, walk, se);
    let section = MapSection::create_map_section(0, size - 1, 0, size - 1, 0, &store).unwrap();
    let heuristic = Heuristic::new(HeuristicTable::build(20));
    let start = start_state(0, 0, 0);
    let (path, moves) = a_star_end_buffer(start, (3, 3), &section, heuristic).unwrap();
    let last = path.last().unwrap();
    assert!((last.pos_x as i32 - 3).abs() <= 1 && (last.pos_y as i32 - 3).abs() <= 1);
    assert_eq!(moves.len(), 1);
    assert_eq!(moves[0].as_slice(), &[MoveKind::Bd]);
}

/// A goal the section cannot reach is reported as no path, not a panic.
#[test]
fn unreachable_goal() {
    let size = 8;
    // fully blocked map: no edges anywhere
    let grid = ByteGrid::new(size, size);
    let m = MoveMap::new(0, 0, grid).unwrap();
    let walk = build_walk_array(&m, 0, 0, size);
    let bd = WordGrid3::new(size, size, 7);
    let se = ByteGrid3::new(size, size, 8);
    let store = one_chunk_store(size, bd, walk, se);
    let section = MapSection::create_map_section(0, size - 1, 0, size - 1, 0, &store).unwrap();
    let heuristic = Heuristic::new(HeuristicTable::build(20));
    let start = start_state(0, 0, 3);
    assert!(a_star_end_buffer(start, (6, 6), &section, heuristic).is_none());
}

/// A start already inside the tolerance box yields the trivial plan.
#[test]
fn start_at_goal() {
    let size = 8;
    let m = open_move_map(size, size);
    let walk = build_walk_array(&m, 0, 0, size);
    let bd = WordGrid3::new(size, size, 7);
    let se = ByteGrid3::new(size, size, 8);
    let store = one_chunk_store(size, bd, walk, se);
    let section = MapSection::create_map_section(0, size - 1, 0, size - 1, 0, &store).unwrap();
    let heuristic = Heuristic::new(HeuristicTable::build(20));
    let start = start_state(4, 4, 17);
    let (path, moves) = a_star_end_buffer(start, (5, 5), &section, heuristic).unwrap();
    assert_eq!(path.len(), 1);
    assert_eq!(path[0], start);
    assert!(moves.is_empty());
}

/// With every cooldown at its maximum the heuristic reduces to the walk-only
/// recursion: two tiles per timestep.
#[test]
fn heuristic_walk_only() {
    let table = HeuristicTable::build(12);
    let heuristic = Heuristic::new(table);
    let s = start_state(0, 0, 17);
    // Chebyshev distance 12, so the lookup closes 11 tiles: six walk steps.
    assert_eq!(heuristic.h(&s, (12, 0)), 6);
    let mut memo = Memo::new();
    assert_eq!(memo.distance_cds_rec(11, 17, 17, 17, 17), 6);
}

#[test]
fn heuristic_ready_abilities_are_free() {
    let mut memo = Memo::new();
    // a ready dash closes ten tiles at no time cost
    assert_eq!(memo.distance_cds_rec(10, 17, 17, 17, 0), 0);
    // a ready forward teleport likewise
    assert_eq!(memo.distance_cds_rec(10, 0, 17, 17, 17), 0);
    // nothing to close costs nothing
    assert_eq!(memo.distance_cds_rec(0, 17, 17, 17, 17), 0);
    assert_eq!(memo.distance_cds_rec(-5, 9, 9, 9, 9), 0);
    // dash, then walk the remaining two tiles
    assert_eq!(memo.distance_cds_rec(12, 17, 17, 17, 0), 1);
}

/// Heuristic lookups clamp: at the goal tile the distance index is zero, and
/// past the configured maximum it stays at the last row.
#[test]
fn heuristic_clamping() {
    let table = HeuristicTable::build(5);
    let heuristic = Heuristic::new(table);
    let s = start_state(100, 100, 17);
    assert_eq!(heuristic.h(&s, (100, 100)), 0);
    let far = heuristic.h(&s, (100, 600));
    let mut memo = Memo::new();
    assert_eq!(far, memo.distance_cds_rec(5, 17, 17, 17, 17));
}

/// Monotonicity spot checks: the cost never shrinks as distance grows.
#[test]
fn heuristic_monotone_values() {
    let mut memo = Memo::new();
    let mut previous = 0;
    for d in 0..30 {
        let v = memo.distance_cds_rec(d, 17, 17, 17, 17);
        assert!(v >= previous);
        previous = v;
    }
}
