use rs3_pathfinding::builder::{
    assemble_move_map, bd_range, build_movement_array, escape_offset, process_bd_data,
    process_walk_data, surge_offset, walk_range, MoveChunk,
};
use rs3_pathfinding::grid::{ByteGrid, ByteGrid3, WordGrid3};
use rs3_pathfinding::map_section::{
    classify_direction, decode_bd, decode_walk, ChunkStore, MapSection, SectionChunk,
};
use rs3_pathfinding::movemap::MoveMap;
use rs3_pathfinding::state::State;
use rs3_pathfinding::window::DashWindow;

fn open_grid(width: usize, height: usize) -> ByteGrid {
    let mut g = ByteGrid::new(width, height);
    for x in 0..width {
        for y in 0..height {
            g.set(x, y, 0xff);
        }
    }
    g
}

fn open_move_map(width: usize, height: usize) -> MoveMap {
    MoveMap::new(0, 0, open_grid(width, height)).unwrap()
}

/// Tiles on a diagonal classify as diagonals, axis offsets as axes, and the
/// sector test breaks near-diagonal ties toward the diagonals.
#[test]
fn direction_classification() {
    assert_eq!(classify_direction(3, 3), 1);
    assert_eq!(classify_direction(3, -3), 3);
    assert_eq!(classify_direction(-3, -3), 5);
    assert_eq!(classify_direction(-3, 3), 7);
    assert_eq!(classify_direction(0, 5), 0);
    assert_eq!(classify_direction(5, 0), 2);
    assert_eq!(classify_direction(0, -5), 4);
    assert_eq!(classify_direction(-5, 0), 6);
    // 2:1 slope still buckets to the diagonal
    assert_eq!(classify_direction(2, 1), 1);
    // 5:1 slope is flat enough for the axis
    assert_eq!(classify_direction(5, 1), 2);
    assert_eq!(classify_direction(1, 5), 0);
}

/// Chebyshev distance one satisfies the goal test; distance two does not.
#[test]
fn goal_tolerance() {
    let s = State { pos_x: 5, pos_y: 5, direction: 0, secd: 0, scd: 0, ecd: 0, bdcd: 0 };
    assert!(s.at_goal(&(5, 5)));
    assert!(s.at_goal(&(6, 6)));
    assert!(s.at_goal(&(4, 6)));
    assert!(!s.at_goal(&(7, 5)));
    assert!(!s.at_goal(&(5, 3)));
    assert!(!s.at_goal(&(7, 7)));
}

#[test]
fn state_transitions() {
    let s = State { pos_x: 9, pos_y: 9, direction: 2, secd: 3, scd: 0, ecd: 1, bdcd: 0 };
    let t = s.update();
    assert_eq!((t.secd, t.scd, t.ecd, t.bdcd), (2, 0, 0, 0));
    assert_eq!((t.pos_x, t.pos_y, t.direction), (9, 9, 2));
    let m = s.move_to(11, 12, 5);
    assert_eq!((m.pos_x, m.pos_y, m.direction), (11, 12, 5));
    assert_eq!((m.secd, m.scd, m.ecd, m.bdcd), (3, 0, 1, 0));
    assert!(s.can_bd());
    let d = s.bd(10, 10, 1);
    assert_eq!(d.bdcd, 17);
    assert_eq!((d.secd, d.scd, d.ecd), (3, 0, 1));
    assert!(s.can_surge());
    let ready = State { pos_x: 0, pos_y: 0, direction: 0, secd: 3, scd: 2, ecd: 0, bdcd: 1 };
    assert!(ready.can_escape());
    assert!(!ready.can_surge());
    let held = State { pos_x: 0, pos_y: 0, direction: 0, secd: 4, scd: 2, ecd: 3, bdcd: 1 };
    assert!(!held.can_bd());
    assert!(!held.can_surge());
    assert!(!held.can_escape());
}

/// Encoding the dash reachability into the packed window and decoding it
/// back yields the same tile set.
#[test]
fn dash_window_round_trip() {
    let mut grid = open_grid(31, 31);
    // a blocked column two tiles east of the origin
    for y in 0..31 {
        grid.set(17, y, 0);
    }
    let m = MoveMap::new(0, 0, grid).unwrap();
    let win = bd_range(&m, 15, 15);
    let packed = process_bd_data(&m, 15, 15);
    let decoded = decode_bd(&packed.words, 15, 15);
    // every decoded tile is marked in the raw window, and conversely
    let mut marked: Vec<(u16, u16)> = Vec::new();
    for idx in 0..441 {
        if win[idx] {
            let u = 15 - 10 + (idx % 21) as i64;
            let v = 15 - 10 + (idx / 21) as i64;
            marked.push((u as u16, v as u16));
        }
    }
    let mut decoded_pos: Vec<(u16, u16)> = decoded.iter().map(|t| (t.0, t.1)).collect();
    marked.sort();
    decoded_pos.sort();
    assert_eq!(marked, decoded_pos);
    assert!(!marked.is_empty());
    // the blocked column keeps the far east out of reach
    assert!(marked.iter().all(|&(u, _)| u <= 17));
}

/// The walk flood fill stays within the two-tile neighbourhood and its
/// packed form decodes back to the same destinations.
#[test]
fn walk_data_round_trip() {
    let m = open_move_map(31, 31);
    let tiles = walk_range(&m, 15, 15);
    assert!(!tiles.is_empty());
    for t in &tiles {
        assert!((t.0 - 15).abs() <= 2 && (t.1 - 15).abs() <= 2);
        assert!(t.2 < 8);
    }
    let (lo, hi) = process_walk_data(&m, 15, 15);
    let decoded = decode_walk(lo, hi, 15, 15);
    let mut a: Vec<(u16, u16, u8)> =
        tiles.iter().map(|t| (t.0 as u16, t.1 as u16, t.2)).collect();
    let mut b = decoded.clone();
    a.sort();
    b.sort();
    assert_eq!(a, b);
    // a fully open neighbourhood reaches all 24 surrounding tiles
    assert_eq!(tiles.len(), 24);
}

/// A fully blocked tile has no walk destinations and its packed words mark
/// every cell absent.
#[test]
fn blocked_walk_data() {
    let grid = ByteGrid::new(31, 31);
    let m = MoveMap::new(0, 0, grid).unwrap();
    assert!(walk_range(&m, 15, 15).is_empty());
    let (lo, hi) = process_walk_data(&m, 15, 15);
    assert_eq!(lo, u64::MAX);
    assert_eq!(hi, u64::MAX);
    assert!(decode_walk(lo, hi, 15, 15).is_empty());
}

/// Ray-cast teleport offsets pick the furthest marked tile along the facing.
#[test]
fn teleport_offsets() {
    let mut w = DashWindow::empty();
    // mark two tiles east of the centre: bits 221 and 222 of the window
    w.set_bit(221);
    w.set_bit(222);
    assert_eq!(surge_offset(&w, 2), 2);
    assert_eq!(surge_offset(&w, 6), 0);
    assert_eq!(surge_offset(&w, 0), 0);
    // escape looks opposite the facing: facing west reads the east ray
    assert_eq!(escape_offset(&w, 6), 2);
    assert_eq!(escape_offset(&w, 2), 0);
}

/// Movement assembly answers per-tile lookups from the right chunk and
/// treats everything outside the region as blocked.
#[test]
fn movement_assembly() {
    let size = 8;
    let chunks = vec![MoveChunk { cx: 0, cy: 0, floor: 0, grid: open_grid(size, size) }];
    let m = assemble_move_map(0, 0, size, size, size, 0, &chunks).unwrap();
    assert_eq!(m.get(3, 3), 0xff);
    assert_eq!(m.get(-1, 3), 0);
    assert_eq!(m.get(3, 9), 0);
    // a missing covering chunk refuses assembly
    assert!(assemble_move_map(0, 0, 2 * size, size, size, 0, &chunks).is_none());
    // wrong floor likewise
    assert!(assemble_move_map(0, 0, size, size, size, 1, &chunks).is_none());
}

/// A section cannot be created when a covering chunk is absent.
#[test]
fn section_needs_chunks() {
    let size = 8;
    let store = ChunkStore {
        chunk_size: size,
        chunks: vec![SectionChunk {
            cx: 1,
            cy: 1,
            floor: 0,
            bd: WordGrid3::new(size, size, 7),
            walk: WordGrid3::new(size, size, 2),
            se: ByteGrid3::new(size, size, 8),
        }],
    };
    assert!(MapSection::create_map_section(0, size - 1, 0, size - 1, 0, &store).is_none());
    assert!(
        MapSection::create_map_section(size, 2 * size - 1, size, 2 * size - 1, 0, &store)
            .is_some()
    );
}

fn adler32(data: &[u8]) -> u32 {
    let mut a: u32 = 1;
    let mut b: u32 = 0;
    for &x in data {
        a = (a + x as u32) % 65521;
        b = (b + a) % 65521;
    }
    (b << 16) | a
}

fn zlib_stored(data: &[u8]) -> Vec<u8> {
    let mut out = vec![0x78, 0x01];
    let mut chunks = data.chunks(65535).peekable();
    while let Some(block) = chunks.next() {
        let last = chunks.peek().is_none();
        out.push(if last { 1 } else { 0 });
        let len = block.len() as u16;
        out.push((len & 0xff) as u8);
        out.push((len >> 8) as u8);
        out.push((!len & 0xff) as u8);
        out.push(((!len) >> 8) as u8);
        out.extend_from_slice(block);
    }
    let sum = adler32(data);
    out.extend_from_slice(&sum.to_be_bytes());
    out
}

/// Decompressing a raw collision buffer recovers the dense movement grid,
/// column fastest; malformed streams and wrong sizes are refused.
#[test]
fn collision_decompression() {
    let raw: Vec<u8> = (0..1280usize * 1280).map(|i| (i % 251) as u8).collect();
    let compressed = zlib_stored(&raw);
    let grid = build_movement_array(&compressed).unwrap();
    assert_eq!(grid.width, 1280);
    assert_eq!(grid.height, 1280);
    // element (x, y) comes from index x + 1280 * y of the raw buffer
    assert_eq!(grid.get(5, 7), ((5 + 1280 * 7) % 251) as u8);
    assert_eq!(grid.get(1279, 0), (1279 % 251) as u8);
    assert_eq!(grid.get(0, 1279), ((1280 * 1279) % 251) as u8);
    // wrong decompressed size
    let short = zlib_stored(&[1, 2, 3]);
    assert!(build_movement_array(&short).is_none());
    // corrupt stream
    assert!(build_movement_array(&vec![0x99, 0x99, 0x03, 0x00]).is_none());
}
