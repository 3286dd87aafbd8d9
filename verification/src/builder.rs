//! The tile database builder.
//!
//! From raw movement bitmasks this module derives, per tile: the ordinary
//! walk reachability list, the dash-range window, the packed walk and dash
//! data words, and the forward/backward teleport offsets; and it assembles
//! whole chunks of each dataset.
//!
//! The walk and dash expansions are specified by spec functions that mirror
//! the executable code step for step: their traversal order is load-bearing
//! (it decides which facing is recorded when several directions tie), so the
//! algorithm itself is the most direct statement of the result.

use vstd::prelude::*;
use crate::grid::ByteGrid;
use crate::grid::WordGrid3;
use crate::movemap::MoveMap;
use crate::movemap::RS_HEIGHT;
use crate::movemap::RS_LENGTH;
use crate::movemap::in_world;
use crate::util::dir_dx;
use crate::util::dir_dy;
use crate::util::free_direction;
use crate::util::spec_free_direction;
use crate::window::DashWindow;
use crate::window::bit_at;

verus! {

/// Coordinate magnitude up to which builder arithmetic is exercised; world
/// coordinates and their 10-tile margins lie far below it.
pub const COORD_BOUND: i64 = 1_000_000;

/// The neighbour of `(x, y)` one step in a compass direction.
pub open spec fn step_tile(x: i64, y: i64, direction: int) -> (i64, i64) {
    ((x + dir_dx(direction)) as i64, (y + dir_dy(direction)) as i64)
}

/// Order in which the walk flood fill visits the eight directions:
/// axis-aligned first, then diagonal.
pub open spec fn visit_order(i: int) -> int {
    (2 * i + i / 4) % 8
}

/// State of the walk flood fill after admitting the first `i` seed
/// directions: recorded tiles, visited set, and seed queue.
pub open spec fn walk_seeds(m: MoveMap, x: i64, y: i64, i: int) -> (Seq<(i64, i64, u8)>, Set<
    (i64, i64),
>, Seq<(i64, i64)>)
    decreases i,
{
    if i <= 0 {
        (Seq::empty(), Set::empty().insert((x, y)), Seq::empty())
    } else {
        let prev = walk_seeds(m, x, y, i - 1);
        let j = visit_order(i - 1);
        if spec_free_direction(m.at(x as int, y as int), j) {
            let p = step_tile(x, y, j);
            (prev.0.push((p.0, p.1, j as u8)), prev.1.insert(p), prev.2.push(p))
        } else {
            prev
        }
    }
}

/// State of the walk flood fill after one seed has offered its first `i`
/// neighbour directions.
pub open spec fn walk_expand_tile(
    m: MoveMap,
    sx: i64,
    sy: i64,
    tiles: Seq<(i64, i64, u8)>,
    vis: Set<(i64, i64)>,
    i: int,
) -> (Seq<(i64, i64, u8)>, Set<(i64, i64)>)
    decreases i,
{
    if i <= 0 {
        (tiles, vis)
    } else {
        let prev = walk_expand_tile(m, sx, sy, tiles, vis, i - 1);
        let j = i - 1;
        let p = step_tile(sx, sy, j);
        if spec_free_direction(m.at(sx as int, sy as int), j) && !prev.1.contains(p) {
            (prev.0.push((p.0, p.1, j as u8)), prev.1.insert(p))
        } else {
            prev
        }
    }
}

/// State of the walk flood fill after the first `k` seeds were expanded.
pub open spec fn walk_expand(
    m: MoveMap,
    seeds: Seq<(i64, i64)>,
    tiles: Seq<(i64, i64, u8)>,
    vis: Set<(i64, i64)>,
    k: int,
) -> (Seq<(i64, i64, u8)>, Set<(i64, i64)>)
    decreases k,
{
    if k <= 0 {
        (tiles, vis)
    } else {
        let prev = walk_expand(m, seeds, tiles, vis, k - 1);
        walk_expand_tile(m, seeds[k - 1].0, seeds[k - 1].1, prev.0, prev.1, 8)
    }
}

/// Every tile ordinary walking reaches from `(x, y)` within one timestep,
/// tagged with the facing on arrival, in discovery order.
pub open spec fn walk_list(m: MoveMap, x: i64, y: i64) -> Seq<(i64, i64, u8)> {
    let seeded = walk_seeds(m, x, y, 8);
    walk_expand(m, seeded.2, seeded.0, seeded.1, seeded.2.len() as int).0
}

/// Index of a relative offset in the 5×5 visited window of the walk fill.
pub open spec fn vis_idx(rx: int, ry: int) -> int {
    (rx + 2) * 5 + (ry + 2)
}

/// The set of absolute tiles a 5×5 visited window centred on `(x, y)` marks.
pub open spec fn vis_set(v: Seq<bool>, x: i64, y: i64) -> Set<(i64, i64)> {
    Set::new(
        |p: (i64, i64)|
            {
                &&& -2 <= p.0 - x <= 2
                &&& -2 <= p.1 - y <= 2
                &&& v[vis_idx(p.0 - x, p.1 - y)]
            },
    )
}

fn vis_mark(v: &mut Vec<bool>, x: i64, y: i64, px: i64, py: i64)
    requires
        old(v).len() == 25,
        -2 <= px - x <= 2,
        -2 <= py - y <= 2,
    ensures
        final(v).len() == 25,
        vis_set(final(v)@, x, y) == vis_set(old(v)@, x, y).insert((px, py)),
{
    let idx = ((px - x + 2) * 5 + (py - y + 2)) as usize;
    v[idx] = true;
    proof {
        assert forall|p: (i64, i64)|
            vis_set(v@, x, y).contains(p) == vis_set(old(v)@, x, y).insert((px, py)).contains(
                p,
            ) by {
            if -2 <= p.0 - x <= 2 && -2 <= p.1 - y <= 2 {
                assert(0 <= vis_idx(p.0 - x, p.1 - y) < 25);
            }
        }
        assert(vis_set(v@, x, y) =~= vis_set(old(v)@, x, y).insert((px, py)));
    }
}

fn vis_check(v: &Vec<bool>, x: i64, y: i64, px: i64, py: i64) -> (r: bool)
    requires
        v.len() == 25,
        -2 <= px - x <= 2,
        -2 <= py - y <= 2,
    ensures
        r == vis_set(v@, x, y).contains((px, py)),
{
    let idx = ((px - x + 2) * 5 + (py - y + 2)) as usize;
    v[idx]
}

/// One step in a compass direction, executable counterpart of `step_tile`.
fn step(x: i64, y: i64, direction: usize) -> (r: (i64, i64))
    requires
        direction < 8,
        -COORD_BOUND <= x <= COORD_BOUND,
        -COORD_BOUND <= y <= COORD_BOUND,
    ensures
        r == step_tile(x, y, direction as int),
{
    if direction == 0 {
        (x, y + 1)
    } else if direction == 1 {
        (x + 1, y + 1)
    } else if direction == 2 {
        (x + 1, y)
    } else if direction == 3 {
        (x + 1, y - 1)
    } else if direction == 4 {
        (x, y - 1)
    } else if direction == 5 {
        (x - 1, y - 1)
    } else if direction == 6 {
        (x - 1, y)
    } else {
        (x - 1, y + 1)
    }
}

/// Flood fill of the bounded walking neighbourhood of `(x, y)`: the eight
/// direct neighbours are admitted in the fixed visiting order, then each
/// admitted seed offers its own free neighbours; a tile and its arrival
/// facing are recorded the first time the tile is seen.
pub fn walk_range(m: &MoveMap, x: i64, y: i64) -> (tiles: Vec<(i64, i64, u8)>)
    requires
        m.wf(),
        -COORD_BOUND + 4 <= x <= COORD_BOUND - 4,
        -COORD_BOUND + 4 <= y <= COORD_BOUND - 4,
    ensures
        tiles@ == walk_list(*m, x, y),
{
    let mut tiles: Vec<(i64, i64, u8)> = Vec::new();
    let mut seeds: Vec<(i64, i64)> = Vec::new();
    let mut vis: Vec<bool> = Vec::new();
    let mut n: usize = 0;
    while n < 25
        invariant
            n <= 25,
            vis.len() == n,
            forall|j: int| 0 <= j < n ==> !vis@[j],
        decreases 25 - n,
    {
        vis.push(false);
        n = n + 1;
    }
    proof {
        assert(vis_set(vis@, x, y) =~= Set::empty());
    }
    let ghost gvis: Set<(i64, i64)> = Set::empty().insert((x, y));
    vis_mark(&mut vis, x, y, x, y);
    proof {
        assert(vis_set(vis@, x, y) =~= gvis);
    }
    let start = m.get(x, y);
    let mut i: usize = 0;
    while i < 8
        invariant
            i <= 8,
            m.wf(),
            -COORD_BOUND + 4 <= x <= COORD_BOUND - 4,
            -COORD_BOUND + 4 <= y <= COORD_BOUND - 4,
            start == m.at(x as int, y as int),
            vis.len() == 25,
            (tiles@, vis_set(vis@, x, y), seeds@) == walk_seeds(*m, x, y, i as int),
        decreases 8 - i,
    {
        let j = (2 * i + i / 4) % 8;
        assert(j as int == visit_order(i as int));
        if free_direction(start, j) {
            let p = step(x, y, j);
            tiles.push((p.0, p.1, j as u8));
            vis_mark(&mut vis, x, y, p.0, p.1);
            seeds.push(p);
        }
        i = i + 1;
    }
    let ghost seeds_final = seeds@;
    let ghost tiles0 = tiles@;
    let ghost vis0 = vis_set(vis@, x, y);
    proof {
        lemma_seeds_near(*m, x, y, 8);
        assert(seeds@ == walk_seeds(*m, x, y, 8).2);
        assert(tiles@ == walk_seeds(*m, x, y, 8).0);
        assert(vis_set(vis@, x, y) == walk_seeds(*m, x, y, 8).1);
    }
    let mut k: usize = 0;
    while k < seeds.len()
        invariant
            k <= seeds.len(),
            m.wf(),
            -COORD_BOUND + 4 <= x <= COORD_BOUND - 4,
            -COORD_BOUND + 4 <= y <= COORD_BOUND - 4,
            vis.len() == 25,
            seeds@ == seeds_final,
            forall|q: int|
                0 <= q < seeds_final.len() ==> -1 <= (#[trigger] seeds_final[q]).0 - x <= 1 && -1
                    <= seeds_final[q].1 - y <= 1,
            (tiles@, vis_set(vis@, x, y)) == walk_expand(*m, seeds_final, tiles0, vis0, k as int),
        decreases seeds.len() - k,
    {
        let (sx, sy) = seeds[k];
        assert(-1 <= sx - x <= 1 && -1 <= sy - y <= 1);
        let ghost tk = tiles@;
        let ghost vk = vis_set(vis@, x, y);
        let cur = m.get(sx, sy);
        let mut i: usize = 0;
        while i < 8
            invariant
                i <= 8,
                m.wf(),
                -COORD_BOUND + 3 <= sx <= COORD_BOUND - 3,
                -COORD_BOUND + 3 <= sy <= COORD_BOUND - 3,
                -1 <= sx - x <= 1,
                -1 <= sy - y <= 1,
                cur == m.at(sx as int, sy as int),
                vis.len() == 25,
                (tiles@, vis_set(vis@, x, y)) == walk_expand_tile(*m, sx, sy, tk, vk, i as int),
            decreases 8 - i,
        {
            if free_direction(cur, i) {
                let p = step(sx, sy, i);
                if !vis_check(&vis, x, y, p.0, p.1) {
                    tiles.push((p.0, p.1, i as u8));
                    vis_mark(&mut vis, x, y, p.0, p.1);
                }
            }
            i = i + 1;
        }
        k = k + 1;
    }
    tiles
}

/// Index of a relative offset in the 21×21 dash window, row-major with the
/// y offset as the row.
pub open spec fn win_idx(rx: int, ry: int) -> int {
    (ry + 10) * 21 + (rx + 10)
}

/// The set of absolute tiles a 21×21 dash window centred on `(ox, oy)` marks.
pub open spec fn win_set(v: Seq<bool>, ox: i64, oy: i64) -> Set<(i64, i64)> {
    Set::new(
        |p: (i64, i64)|
            {
                &&& -10 <= p.0 - ox <= 10
                &&& -10 <= p.1 - oy <= 10
                &&& v[win_idx(p.0 - ox, p.1 - oy)]
            },
    )
}

fn win_insert(v: &mut Vec<bool>, ox: i64, oy: i64, px: i64, py: i64)
    requires
        old(v).len() == 441,
        -10 <= px - ox <= 10,
        -10 <= py - oy <= 10,
    ensures
        final(v).len() == 441,
        win_set(final(v)@, ox, oy) == win_set(old(v)@, ox, oy).insert((px, py)),
{
    let idx = ((py - oy + 10) * 21 + (px - ox + 10)) as usize;
    v[idx] = true;
    proof {
        assert forall|p: (i64, i64)|
            win_set(v@, ox, oy).contains(p) == win_set(old(v)@, ox, oy).insert((px, py)).contains(
                p,
            ) by {
            if -10 <= p.0 - ox <= 10 && -10 <= p.1 - oy <= 10 {
                assert(0 <= win_idx(p.0 - ox, p.1 - oy) < 441);
            }
        }
        assert(win_set(v@, ox, oy) =~= win_set(old(v)@, ox, oy).insert((px, py)));
    }
}

/// Tiles a straight fill pass inserts: walking from `(x, y)` in one
/// axis-aligned direction while the edge is open and fewer than ten steps
/// were taken on that axis.
pub open spec fn fill_spec(m: MoveMap, x: i64, y: i64, dir: int, d: int) -> Set<(i64, i64)>
    decreases 10 - d,
{
    if d < 10 && spec_free_direction(m.at(x as int, y as int), dir) {
        let p = step_tile(x, y, dir);
        fill_spec(m, p.0, p.1, dir, d + 1).insert(p)
    } else {
        Set::empty()
    }
}

fn fill_rec(
    m: &MoveMap,
    ox: i64,
    oy: i64,
    x: i64,
    y: i64,
    direction: usize,
    d: usize,
    win: &mut Vec<bool>,
)
    requires
        m.wf(),
        old(win).len() == 441,
        direction == 0 || direction == 2 || direction == 4 || direction == 6,
        d <= 10,
        -COORD_BOUND + 24 <= ox <= COORD_BOUND - 24,
        -COORD_BOUND + 24 <= oy <= COORD_BOUND - 24,
        (direction == 2 || direction == 6) ==> -(d as int) <= x - ox <= d as int && -10 <= y - oy
            <= 10,
        (direction == 0 || direction == 4) ==> -(d as int) <= y - oy <= d as int && -10 <= x - ox
            <= 10,
    ensures
        final(win).len() == 441,
        win_set(final(win)@, ox, oy) == win_set(old(win)@, ox, oy).union(
            fill_spec(*m, x, y, direction as int, d as int),
        ),
    decreases 10 - d,
{
    let cm = m.get(x, y);
    if d < 10 && free_direction(cm, direction) {
        let p = step(x, y, direction);
        win_insert(win, ox, oy, p.0, p.1);
        fill_rec(m, ox, oy, p.0, p.1, direction, d + 1, win);
        proof {
            assert(win_set(win@, ox, oy) =~= win_set(old(win)@, ox, oy).union(
                fill_spec(*m, x, y, direction as int, d as int),
            ));
        }
    } else {
        proof {
            assert(win_set(win@, ox, oy) =~= win_set(old(win)@, ox, oy).union(
                fill_spec(*m, x, y, direction as int, d as int),
            ));
        }
    }
}

/// Tiles one dash arm inserts. The arm walks its diagonal while both axis
/// budgets and the diagonal edge allow, falls back to whichever component
/// direction is still open, and finally runs a straight fill pass along each
/// component from the tile where the walk stood.
pub open spec fn bd_arm_spec(
    m: MoveMap,
    x: i64,
    y: i64,
    dir: int,
    h: int,
    v: int,
    dx: int,
    dy: int,
) -> Set<(i64, i64)>
    decreases 20 - dx - dy,
{
    let base: Set<(i64, i64)> = if dx > 0 || dy > 0 {
        Set::empty().insert((x, y))
    } else {
        Set::empty()
    };
    let cm = m.at(x as int, y as int);
    let diag = 0 <= dx < 10 && 0 <= dy < 10 && spec_free_direction(cm, dir);
    let horiz = !diag && 0 <= dx < 10 && 0 <= dy <= 10 && spec_free_direction(cm, h);
    let vert = !diag && !horiz && 0 <= dy < 10 && 0 <= dx <= 10 && spec_free_direction(cm, v);
    let rec: Set<(i64, i64)> = if diag {
        let p = step_tile(x, y, dir);
        bd_arm_spec(m, p.0, p.1, dir, h, v, dx + 1, dy + 1)
    } else if horiz {
        let p = step_tile(x, y, h);
        bd_arm_spec(m, p.0, p.1, dir, h, v, dx + 1, dy)
    } else if vert {
        let p = step_tile(x, y, v);
        bd_arm_spec(m, p.0, p.1, dir, h, v, dx, dy + 1)
    } else {
        Set::empty()
    };
    let fdx: int = if horiz {
        10
    } else {
        dx
    };
    let fdy: int = if vert {
        10
    } else {
        dy
    };
    base.union(rec).union(fill_spec(m, x, y, h, fdx)).union(fill_spec(m, x, y, v, fdy))
}

/// One arm of the dash expansion, accumulating into the window of the origin
/// tile `(ox, oy)`.
pub fn bd_arm(
    m: &MoveMap,
    ox: i64,
    oy: i64,
    x: i64,
    y: i64,
    direction: usize,
    horizontal: usize,
    vertical: usize,
    dist_x: usize,
    dist_y: usize,
    win: &mut Vec<bool>,
)
    requires
        m.wf(),
        old(win).len() == 441,
        direction < 8,
        horizontal == 2 || horizontal == 6,
        vertical == 0 || vertical == 4,
        dist_x <= 10,
        dist_y <= 10,
        -COORD_BOUND + 24 <= ox <= COORD_BOUND - 24,
        -COORD_BOUND + 24 <= oy <= COORD_BOUND - 24,
        -(dist_x as int) <= x - ox <= dist_x as int,
        -(dist_y as int) <= y - oy <= dist_y as int,
    ensures
        final(win).len() == 441,
        win_set(final(win)@, ox, oy) == win_set(old(win)@, ox, oy).union(
            bd_arm_spec(
                *m,
                x,
                y,
                direction as int,
                horizontal as int,
                vertical as int,
                dist_x as int,
                dist_y as int,
            ),
        ),
    decreases 20 - dist_x - dist_y,
{
    if dist_x > 0 || dist_y > 0 {
        win_insert(win, ox, oy, x, y);
    }
    let cm = m.get(x, y);
    let mut fdx = dist_x;
    let mut fdy = dist_y;
    if dist_x < 10 && dist_y < 10 && free_direction(cm, direction) {
        let p = step(x, y, direction);
        bd_arm(m, ox, oy, p.0, p.1, direction, horizontal, vertical, dist_x + 1, dist_y + 1, win);
    } else if dist_x < 10 && free_direction(cm, horizontal) {
        let p = step(x, y, horizontal);
        bd_arm(m, ox, oy, p.0, p.1, direction, horizontal, vertical, dist_x + 1, dist_y, win);
        fdx = 10;
    } else if dist_y < 10 && free_direction(cm, vertical) {
        let p = step(x, y, vertical);
        bd_arm(m, ox, oy, p.0, p.1, direction, horizontal, vertical, dist_x, dist_y + 1, win);
        fdy = 10;
    }
    fill_rec(m, ox, oy, x, y, horizontal, fdx, win);
    fill_rec(m, ox, oy, x, y, vertical, fdy, win);
    proof {
        assert(win_set(win@, ox, oy) =~= win_set(old(win)@, ox, oy).union(
            bd_arm_spec(
                *m,
                x,
                y,
                direction as int,
                horizontal as int,
                vertical as int,
                dist_x as int,
                dist_y as int,
            ),
        ));
    }
}

/// The full dash reachability of a tile: the union of the four arms, one per
/// diagonal, each with its two component directions.
pub open spec fn bd_range_spec(m: MoveMap, x: i64, y: i64) -> Set<(i64, i64)> {
    bd_arm_spec(m, x, y, 1, 2, 0, 0, 0).union(bd_arm_spec(m, x, y, 3, 2, 4, 0, 0)).union(
        bd_arm_spec(m, x, y, 5, 6, 4, 0, 0),
    ).union(bd_arm_spec(m, x, y, 7, 6, 0, 0, 0))
}

/// Runs the four dash arms of `(x, y)` and returns the visited window.
pub fn bd_range(m: &MoveMap, x: i64, y: i64) -> (win: Vec<bool>)
    requires
        m.wf(),
        -COORD_BOUND + 24 <= x <= COORD_BOUND - 24,
        -COORD_BOUND + 24 <= y <= COORD_BOUND - 24,
    ensures
        win.len() == 441,
        win_set(win@, x, y) == bd_range_spec(*m, x, y),
{
    let mut win: Vec<bool> = Vec::new();
    let mut n: usize = 0;
    while n < 441
        invariant
            n <= 441,
            win.len() == n,
            forall|j: int| 0 <= j < n ==> !win@[j],
        decreases 441 - n,
    {
        win.push(false);
        n = n + 1;
    }
    proof {
        assert(win_set(win@, x, y) =~= Set::empty());
    }
    bd_arm(m, x, y, x, y, 1, 2, 0, 0, 0, &mut win);
    bd_arm(m, x, y, x, y, 3, 2, 4, 0, 0, &mut win);
    bd_arm(m, x, y, x, y, 5, 6, 4, 0, 0, &mut win);
    bd_arm(m, x, y, x, y, 7, 6, 0, 0, 0, &mut win);
    proof {
        assert(win_set(win@, x, y) =~= bd_range_spec(*m, x, y));
    }
    win
}

/// What `zune_inflate` yields for a zlib stream: the decompressed bytes, or
/// nothing when the stream is rejected. A pure function of the input bytes.
pub uninterp spec fn zlib_inflate_of(data: Seq<u8>) -> Option<Seq<u8>>;

/// Relies on zune_inflate::DeflateDecoder::decode_zlib with default options:
/// deterministic decompression of a zlib stream, an error on a malformed one.
#[verifier::external_body]
fn inflate_zlib(data: &Vec<u8>) -> (r: Option<Vec<u8>>)
    ensures
        (r is Some) == (zlib_inflate_of(data@) is Some),
        r matches Some(v) ==> zlib_inflate_of(data@) == Some(v@),
{
    let mut decoder = zune_inflate::DeflateDecoder::new(data.as_slice());
    match decoder.decode_zlib() {
        Ok(v) => Some(v),
        Err(_) => None,
    }
}

/// Decompresses one raw collision buffer and shapes it into the dense
/// 1280×1280 movement bitmask grid of a chunk, column fastest; refused when
/// the stream is malformed or decodes to the wrong length.
pub fn build_movement_array(data: &Vec<u8>) -> (r: Option<ByteGrid>)
    ensures
        (r is Some) <==> (zlib_inflate_of(data@) matches Some(v) && v.len() == 1280 * 1280),
        r matches Some(g) ==> {
            &&& g.wf()
            &&& g.width == 1280
            &&& g.height == 1280
            &&& zlib_inflate_of(data@) matches Some(v) && forall|x: int, y: int|
                0 <= x < 1280 && 0 <= y < 1280 ==> #[trigger] g.at(x, y) == v[x + 1280 * y]
        },
{
    let v = match inflate_zlib(data) {
        Some(v) => v,
        None => {
            return None;
        },
    };
    if v.len() != 1280 * 1280 {
        return None;
    }
    let mut out: Vec<u8> = Vec::new();
    let mut x: usize = 0;
    while x < 1280
        invariant
            x <= 1280,
            v.len() == 1280 * 1280,
            out.len() == x * 1280,
            forall|x2: int, y2: int|
                0 <= x2 < x && 0 <= y2 < 1280 ==> #[trigger] out@[x2 * 1280 + y2] == v@[x2 + 1280 * y2],
        decreases 1280 - x,
    {
        let mut y: usize = 0;
        while y < 1280
            invariant
                x < 1280,
                y <= 1280,
                v.len() == 1280 * 1280,
                out.len() == x * 1280 + y,
                forall|x2: int, y2: int|
                    0 <= x2 < x && 0 <= y2 < 1280 ==> #[trigger] out@[x2 * 1280 + y2] == v@[x2 + 1280 * y2],
                forall|y2: int| 0 <= y2 < y ==> #[trigger] out@[x * 1280 + y2] == v@[x as int + 1280 * y2],
            decreases 1280 - y,
        {
            out.push(v[x + 1280 * y]);
            y = y + 1;
        }
        x = x + 1;
    }
    let g = ByteGrid { width: 1280, height: 1280, data: out };
    Some(g)
}

/// A ray offset lies between zero and the probe depth.
proof fn lemma_ray_bounds(words: Seq<u64>, stp: int, n: int)
    requires
        n >= 0,
    ensures
        0 <= ray_offset(words, stp, n) <= n,
    decreases n,
{
    if n > 0 {
        lemma_ray_bounds(words, stp, n - 1);
    }
}

/// The seven packed words of one tile of a dash-range chunk.
pub open spec fn words_at(g: WordGrid3, x: int, y: int) -> Seq<u64> {
    Seq::new(g.depth as nat, |k: int| g.at(x, y, k))
}

/// Whether a bit of the packed dash window of tile `(x, y)` is set: the
/// window tile is dash-reachable and lies within the world.
pub open spec fn bd_bit_spec(m: MoveMap, x: i64, y: i64, idx: int) -> bool {
    &&& 0 <= idx < 441
    &&& bd_range_spec(m, x, y).contains(tile_of_idx(x, y, idx))
    &&& in_world(tile_of_idx(x, y, idx).0 as int, tile_of_idx(x, y, idx).1 as int)
}

/// Derives the packed walk words of every tile of a `size`×`size` chunk
/// whose south-west corner tile is `(start_x, start_y)`.
pub fn build_walk_array(m: &MoveMap, start_x: i64, start_y: i64, size: usize) -> (g: WordGrid3)
    requires
        m.wf(),
        1 <= size <= 1280,
        -500_000 <= start_x <= 500_000,
        -500_000 <= start_y <= 500_000,
    ensures
        g.wf(),
        g.width == size,
        g.height == size,
        g.depth == 2,
        forall|i: int, j: int|
            0 <= i < size && 0 <= j < size ==> (
            #[trigger] g.at(i, j, 0),
            g.at(i, j, 1),
            ) == walk_words(*m, (start_x + i) as i64, (start_y + j) as i64),
{
    proof {
        assert(size * size * 2 <= 0x1000_0000) by (nonlinear_arith)
            requires
                1 <= size <= 1280,
        ;
    }
    let mut g = WordGrid3::new(size, size, 2);
    let mut i: usize = 0;
    while i < size
        invariant
            m.wf(),
            1 <= size <= 1280,
            -500_000 <= start_x <= 500_000,
            -500_000 <= start_y <= 500_000,
            i <= size,
            g.wf(),
            g.width == size,
            g.height == size,
            g.depth == 2,
            forall|i2: int, j2: int|
                0 <= i2 < i && 0 <= j2 < size ==> (
                #[trigger] g.at(i2, j2, 0),
                g.at(i2, j2, 1),
                ) == walk_words(*m, (start_x + i2) as i64, (start_y + j2) as i64),
        decreases size - i,
    {
        let mut j: usize = 0;
        while j < size
            invariant
                m.wf(),
                1 <= size <= 1280,
                -500_000 <= start_x <= 500_000,
                -500_000 <= start_y <= 500_000,
                i < size,
                j <= size,
                g.wf(),
                g.width == size,
                g.height == size,
                g.depth == 2,
                forall|i2: int, j2: int|
                    0 <= i2 < i && 0 <= j2 < size ==> (
                    #[trigger] g.at(i2, j2, 0),
                    g.at(i2, j2, 1),
                    ) == walk_words(*m, (start_x + i2) as i64, (start_y + j2) as i64),
                forall|j2: int|
                    0 <= j2 < j ==> (#[trigger] g.at(i as int, j2, 0), g.at(i as int, j2, 1))
                        == walk_words(*m, (start_x + i) as i64, (start_y + j2) as i64),
            decreases size - j,
        {
            let w = process_walk_data(m, start_x + i as i64, start_y + j as i64);
            g.set(i, j, 0, w.0);
            g.set(i, j, 1, w.1);
            j = j + 1;
        }
        i = i + 1;
    }
    g
}

/// Derives the packed dash window of every tile of a `size`×`size` chunk.
pub fn build_bd_array(m: &MoveMap, start_x: i64, start_y: i64, size: usize) -> (g: WordGrid3)
    requires
        m.wf(),
        1 <= size <= 1280,
        -500_000 <= start_x <= 500_000,
        -500_000 <= start_y <= 500_000,
    ensures
        g.wf(),
        g.width == size,
        g.height == size,
        g.depth == 7,
        forall|i: int, j: int, idx: int|
            0 <= i < size && 0 <= j < size && 0 <= idx < 448 ==> #[trigger] bit_at(
                words_at(g, i, j),
                idx,
            ) == bd_bit_spec(*m, (start_x + i) as i64, (start_y + j) as i64, idx),
{
    proof {
        assert(size * size * 7 <= 0x1000_0000) by (nonlinear_arith)
            requires
                1 <= size <= 1280,
        ;
    }
    let mut g = WordGrid3::new(size, size, 7);
    let mut i: usize = 0;
    while i < size
        invariant
            m.wf(),
            1 <= size <= 1280,
            -500_000 <= start_x <= 500_000,
            -500_000 <= start_y <= 500_000,
            i <= size,
            g.wf(),
            g.width == size,
            g.height == size,
            g.depth == 7,
            forall|i2: int, j2: int, idx: int|
                0 <= i2 < i && 0 <= j2 < size && 0 <= idx < 448 ==> #[trigger] bit_at(
                    words_at(g, i2, j2),
                    idx,
                ) == bd_bit_spec(*m, (start_x + i2) as i64, (start_y + j2) as i64, idx),
        decreases size - i,
    {
        let mut j: usize = 0;
        while j < size
            invariant
                m.wf(),
                1 <= size <= 1280,
                -500_000 <= start_x <= 500_000,
                -500_000 <= start_y <= 500_000,
                i < size,
                j <= size,
                g.wf(),
                g.width == size,
                g.height == size,
                g.depth == 7,
                forall|i2: int, j2: int, idx: int|
                    0 <= i2 < i && 0 <= j2 < size && 0 <= idx < 448 ==> #[trigger] bit_at(
                        words_at(g, i2, j2),
                        idx,
                    ) == bd_bit_spec(*m, (start_x + i2) as i64, (start_y + j2) as i64, idx),
                forall|j2: int, idx: int|
                    0 <= j2 < j && 0 <= idx < 448 ==> #[trigger] bit_at(
                        words_at(g, i as int, j2),
                        idx,
                    ) == bd_bit_spec(*m, (start_x + i) as i64, (start_y + j2) as i64, idx),
            decreases size - j,
        {
            let ghost gpre = g;
            let dw = process_bd_data(m, start_x + i as i64, start_y + j as i64);
            let mut k: usize = 0;
            while k < 7
                invariant
                    i < size,
                    j < size,
                    k <= 7,
                    dw.wf(),
                    g.wf(),
                    g.width == size,
                    g.height == size,
                    g.depth == 7,
                    forall|k2: int| 0 <= k2 < k ==> g.at(i as int, j as int, k2) == dw.words@[k2],
                    forall|i2: int, j2: int, k2: int|
                        0 <= i2 < size && 0 <= j2 < size && 0 <= k2 < 7 && !(i2 == i && j2 == j)
                            ==> #[trigger] g.at(i2, j2, k2) == gpre.at(i2, j2, k2),
                decreases 7 - k,
            {
                let w = dw.words[k];
                g.set(i, j, k, w);
                k = k + 1;
            }
            proof {
                assert(words_at(g, i as int, j as int) =~= dw.words@);
                assert forall|i2: int, j2: int|
                    0 <= i2 < size && 0 <= j2 < size && !(i2 == i && j2 == j) implies words_at(
                    g,
                    i2,
                    j2,
                ) =~= words_at(gpre, i2, j2) by {}
                assert forall|idx: int| 0 <= idx < 448 implies #[trigger] bit_at(
                    words_at(g, i as int, j as int),
                    idx,
                ) == bd_bit_spec(*m, (start_x + i) as i64, (start_y + j) as i64, idx) by {
                    assert(words_at(g, i as int, j as int) == dw.words@);
                    assert(bit_at(words_at(g, i as int, j as int), idx) == dw.bit(idx));
                    if idx < 441 {
                        assert(dw.bit(idx) == (bd_range_spec(
                            *m,
                            (start_x + i) as i64,
                            (start_y + j) as i64,
                        ).contains(
                            tile_of_idx((start_x + i) as i64, (start_y + j) as i64, idx),
                        ) && in_world(
                            tile_of_idx((start_x + i) as i64, (start_y + j) as i64, idx).0 as int,
                            tile_of_idx((start_x + i) as i64, (start_y + j) as i64, idx).1 as int,
                        )));
                    }
                }
            }
            j = j + 1;
        }
        i = i + 1;
    }
    g
}

/// The teleport-offset byte of a tile for one direction: forward offset in
/// the low four bits, backward offset in the high four.
pub open spec fn se_byte(words: Seq<u64>, d: int) -> int {
    ray_offset(words, ray_step(d), 10) + 16 * ray_offset(words, -ray_step(d), 7)
}

/// Derives the teleport-offset bytes of every tile of a chunk from its
/// packed dash windows.
pub fn build_se_array(bd: &WordGrid3) -> (g: crate::grid::ByteGrid3)
    requires
        bd.wf(),
        bd.depth == 7,
        1 <= bd.width <= 1280,
        1 <= bd.height <= 1280,
    ensures
        g.wf(),
        g.width == bd.width,
        g.height == bd.height,
        g.depth == 8,
        forall|i: int, j: int, d: int|
            0 <= i < g.width && 0 <= j < g.height && 0 <= d < 8 ==> #[trigger] g.at(i, j, d)
                == se_byte(words_at(*bd, i, j), d),
{
    proof {
        assert(bd.width * bd.height * 8 <= 0x1000_0000) by (nonlinear_arith)
            requires
                1 <= bd.width <= 1280,
                1 <= bd.height <= 1280,
        ;
    }
    let width = bd.width;
    let height = bd.height;
    let mut g = crate::grid::ByteGrid3::new(width, height, 8);
    let mut i: usize = 0;
    while i < width
        invariant
            bd.wf(),
            bd.depth == 7,
            1 <= bd.width <= 1280,
            1 <= bd.height <= 1280,
            width == bd.width,
            height == bd.height,
            i <= width,
            g.wf(),
            g.width == width,
            g.height == height,
            g.depth == 8,
            forall|i2: int, j2: int, d: int|
                0 <= i2 < i && 0 <= j2 < height && 0 <= d < 8 ==> #[trigger] g.at(i2, j2, d)
                    == se_byte(words_at(*bd, i2, j2), d),
        decreases width - i,
    {
        let mut j: usize = 0;
        while j < height
            invariant
                bd.wf(),
                bd.depth == 7,
                1 <= bd.width <= 1280,
                1 <= bd.height <= 1280,
                width == bd.width,
                height == bd.height,
                i < width,
                j <= height,
                g.wf(),
                g.width == width,
                g.height == height,
                g.depth == 8,
                forall|i2: int, j2: int, d: int|
                    0 <= i2 < i && 0 <= j2 < height && 0 <= d < 8 ==> #[trigger] g.at(i2, j2, d)
                        == se_byte(words_at(*bd, i2, j2), d),
                forall|j2: int, d: int|
                    0 <= j2 < j && 0 <= d < 8 ==> #[trigger] g.at(i as int, j2, d) == se_byte(
                        words_at(*bd, i as int, j2),
                        d,
                    ),
            decreases height - j,
        {
            let mut wd: Vec<u64> = Vec::new();
            let mut k: usize = 0;
            while k < 7
                invariant
                    bd.wf(),
                    bd.depth == 7,
                    i < bd.width,
                    j < bd.height,
                    k <= 7,
                    wd.len() == k,
                    forall|k2: int| 0 <= k2 < k ==> wd@[k2] == bd.at(i as int, j as int, k2),
                decreases 7 - k,
            {
                wd.push(bd.get(i, j, k));
                k = k + 1;
            }
            let dw = DashWindow { words: wd };
            proof {
                assert(dw.words@ =~= words_at(*bd, i as int, j as int));
            }
            let mut d: usize = 0;
            while d < 8
                invariant
                    bd.wf(),
                    bd.depth == 7,
                    i < bd.width,
                    j < bd.height,
                    width == bd.width,
                    height == bd.height,
                    d <= 8,
                    dw.wf(),
                    dw.words@ == words_at(*bd, i as int, j as int),
                    g.wf(),
                    g.width == width,
                    g.height == height,
                    g.depth == 8,
                    forall|i2: int, j2: int, d2: int|
                        0 <= i2 < i && 0 <= j2 < height && 0 <= d2 < 8 ==> #[trigger] g.at(
                            i2,
                            j2,
                            d2,
                        ) == se_byte(words_at(*bd, i2, j2), d2),
                    forall|j2: int, d2: int|
                        0 <= j2 < j && 0 <= d2 < 8 ==> #[trigger] g.at(i as int, j2, d2) == se_byte(
                            words_at(*bd, i as int, j2),
                            d2,
                        ),
                    forall|d2: int|
                        0 <= d2 < d ==> #[trigger] g.at(i as int, j as int, d2) == se_byte(
                            words_at(*bd, i as int, j as int),
                            d2,
                        ),
                decreases 8 - d,
            {
                let s = surge_offset(&dw, d);
                let e = escape_offset(&dw, d);
                proof {
                    lemma_ray_bounds(dw.words@, ray_step(d as int), 10);
                    lemma_ray_bounds(dw.words@, -ray_step(d as int), 7);
                }
                g.set(i, j, d, s + e * 16);
                d = d + 1;
            }
            j = j + 1;
        }
        i = i + 1;
    }
    g
}

/// Change of packed-window bit index per step in a compass direction.
pub open spec fn ray_step(direction: int) -> int {
    dir_dx(direction) + 21 * dir_dy(direction)
}

/// Offset of the furthest marked tile along a ray through a packed window,
/// probing up to `n` steps out from the centre bit; zero when none is marked.
pub open spec fn ray_offset(words: Seq<u64>, stp: int, n: int) -> int
    decreases n,
{
    if n <= 0 {
        0
    } else if bit_at(words, 220 + n * stp) {
        n
    } else {
        ray_offset(words, stp, n - 1)
    }
}

fn ray_step_of(direction: usize) -> (stp: i64)
    requires
        direction < 8,
    ensures
        stp == ray_step(direction as int),
        -22 <= stp <= 22,
{
    if direction == 0 {
        21
    } else if direction == 1 {
        22
    } else if direction == 2 {
        1
    } else if direction == 3 {
        -20
    } else if direction == 4 {
        -21
    } else if direction == 5 {
        -22
    } else if direction == 6 {
        -1
    } else {
        20
    }
}

fn ray_cast(w: &DashWindow, stp: i64, n: usize) -> (r: u8)
    requires
        w.wf(),
        -22 <= stp <= 22,
        n <= 10,
    ensures
        r as int == ray_offset(w.words@, stp as int, n as int),
{
    let mut current: i64 = 220;
    let mut offset: u8 = 0;
    let mut i: usize = 0;
    while i < n
        invariant
            w.wf(),
            -22 <= stp <= 22,
            i <= n <= 10,
            current == 220 + i * stp,
            offset as int == ray_offset(w.words@, stp as int, i as int),
        decreases n - i,
    {
        proof {
            assert((i as int + 1) * stp == i as int * stp + stp && -220 <= (i as int + 1) * stp
                <= 220) by (nonlinear_arith)
                requires
                    0 <= i as int + 1 <= 10,
                    -22 <= stp <= 22,
            ;
        }
        current = current + stp;
        if w.get_bit(current as usize) {
            offset = (i as u8) + 1;
        }
        i = i + 1;
    }
    offset
}

/// Furthest dash-reachable tile along the facing direction, up to ten steps:
/// the forward-teleport offset of a tile.
pub fn surge_offset(w: &DashWindow, direction: usize) -> (r: u8)
    requires
        w.wf(),
        direction < 8,
    ensures
        r as int == ray_offset(w.words@, ray_step(direction as int), 10),
{
    let stp = ray_step_of(direction);
    ray_cast(w, stp, 10)
}

/// Furthest dash-reachable tile opposite the facing direction, up to seven
/// steps: the backward-teleport offset of a tile.
pub fn escape_offset(w: &DashWindow, direction: usize) -> (r: u8)
    requires
        w.wf(),
        direction < 8,
    ensures
        r as int == ray_offset(w.words@, -ray_step(direction as int), 7),
{
    let stp = ray_step_of(direction);
    ray_cast(w, -stp, 7)
}

/// The absolute tile a dash-window bit index stands for, relative to the
/// window's origin tile.
pub open spec fn tile_of_idx(x: i64, y: i64, idx: int) -> (i64, i64) {
    ((x - 10 + idx % 21) as i64, (y - 10 + idx / 21) as i64)
}

/// Packs the dash reachability of `(x, y)` into the seven-word window
/// format; tiles outside the world extents are dropped.
pub fn process_bd_data(m: &MoveMap, x: i64, y: i64) -> (w: DashWindow)
    requires
        m.wf(),
        -COORD_BOUND + 24 <= x <= COORD_BOUND - 24,
        -COORD_BOUND + 24 <= y <= COORD_BOUND - 24,
    ensures
        w.wf(),
        forall|idx: int|
            0 <= idx < 441 ==> #[trigger] w.bit(idx) == (bd_range_spec(*m, x, y).contains(
                tile_of_idx(x, y, idx),
            ) && in_world(tile_of_idx(x, y, idx).0 as int, tile_of_idx(x, y, idx).1 as int)),
        forall|idx: int| 441 <= idx < 448 ==> !w.bit(idx),
{
    let win = bd_range(m, x, y);
    let mut w = DashWindow::empty();
    let mut idx: usize = 0;
    while idx < 441
        invariant
            w.wf(),
            win.len() == 441,
            win_set(win@, x, y) == bd_range_spec(*m, x, y),
            -COORD_BOUND + 24 <= x <= COORD_BOUND - 24,
            -COORD_BOUND + 24 <= y <= COORD_BOUND - 24,
            idx <= 441,
            forall|q: int|
                0 <= q < idx ==> #[trigger] w.bit(q) == (bd_range_spec(*m, x, y).contains(
                    tile_of_idx(x, y, q),
                ) && in_world(tile_of_idx(x, y, q).0 as int, tile_of_idx(x, y, q).1 as int)),
            forall|q: int| idx <= q < 448 ==> !w.bit(q),
        decreases 441 - idx,
    {
        let u = x - 10 + (idx % 21) as i64;
        let v = y - 10 + (idx / 21) as i64;
        assert((u, v) == tile_of_idx(x, y, idx as int));
        if win[idx] && 0 <= u && u < 6400 && 0 <= v && v < 12800 {
            w.set_bit(idx);
        }
        proof {
            assert(21 * (idx as int / 21) + idx as int % 21 == idx as int);
            assert(win_set(win@, x, y).contains((u, v)) == win@[idx as int]);
        }
        idx = idx + 1;
    }
    w
}

/// Sets the four-bit cell `p` of a pair of packed walk words.
pub open spec fn set_nibble2(wp: (u64, u64), p: int, val: u64) -> (u64, u64) {
    if p < 16 {
        ((wp.0 & !(15u64 << ((4 * p) as u64))) | (val << ((4 * p) as u64)), wp.1)
    } else {
        (wp.0, (wp.1 & !(15u64 << ((4 * (p - 16)) as u64))) | (val << ((4 * (p - 16)) as u64)))
    }
}

/// Folds a walk reachability list into the two packed walk words: every cell
/// starts absent (all ones) and each in-world tile writes its facing into
/// the cell of its offset in the 5×5 window.
pub open spec fn encode_walk_rec(tiles: Seq<(i64, i64, u8)>, x: i64, y: i64, k: int) -> (u64, u64)
    decreases k,
{
    if k <= 0 {
        (0xffff_ffff_ffff_ffffu64, 0xffff_ffff_ffff_ffffu64)
    } else {
        let wp = encode_walk_rec(tiles, x, y, k - 1);
        let t = tiles[k - 1];
        if in_world(t.0 as int, t.1 as int) {
            let p = (t.0 - x + 2) + (t.1 - y + 2) * 5;
            set_nibble2(wp, p, t.2 as u64)
        } else {
            wp
        }
    }
}

/// The packed walk words of a tile.
pub open spec fn walk_words(m: MoveMap, x: i64, y: i64) -> (u64, u64) {
    encode_walk_rec(walk_list(m, x, y), x, y, walk_list(m, x, y).len() as int)
}

/// Computes and packs the walk reachability of `(x, y)`.
pub fn process_walk_data(m: &MoveMap, x: i64, y: i64) -> (r: (u64, u64))
    requires
        m.wf(),
        -COORD_BOUND + 24 <= x <= COORD_BOUND - 24,
        -COORD_BOUND + 24 <= y <= COORD_BOUND - 24,
    ensures
        r == walk_words(*m, x, y),
{
    let tiles = walk_range(m, x, y);
    proof {
        lemma_walk_list_bounds(*m, x, y);
    }
    let mut lo: u64 = 0xffff_ffff_ffff_ffff;
    let mut hi: u64 = 0xffff_ffff_ffff_ffff;
    let mut k: usize = 0;
    while k < tiles.len()
        invariant
            tiles@ == walk_list(*m, x, y),
            -COORD_BOUND + 24 <= x <= COORD_BOUND - 24,
            -COORD_BOUND + 24 <= y <= COORD_BOUND - 24,
            k <= tiles.len(),
            forall|q: int|
                0 <= q < tiles@.len() ==> -2 <= (#[trigger] tiles@[q]).0 - x <= 2 && -2
                    <= tiles@[q].1 - y <= 2 && tiles@[q].2 < 8,
            (lo, hi) == encode_walk_rec(tiles@, x, y, k as int),
        decreases tiles.len() - k,
    {
        let t = tiles[k];
        if 0 <= t.0 && t.0 < 6400 && 0 <= t.1 && t.1 < 12800 {
            let p = ((t.0 - x + 2) + (t.1 - y + 2) * 5) as usize;
            let val = t.2 as u64;
            if p < 16 {
                let sh = (4 * p) as u64;
                lo = (lo & !(15u64 << sh)) | (val << sh);
            } else {
                let sh = (4 * (p - 16)) as u64;
                hi = (hi & !(15u64 << sh)) | (val << sh);
            }
        }
        k = k + 1;
    }
    (lo, hi)
}

/// One chunk of decoded movement bitmasks, addressed by chunk coordinates
/// and floor.
pub struct MoveChunk {
    pub cx: usize,
    pub cy: usize,
    pub floor: usize,
    pub grid: ByteGrid,
}

/// Whether a chunk carries the given chunk address.
pub open spec fn chunk_matches(c: MoveChunk, cx: int, cy: int, floor: int) -> bool {
    c.cx == cx && c.cy == cy && c.floor == floor
}

/// Every chunk holds a well-formed square grid of the given size.
pub open spec fn move_chunks_wf(s: Seq<MoveChunk>, cs: int) -> bool {
    forall|i: int|
        0 <= i < s.len() ==> (#[trigger] s[i]).grid.wf() && s[i].grid.width == cs
            && s[i].grid.height == cs
}

/// `j` is the index of the first chunk with the given address.
pub open spec fn first_chunk(s: Seq<MoveChunk>, cx: int, cy: int, floor: int, j: int) -> bool {
    &&& 0 <= j < s.len()
    &&& chunk_matches(s[j], cx, cy, floor)
    &&& forall|q: int| 0 <= q < j ==> !chunk_matches(#[trigger] s[q], cx, cy, floor)
}

/// The chunk list serves the chunk that covers tile `(x, y)`.
pub open spec fn tile_chunk_present(s: Seq<MoveChunk>, cs: int, floor: int, x: int, y: int) -> bool {
    exists|j: int| #[trigger] first_chunk(s, x / cs, y / cs, floor, j)
}

/// `v` is the movement bitmask the chunk list holds for tile `(x, y)`.
pub open spec fn chunk_value(s: Seq<MoveChunk>, cs: int, floor: int, x: int, y: int, v: u8) -> bool {
    exists|j: int|
        #[trigger] first_chunk(s, x / cs, y / cs, floor, j) && v == s[j].grid.at(x % cs, y % cs)
}

fn find_move_chunk(chunks: &Vec<MoveChunk>, cx: usize, cy: usize, floor: usize) -> (r: Option<
    usize,
>)
    ensures
        r matches Some(i) ==> first_chunk(chunks@, cx as int, cy as int, floor as int, i as int),
        r is None ==> forall|q: int|
            0 <= q < chunks@.len() ==> !chunk_matches(
                #[trigger] chunks@[q],
                cx as int,
                cy as int,
                floor as int,
            ),
{
    let mut i: usize = 0;
    while i < chunks.len()
        invariant
            i <= chunks.len(),
            forall|q: int|
                0 <= q < i ==> !chunk_matches(
                    #[trigger] chunks@[q],
                    cx as int,
                    cy as int,
                    floor as int,
                ),
        decreases chunks.len() - i,
    {
        let c = &chunks[i];
        if c.cx == cx && c.cy == cy && c.floor == floor {
            return Some(i);
        }
        i = i + 1;
    }
    None
}

/// Stitches the movement chunks covering a rectangular region into one
/// movement map, copying each tile's bitmask from the first chunk that
/// carries its chunk address; refused when a covering chunk is missing.
pub fn assemble_move_map(
    x0: usize,
    y0: usize,
    width: usize,
    height: usize,
    chunk_size: usize,
    floor: usize,
    chunks: &Vec<MoveChunk>,
) -> (r: Option<MoveMap>)
    requires
        1 <= chunk_size,
        move_chunks_wf(chunks@, chunk_size as int),
        x0 + width <= RS_LENGTH,
        y0 + height <= RS_HEIGHT,
    ensures
        r is Some <==> forall|x: int, y: int|
            x0 <= x < x0 + width && y0 <= y < y0 + height ==> #[trigger] tile_chunk_present(
                chunks@,
                chunk_size as int,
                floor as int,
                x,
                y,
            ),
        r matches Some(m) ==> {
            &&& m.wf()
            &&& m.x0 == x0
            &&& m.y0 == y0
            &&& m.grid.width == width
            &&& m.grid.height == height
            &&& forall|x: int, y: int|
                x0 <= x < x0 + width && y0 <= y < y0 + height ==> chunk_value(
                    chunks@,
                    chunk_size as int,
                    floor as int,
                    x,
                    y,
                    #[trigger] m.at(x, y),
                )
        },
{
    proof {
        assert(width * height <= 0x1000_0000) by (nonlinear_arith)
            requires
                width <= 6400,
                height <= 12800,
        ;
    }
    let mut grid = ByteGrid::new(width, height);
    let mut xi: usize = 0;
    while xi < width
        invariant
            1 <= chunk_size,
            move_chunks_wf(chunks@, chunk_size as int),
            x0 + width <= RS_LENGTH,
            y0 + height <= RS_HEIGHT,
            xi <= width,
            grid.wf(),
            grid.width == width,
            grid.height == height,
            forall|x: int, y: int|
                x0 <= x < x0 + xi && y0 <= y < y0 + height ==> #[trigger] tile_chunk_present(
                    chunks@,
                    chunk_size as int,
                    floor as int,
                    x,
                    y,
                ),
            forall|x: int, y: int|
                x0 <= x < x0 + xi && y0 <= y < y0 + height ==> chunk_value(
                    chunks@,
                    chunk_size as int,
                    floor as int,
                    x,
                    y,
                    #[trigger] grid.at(x - x0, y - y0),
                ),
        decreases width - xi,
    {
        let mut yi: usize = 0;
        while yi < height
            invariant
                1 <= chunk_size,
                move_chunks_wf(chunks@, chunk_size as int),
                x0 + width <= RS_LENGTH,
                y0 + height <= RS_HEIGHT,
                xi < width,
                yi <= height,
                grid.wf(),
                grid.width == width,
                grid.height == height,
                forall|x: int, y: int|
                    x0 <= x < x0 + xi && y0 <= y < y0 + height ==> #[trigger] tile_chunk_present(
                        chunks@,
                        chunk_size as int,
                        floor as int,
                        x,
                        y,
                    ),
                forall|y: int|
                    y0 <= y < y0 + yi ==> #[trigger] tile_chunk_present(
                        chunks@,
                        chunk_size as int,
                        floor as int,
                        x0 + xi,
                        y,
                    ),
                forall|x: int, y: int|
                    x0 <= x < x0 + xi && y0 <= y < y0 + height ==> chunk_value(
                        chunks@,
                        chunk_size as int,
                        floor as int,
                        x,
                        y,
                        #[trigger] grid.at(x - x0, y - y0),
                    ),
                forall|y: int|
                    y0 <= y < y0 + yi ==> chunk_value(
                        chunks@,
                        chunk_size as int,
                        floor as int,
                        x0 + xi,
                        y,
                        #[trigger] grid.at(xi as int, y - y0),
                    ),
            decreases height - yi,
        {
            let gx = x0 + xi;
            let gy = y0 + yi;
            let ji = match find_move_chunk(chunks, gx / chunk_size, gy / chunk_size, floor) {
                Some(ji) => ji,
                None => {
                    proof {
                        if tile_chunk_present(
                            chunks@,
                            chunk_size as int,
                            floor as int,
                            gx as int,
                            gy as int,
                        ) {
                            let j = choose|j: int|
                                #[trigger] first_chunk(
                                    chunks@,
                                    gx as int / chunk_size as int,
                                    gy as int / chunk_size as int,
                                    floor as int,
                                    j,
                                );
                            assert(chunk_matches(
                                chunks@[j],
                                gx as int / chunk_size as int,
                                gy as int / chunk_size as int,
                                floor as int,
                            ));
                        }
                    }
                    return None;
                },
            };
            let c = &chunks[ji];
            let v = c.grid.get(gx % chunk_size, gy % chunk_size);
            grid.set(xi, yi, v);
            proof {
                assert(first_chunk(
                    chunks@,
                    gx as int / chunk_size as int,
                    gy as int / chunk_size as int,
                    floor as int,
                    ji as int,
                ));
                assert(tile_chunk_present(
                    chunks@,
                    chunk_size as int,
                    floor as int,
                    gx as int,
                    gy as int,
                ));
                assert(chunk_value(
                    chunks@,
                    chunk_size as int,
                    floor as int,
                    gx as int,
                    gy as int,
                    grid.at(xi as int, yi as int),
                ));
            }
            yi = yi + 1;
        }
        xi = xi + 1;
    }
    let m = MoveMap { x0, y0, grid };
    proof {
        assert forall|x: int, y: int|
            x0 <= x < x0 + width && y0 <= y < y0 + height implies chunk_value(
            chunks@,
            chunk_size as int,
            floor as int,
            x,
            y,
            #[trigger] m.at(x, y),
        ) by {
            assert(m.at(x, y) == m.grid.at(x - x0, y - y0));
        }
    }
    Some(m)
}

/// Walk reachability stays within two tiles of the origin and records valid
/// facings.
proof fn lemma_expand_tile_bounds(
    m: MoveMap,
    x: i64,
    y: i64,
    sx: i64,
    sy: i64,
    tiles: Seq<(i64, i64, u8)>,
    vis: Set<(i64, i64)>,
    i: int,
)
    requires
        -COORD_BOUND + 4 <= x <= COORD_BOUND - 4,
        -COORD_BOUND + 4 <= y <= COORD_BOUND - 4,
        -1 <= sx - x <= 1,
        -1 <= sy - y <= 1,
        i <= 8,
        forall|q: int|
            0 <= q < tiles.len() ==> -2 <= (#[trigger] tiles[q]).0 - x <= 2 && -2 <= tiles[q].1 - y
                <= 2 && tiles[q].2 < 8,
    ensures
        forall|q: int|
            0 <= q < walk_expand_tile(m, sx, sy, tiles, vis, i).0.len() ==> -2 <= (
            #[trigger] walk_expand_tile(m, sx, sy, tiles, vis, i).0[q]).0 - x <= 2 && -2
                <= walk_expand_tile(m, sx, sy, tiles, vis, i).0[q].1 - y <= 2 && walk_expand_tile(
                m,
                sx,
                sy,
                tiles,
                vis,
                i,
            ).0[q].2 < 8,
    decreases i,
{
    if i > 0 {
        lemma_expand_tile_bounds(m, x, y, sx, sy, tiles, vis, i - 1);
        let prev = walk_expand_tile(m, sx, sy, tiles, vis, i - 1);
        let j = i - 1;
        let p = step_tile(sx, sy, j);
        if spec_free_direction(m.at(sx as int, sy as int), j) && !prev.1.contains(p) {
            assert(-2 <= p.0 - x <= 2 && -2 <= p.1 - y <= 2);
            assert(walk_expand_tile(m, sx, sy, tiles, vis, i).0 == prev.0.push(
                (p.0, p.1, j as u8),
            ));
        }
    }
}

proof fn lemma_expand_bounds(
    m: MoveMap,
    x: i64,
    y: i64,
    seeds: Seq<(i64, i64)>,
    tiles: Seq<(i64, i64, u8)>,
    vis: Set<(i64, i64)>,
    k: int,
)
    requires
        -COORD_BOUND + 4 <= x <= COORD_BOUND - 4,
        -COORD_BOUND + 4 <= y <= COORD_BOUND - 4,
        k <= seeds.len(),
        forall|q: int|
            0 <= q < seeds.len() ==> -1 <= (#[trigger] seeds[q]).0 - x <= 1 && -1 <= seeds[q].1 - y
                <= 1,
        forall|q: int|
            0 <= q < tiles.len() ==> -2 <= (#[trigger] tiles[q]).0 - x <= 2 && -2 <= tiles[q].1 - y
                <= 2 && tiles[q].2 < 8,
    ensures
        forall|q: int|
            0 <= q < walk_expand(m, seeds, tiles, vis, k).0.len() ==> -2 <= (#[trigger] walk_expand(
                m,
                seeds,
                tiles,
                vis,
                k,
            ).0[q]).0 - x <= 2 && -2 <= walk_expand(m, seeds, tiles, vis, k).0[q].1 - y <= 2
                && walk_expand(m, seeds, tiles, vis, k).0[q].2 < 8,
    decreases k,
{
    if k > 0 {
        lemma_expand_bounds(m, x, y, seeds, tiles, vis, k - 1);
        let prev = walk_expand(m, seeds, tiles, vis, k - 1);
        lemma_expand_tile_bounds(m, x, y, seeds[k - 1].0, seeds[k - 1].1, prev.0, prev.1, 8);
    }
}

/// Every recorded walk tile lies within two tiles of the origin and carries
/// a facing below eight.
pub proof fn lemma_walk_list_bounds(m: MoveMap, x: i64, y: i64)
    requires
        -COORD_BOUND + 4 <= x <= COORD_BOUND - 4,
        -COORD_BOUND + 4 <= y <= COORD_BOUND - 4,
    ensures
        forall|q: int|
            0 <= q < walk_list(m, x, y).len() ==> -2 <= (#[trigger] walk_list(m, x, y)[q]).0 - x
                <= 2 && -2 <= walk_list(m, x, y)[q].1 - y <= 2 && walk_list(m, x, y)[q].2 < 8,
{
    lemma_seeds_near(m, x, y, 8);
    lemma_seed_tiles_bounds(m, x, y, 8);
    let seeded = walk_seeds(m, x, y, 8);
    lemma_expand_bounds(m, x, y, seeded.2, seeded.0, seeded.1, seeded.2.len() as int);
}

/// Tiles recorded while seeding are direct neighbours with valid facings.
proof fn lemma_seed_tiles_bounds(m: MoveMap, x: i64, y: i64, i: int)
    requires
        -COORD_BOUND + 4 <= x <= COORD_BOUND - 4,
        -COORD_BOUND + 4 <= y <= COORD_BOUND - 4,
    ensures
        forall|q: int|
            0 <= q < walk_seeds(m, x, y, i).0.len() ==> -2 <= (#[trigger] walk_seeds(
                m,
                x,
                y,
                i,
            ).0[q]).0 - x <= 2 && -2 <= walk_seeds(m, x, y, i).0[q].1 - y <= 2 && walk_seeds(
                m,
                x,
                y,
                i,
            ).0[q].2 < 8,
    decreases i,
{
    if i > 0 {
        lemma_seed_tiles_bounds(m, x, y, i - 1);
        let prev = walk_seeds(m, x, y, i - 1);
        let j = visit_order(i - 1);
        assert(0 <= j < 8);
        if spec_free_direction(m.at(x as int, y as int), j) {
            let p = step_tile(x, y, j);
            assert(-2 <= p.0 - x <= 2 && -2 <= p.1 - y <= 2);
            assert(walk_seeds(m, x, y, i).0 == prev.0.push((p.0, p.1, j as u8)));
        }
    }
}

/// Seed tiles of the walk fill are direct neighbours of the origin.
proof fn lemma_seeds_near(m: MoveMap, x: i64, y: i64, i: int)
    requires
        -COORD_BOUND + 4 <= x <= COORD_BOUND - 4,
        -COORD_BOUND + 4 <= y <= COORD_BOUND - 4,
    ensures
        forall|q: int|
            0 <= q < walk_seeds(m, x, y, i).2.len() ==> -1 <= (#[trigger] walk_seeds(
                m,
                x,
                y,
                i,
            ).2[q]).0 - x <= 1 && -1 <= walk_seeds(m, x, y, i).2[q].1 - y <= 1,
    decreases i,
{
    if i > 0 {
        lemma_seeds_near(m, x, y, i - 1);
        let prev = walk_seeds(m, x, y, i - 1);
        let j = visit_order(i - 1);
        assert(0 <= j < 8);
        if spec_free_direction(m.at(x as int, y as int), j) {
            let p = step_tile(x, y, j);
            assert(-1 <= p.0 - x <= 1 && -1 <= p.1 - y <= 1);
            assert(walk_seeds(m, x, y, i).2 == prev.2.push(p));
        }
    }
}

} // verus!
