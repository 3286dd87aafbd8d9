//! A queryable map section.
//!
//! A section covers one bounding box of one floor: it stitches the chunk
//! data overlapping the box into region-local arrays, decodes the packed
//! walk and dash data of every tile into destination lists once, and then
//! answers reachability queries by plain lookup.

use vstd::prelude::*;
use crate::grid::ByteGrid3;
use crate::grid::WordGrid3;
use crate::util::dir_dx;
use crate::util::dir_dy;
use crate::window::bit_at;

verus! {

/// Magnitude of an integer.
pub open spec fn abs_of(v: int) -> int {
    if v < 0 {
        -v
    } else {
        v
    }
}

/// Compass direction of a relative offset, bucketing the plane into eight
/// sectors. Axis-aligned offsets take the axis direction; otherwise the
/// sector test compares the slope against the diagonal with the tie broken
/// toward the diagonals.
pub open spec fn classify_direction_spec(dx: int, dy: int) -> u8 {
    if dx == 0 {
        if dy > 0 {
            0
        } else {
            4
        }
    } else if dy == 0 {
        if dx > 0 {
            2
        } else {
            6
        }
    } else if (14 * abs_of(dx) + 7) / (2 * abs_of(dy) + 1) > 15 {
        if dx > 0 {
            2
        } else {
            6
        }
    } else if (14 * abs_of(dy) + 7) / (2 * abs_of(dx) + 1) > 15 {
        if dy > 0 {
            0
        } else {
            4
        }
    } else if dx > 0 {
        if dy > 0 {
            1
        } else {
            3
        }
    } else if dx < 0 {
        if dy > 0 {
            7
        } else {
            5
        }
    } else {
        0
    }
}

/// Classifies a relative offset into one of the eight compass directions.
pub fn classify_direction(dx: i64, dy: i64) -> (r: u8)
    requires
        -1_000_000 <= dx <= 1_000_000,
        -1_000_000 <= dy <= 1_000_000,
    ensures
        r == classify_direction_spec(dx as int, dy as int),
        r < 8,
{
    let ax = if dx < 0 {
        -dx
    } else {
        dx
    };
    let ay = if dy < 0 {
        -dy
    } else {
        dy
    };
    if dx == 0 {
        if dy > 0 {
            0
        } else {
            4
        }
    } else if dy == 0 {
        if dx > 0 {
            2
        } else {
            6
        }
    } else if (14 * ax + 7) / (2 * ay + 1) > 15 {
        if dx > 0 {
            2
        } else {
            6
        }
    } else if (14 * ay + 7) / (2 * ax + 1) > 15 {
        if dy > 0 {
            0
        } else {
            4
        }
    } else if dx > 0 {
        if dy > 0 {
            1
        } else {
            3
        }
    } else {
        if dy > 0 {
            7
        } else {
            5
        }
    }
}

/// An offset on a diagonal classifies as that diagonal, never as an axis
/// direction; an axis-aligned offset classifies as exactly that axis
/// direction.
pub proof fn lemma_diagonal_classification(dx: int, dy: int)
    requires
        dx != 0 || dy != 0,
    ensures
        abs_of(dx) == abs_of(dy) && dx != 0 ==> classify_direction_spec(dx, dy) == (if dx > 0 && dy
            > 0 {
            1u8
        } else if dx > 0 {
            3u8
        } else if dy > 0 {
            7u8
        } else {
            5u8
        }),
        dx == 0 ==> classify_direction_spec(dx, dy) == (if dy > 0 {
            0u8
        } else {
            4u8
        }),
        dy == 0 && dx != 0 ==> classify_direction_spec(dx, dy) == (if dx > 0 {
            2u8
        } else {
            6u8
        }),
{
    if abs_of(dx) == abs_of(dy) && dx != 0 {
        let k = abs_of(dx);
        assert(14 * k + 7 == 7 * (2 * k + 1));
        assert((7 * (2 * k + 1)) / (2 * k + 1) == 7) by (nonlinear_arith)
            requires
                k >= 1,
        ;
    }
}

/// The four-bit cell `j` of a packed walk word.
pub open spec fn nib(w: u64, j: int) -> u64 {
    (w >> ((4 * j) as u64)) & 15
}

/// Decodes the first `p` cells of a tile's packed walk words into the
/// destination list: a cell whose value is a valid direction yields the tile
/// at the cell's offset in the 5×5 window around `(x, y)`, tagged with that
/// direction; values eight and above mean no destination, as do offsets
/// whose coordinates leave the representable range.
pub open spec fn decode_walk_rec(lo: u64, hi: u64, x: int, y: int, p: int) -> Seq<(u16, u16, u8)>
    decreases p,
{
    if p <= 0 {
        Seq::empty()
    } else {
        let prev = decode_walk_rec(lo, hi, x, y, p - 1);
        let q = p - 1;
        let d = if q < 16 {
            nib(lo, q)
        } else {
            nib(hi, q - 16)
        };
        if d < 8 {
            let u = x - 2 + q % 5;
            let v = y - 2 + q / 5;
            if 0 <= u <= 65535 && 0 <= v <= 65535 {
                prev.push((u as u16, v as u16, d as u8))
            } else {
                prev
            }
        } else {
            prev
        }
    }
}

/// The walk destination list of a tile.
pub open spec fn decode_walk_spec(lo: u64, hi: u64, x: int, y: int) -> Seq<(u16, u16, u8)> {
    decode_walk_rec(lo, hi, x, y, 32)
}

/// Decodes a tile's packed walk words.
pub fn decode_walk(lo: u64, hi: u64, x: u16, y: u16) -> (tiles: Vec<(u16, u16, u8)>)
    ensures
        tiles@ == decode_walk_spec(lo, hi, x as int, y as int),
{
    let mut tiles: Vec<(u16, u16, u8)> = Vec::new();
    let mut p: usize = 0;
    while p < 32
        invariant
            p <= 32,
            tiles@ == decode_walk_rec(lo, hi, x as int, y as int, p as int),
        decreases 32 - p,
    {
        let d = if p < 16 {
            (lo >> ((4 * p) as u64)) & 15
        } else {
            (hi >> ((4 * (p - 16)) as u64)) & 15
        };
        if d < 8 {
            let u = x as i64 - 2 + (p % 5) as i64;
            let v = y as i64 - 2 + (p / 5) as i64;
            if 0 <= u && u <= 65535 && 0 <= v && v <= 65535 {
                tiles.push((u as u16, v as u16, d as u8));
            }
        }
        p = p + 1;
    }
    tiles
}

/// Decodes the first `p` bits of a tile's packed dash window into the
/// destination list: each set bit yields the tile at the bit's offset in the
/// 21×21 window around `(x, y)`, tagged with the compass direction of the
/// offset; offsets whose coordinates leave the representable range yield no
/// destination.
pub open spec fn decode_bd_rec(words: Seq<u64>, x: int, y: int, p: int) -> Seq<(u16, u16, u8)>
    decreases p,
{
    if p <= 0 {
        Seq::empty()
    } else {
        let prev = decode_bd_rec(words, x, y, p - 1);
        let q = p - 1;
        if bit_at(words, q) {
            let u = x - 10 + q % 21;
            let v = y - 10 + q / 21;
            if 0 <= u <= 65535 && 0 <= v <= 65535 {
                prev.push((u as u16, v as u16, classify_direction_spec(u - x, v - y)))
            } else {
                prev
            }
        } else {
            prev
        }
    }
}

/// The dash destination list of a tile.
pub open spec fn decode_bd_spec(words: Seq<u64>, x: int, y: int) -> Seq<(u16, u16, u8)> {
    decode_bd_rec(words, x, y, 448)
}

/// Decoded walk destinations always carry a valid facing.
proof fn lemma_decode_walk_dirs(lo: u64, hi: u64, x: int, y: int, p: int)
    ensures
        forall|i: int|
            0 <= i < decode_walk_rec(lo, hi, x, y, p).len() ==> (#[trigger] decode_walk_rec(
                lo,
                hi,
                x,
                y,
                p,
            )[i]).2 < 8,
    decreases p,
{
    if p > 0 {
        lemma_decode_walk_dirs(lo, hi, x, y, p - 1);
        let prev = decode_walk_rec(lo, hi, x, y, p - 1);
        let q = p - 1;
        let d = if q < 16 {
            nib(lo, q)
        } else {
            nib(hi, q - 16)
        };
        let u = x - 2 + q % 5;
        let v = y - 2 + q / 5;
        if d < 8 && 0 <= u <= 65535 && 0 <= v <= 65535 {
            assert(decode_walk_rec(lo, hi, x, y, p) == prev.push((u as u16, v as u16, d as u8)));
            assert((d as u8) < 8);
        }
    }
}

/// Decoded dash destinations always carry a valid facing.
proof fn lemma_decode_bd_dirs(words: Seq<u64>, x: int, y: int, p: int)
    ensures
        forall|i: int|
            0 <= i < decode_bd_rec(words, x, y, p).len() ==> (#[trigger] decode_bd_rec(
                words,
                x,
                y,
                p,
            )[i]).2 < 8,
    decreases p,
{
    if p > 0 {
        lemma_decode_bd_dirs(words, x, y, p - 1);
        let prev = decode_bd_rec(words, x, y, p - 1);
        let q = p - 1;
        let u = x - 10 + q % 21;
        let v = y - 10 + q / 21;
        if bit_at(words, q) && 0 <= u <= 65535 && 0 <= v <= 65535 {
            assert(decode_bd_rec(words, x, y, p) == prev.push(
                (u as u16, v as u16, classify_direction_spec(u - x, v - y)),
            ));
            assert(classify_direction_spec(u - x, v - y) < 8);
        }
    }
}

/// The set of positions a decoded destination list mentions.
pub open spec fn decoded_positions(s: Seq<(u16, u16, u8)>) -> Set<(int, int)> {
    Set::new(
        |p: (int, int)|
            exists|i: int|
                0 <= i < s.len() && (#[trigger] s[i]).0 == p.0 && s[i].1 == p.1,
    )
}

proof fn lemma_decode_bd_contains(words: Seq<u64>, x: int, y: int, p: int, u: int, v: int)
    requires
        0 <= p <= 448,
        10 <= x,
        x + 10 <= 65535,
        10 <= y,
        y + 11 <= 65535,
    ensures
        (exists|i: int|
            0 <= i < decode_bd_rec(words, x, y, p).len() && (#[trigger] decode_bd_rec(
                words,
                x,
                y,
                p,
            )[i]).0 == u && decode_bd_rec(words, x, y, p)[i].1 == v) <==> (exists|q: int|
            0 <= q < p && #[trigger] bit_at(words, q) && x - 10 + q % 21 == u && y - 10 + q / 21
                == v),
    decreases p,
{
    if p > 0 {
        lemma_decode_bd_contains(words, x, y, p - 1, u, v);
        let prev = decode_bd_rec(words, x, y, p - 1);
        let cur = decode_bd_rec(words, x, y, p);
        let q = p - 1;
        let pu = x - 10 + q % 21;
        let pv = y - 10 + q / 21;
        assert(0 <= q % 21 <= 20);
        assert(0 <= q / 21 <= 21);
        assert(0 <= pu <= 65535 && 0 <= pv <= 65535 + 11);
        if bit_at(words, q) {
            assert(0 <= pv <= 65535);
            assert(cur == prev.push((pu as u16, pv as u16, classify_direction_spec(pu - x, pv - y))));
            if pu == u && pv == v {
                assert(cur[cur.len() - 1].0 == u && cur[cur.len() - 1].1 == v);
            }
            assert forall|i: int|
                0 <= i < cur.len() && (#[trigger] cur[i]).0 == u && cur[i].1 == v implies (
            exists|q2: int|
                0 <= q2 < p && #[trigger] bit_at(words, q2) && x - 10 + q2 % 21 == u && y - 10 + q2
                    / 21 == v) by {
                if i < prev.len() {
                    assert(prev[i].0 == u && prev[i].1 == v);
                } else {
                    assert(bit_at(words, q) && x - 10 + q % 21 == u && y - 10 + q / 21 == v);
                }
            }
            if exists|q2: int|
                0 <= q2 < p && #[trigger] bit_at(words, q2) && x - 10 + q2 % 21 == u && y - 10 + q2
                    / 21 == v {
                let q2 = choose|q2: int|
                    0 <= q2 < p && #[trigger] bit_at(words, q2) && x - 10 + q2 % 21 == u && y - 10
                        + q2 / 21 == v;
                if q2 < p - 1 {
                    let i0 = choose|i: int|
                        0 <= i < prev.len() && (#[trigger] prev[i]).0 == u && prev[i].1 == v;
                    assert(cur[i0].0 == u && cur[i0].1 == v);
                }
            }
        } else {
            assert(cur == prev);
        }
    }
}

/// Round trip of the dash window: a packed window with clear padding bits
/// decodes to exactly the tiles whose window bits are set. Together with the
/// builder's packing contract this says that encoding a reachable tile set
/// and decoding it back yields the same set.
pub proof fn lemma_dash_round_trip(words: Seq<u64>, x: int, y: int, u: int, v: int)
    requires
        forall|q: int| 441 <= q < 448 ==> !#[trigger] bit_at(words, q),
        10 <= x,
        x + 10 <= 65535,
        10 <= y,
        y + 11 <= 65535,
    ensures
        decoded_positions(decode_bd_spec(words, x, y)).contains((u, v)) <==> (-10 <= u - x <= 10
            && -10 <= v - y <= 10 && bit_at(words, (v - y + 10) * 21 + (u - x + 10))),
{
    lemma_decode_bd_contains(words, x, y, 448, u, v);
    if decoded_positions(decode_bd_spec(words, x, y)).contains((u, v)) {
        let q = choose|q: int|
            0 <= q < 448 && #[trigger] bit_at(words, q) && x - 10 + q % 21 == u && y - 10 + q / 21
                == v;
        assert(q < 441);
        vstd::arithmetic::div_mod::lemma_fundamental_div_mod(q, 21);
        assert(q == (v - y + 10) * 21 + (u - x + 10));
    }
    if -10 <= u - x <= 10 && -10 <= v - y <= 10 && bit_at(
        words,
        (v - y + 10) * 21 + (u - x + 10),
    ) {
        let q = (v - y + 10) * 21 + (u - x + 10);
        vstd::arithmetic::div_mod::lemma_fundamental_div_mod_converse(
            q,
            21,
            v - y + 10,
            u - x + 10,
        );
        assert(0 <= q < 448 && bit_at(words, q) && x - 10 + q % 21 == u && y - 10 + q / 21 == v);
    }
}

/// Decodes a tile's packed dash window.
pub fn decode_bd(words: &Vec<u64>, x: u16, y: u16) -> (tiles: Vec<(u16, u16, u8)>)
    requires
        words.len() == 7,
    ensures
        tiles@ == decode_bd_spec(words@, x as int, y as int),
{
    let mut tiles: Vec<(u16, u16, u8)> = Vec::new();
    let mut p: usize = 0;
    while p < 448
        invariant
            p <= 448,
            words.len() == 7,
            tiles@ == decode_bd_rec(words@, x as int, y as int, p as int),
        decreases 448 - p,
    {
        let w = words[p / 64];
        if (w >> ((p % 64) as u64)) & 1 == 1 {
            let u = x as i64 - 10 + (p % 21) as i64;
            let v = y as i64 - 10 + (p / 21) as i64;
            if 0 <= u && u <= 65535 && 0 <= v && v <= 65535 {
                let d = classify_direction(u - x as i64, v - y as i64);
                tiles.push((u as u16, v as u16, d));
            }
        }
        p = p + 1;
    }
    tiles
}

/// One chunk of the persisted per-tile datasets, addressed by chunk
/// coordinates and floor.
pub struct SectionChunk {
    pub cx: usize,
    pub cy: usize,
    pub floor: usize,
    pub bd: WordGrid3,
    pub walk: WordGrid3,
    pub se: ByteGrid3,
}

/// Whether a chunk carries the given chunk address.
pub open spec fn section_chunk_matches(c: SectionChunk, cx: int, cy: int, floor: int) -> bool {
    c.cx == cx && c.cy == cy && c.floor == floor
}

/// `j` is the index of the first chunk with the given address.
pub open spec fn first_section_chunk(
    s: Seq<SectionChunk>,
    cx: int,
    cy: int,
    floor: int,
    j: int,
) -> bool {
    &&& 0 <= j < s.len()
    &&& section_chunk_matches(s[j], cx, cy, floor)
    &&& forall|q: int| 0 <= q < j ==> !section_chunk_matches(#[trigger] s[q], cx, cy, floor)
}

proof fn lemma_first_section_unique(s: Seq<SectionChunk>, cx: int, cy: int, floor: int, a: int, b: int)
    requires
        first_section_chunk(s, cx, cy, floor, a),
        first_section_chunk(s, cx, cy, floor, b),
    ensures
        a == b,
{
}

/// The loaded chunks a section is stitched from, all of one square size.
pub struct ChunkStore {
    pub chunk_size: usize,
    pub chunks: Vec<SectionChunk>,
}

impl ChunkStore {
    pub open spec fn wf(self) -> bool {
        &&& 1 <= self.chunk_size
        &&& forall|i: int|
            0 <= i < self.chunks@.len() ==> {
                let c = #[trigger] self.chunks@[i];
                &&& c.bd.wf()
                &&& c.bd.width == self.chunk_size
                &&& c.bd.height == self.chunk_size
                &&& c.bd.depth == 7
                &&& c.walk.wf()
                &&& c.walk.width == self.chunk_size
                &&& c.walk.height == self.chunk_size
                &&& c.walk.depth == 2
                &&& c.se.wf()
                &&& c.se.width == self.chunk_size
                &&& c.se.height == self.chunk_size
                &&& c.se.depth == 8
            }
    }

    /// The store holds the chunk covering tile `(x, y)`.
    pub open spec fn covers(self, floor: int, x: int, y: int) -> bool {
        exists|j: int|
            #[trigger] first_section_chunk(
                self.chunks@,
                x / self.chunk_size as int,
                y / self.chunk_size as int,
                floor,
                j,
            )
    }

    /// The chunk serving tile `(x, y)`: the first one with its address.
    pub open spec fn chunk_of(self, floor: int, x: int, y: int) -> SectionChunk {
        self.chunks@[choose|j: int|
            #[trigger] first_section_chunk(
                self.chunks@,
                x / self.chunk_size as int,
                y / self.chunk_size as int,
                floor,
                j,
            )]
    }

    /// The stored dash window words of tile `(x, y)`.
    pub open spec fn bd_words_of(self, floor: int, x: int, y: int) -> Seq<u64> {
        Seq::new(
            7,
            |k: int|
                self.chunk_of(floor, x, y).bd.at(
                    x % self.chunk_size as int,
                    y % self.chunk_size as int,
                    k,
                ),
        )
    }

    /// The stored packed walk words of tile `(x, y)`.
    pub open spec fn walk_words_of(self, floor: int, x: int, y: int) -> (u64, u64) {
        (
            self.chunk_of(floor, x, y).walk.at(
                x % self.chunk_size as int,
                y % self.chunk_size as int,
                0,
            ),
            self.chunk_of(floor, x, y).walk.at(
                x % self.chunk_size as int,
                y % self.chunk_size as int,
                1,
            ),
        )
    }

    /// The stored teleport-offset byte of tile `(x, y)` for one direction.
    pub open spec fn se_of(self, floor: int, x: int, y: int, d: int) -> u8 {
        self.chunk_of(floor, x, y).se.at(
            x % self.chunk_size as int,
            y % self.chunk_size as int,
            d,
        )
    }
}

fn find_section_chunk(chunks: &Vec<SectionChunk>, cx: usize, cy: usize, floor: usize) -> (r:
    Option<usize>)
    ensures
        r matches Some(i) ==> first_section_chunk(
            chunks@,
            cx as int,
            cy as int,
            floor as int,
            i as int,
        ),
        r is None ==> forall|q: int|
            0 <= q < chunks@.len() ==> !section_chunk_matches(
                #[trigger] chunks@[q],
                cx as int,
                cy as int,
                floor as int,
            ),
{
    let mut i: usize = 0;
    while i < chunks.len()
        invariant
            i <= chunks.len(),
            forall|q: int|
                0 <= q < i ==> !section_chunk_matches(
                    #[trigger] chunks@[q],
                    cx as int,
                    cy as int,
                    floor as int,
                ),
        decreases chunks.len() - i,
    {
        let c = &chunks[i];
        if c.cx == cx && c.cy == cy && c.floor == floor {
            return Some(i);
        }
        i = i + 1;
    }
    None
}

/// Teleport destinations computed from an offset byte stay representable.
pub open spec fn dest_ok(x: int, y: int, d: int, b: u8) -> bool {
    &&& 0 <= x + dir_dx(d) * ((b & 15) as int) <= 65535
    &&& 0 <= y + dir_dy(d) * ((b & 15) as int) <= 65535
    &&& 0 <= x - dir_dx(d) * ((b >> 4) as int) <= 65535
    &&& 0 <= y - dir_dy(d) * ((b >> 4) as int) <= 65535
}

/// A stitched, decoded map section over one bounding box of one floor.
pub struct MapSection {
    pub floor: usize,
    pub x_start: usize,
    pub x_end: usize,
    pub y_start: usize,
    pub y_end: usize,
    pub se_data: ByteGrid3,
    pub walk_table: Vec<Vec<(u16, u16, u8)>>,
    pub bd_table: Vec<Vec<(u16, u16, u8)>>,
}

impl MapSection {
    pub open spec fn width(self) -> int {
        self.x_end - self.x_start + 1
    }

    pub open spec fn height(self) -> int {
        self.y_end - self.y_start + 1
    }

    /// Whether a tile lies within the section's bounding box.
    pub open spec fn contains(self, x: int, y: int) -> bool {
        self.x_start <= x <= self.x_end && self.y_start <= y <= self.y_end
    }

    pub open spec fn tidx(self, x: int, y: int) -> int {
        (x - self.x_start) * self.height() + (y - self.y_start)
    }

    /// The teleport-offset byte of a tile for one direction.
    pub open spec fn se_at(self, x: int, y: int, d: int) -> u8 {
        self.se_data.at(x - self.x_start, y - self.y_start, d)
    }

    /// The decoded walk destination list of a tile.
    pub open spec fn walk_at(self, x: int, y: int) -> Seq<(u16, u16, u8)> {
        self.walk_table@[self.tidx(x, y)]@
    }

    /// The decoded dash destination list of a tile.
    pub open spec fn bd_at(self, x: int, y: int) -> Seq<(u16, u16, u8)> {
        self.bd_table@[self.tidx(x, y)]@
    }

    /// Destination of a forward teleport from `(x, y)` facing `d`.
    pub open spec fn surge_dest(self, x: int, y: int, d: int) -> (int, int) {
        (
            x + dir_dx(d) * ((self.se_at(x, y, d) & 15) as int),
            y + dir_dy(d) * ((self.se_at(x, y, d) & 15) as int),
        )
    }

    /// Destination of a backward teleport from `(x, y)` facing `d`.
    pub open spec fn escape_dest(self, x: int, y: int, d: int) -> (int, int) {
        (
            x - dir_dx(d) * ((self.se_at(x, y, d) >> 4) as int),
            y - dir_dy(d) * ((self.se_at(x, y, d) >> 4) as int),
        )
    }

    pub open spec fn wf(self) -> bool {
        &&& self.x_start <= self.x_end <= 65535
        &&& self.y_start <= self.y_end <= 65535
        &&& self.se_data.wf()
        &&& self.se_data.width == self.width()
        &&& self.se_data.height == self.height()
        &&& self.se_data.depth == 8
        &&& self.walk_table.len() == self.width() * self.height()
        &&& self.bd_table.len() == self.width() * self.height()
        &&& forall|x: int, y: int, d: int|
            self.contains(x, y) && 0 <= d < 8 ==> dest_ok(x, y, d, #[trigger] self.se_at(x, y, d))
        &&& forall|x: int, y: int, i: int|
            self.contains(x, y) && 0 <= i < self.walk_at(x, y).len() ==> (#[trigger] self.walk_at(
                x,
                y,
            )[i]).2 < 8
        &&& forall|x: int, y: int, i: int|
            self.contains(x, y) && 0 <= i < self.bd_at(x, y).len() ==> (#[trigger] self.bd_at(
                x,
                y,
            )[i]).2 < 8
    }

    /// Walk destinations of a tile of the section, by plain lookup.
    pub fn walk_range(&self, x: u16, y: u16) -> (r: &Vec<(u16, u16, u8)>)
        requires
            self.wf(),
            self.contains(x as int, y as int),
        ensures
            r@ == self.walk_at(x as int, y as int),
    {
        proof {
            lemma_section_idx(*self, x as int, y as int);
        }
        let h = self.y_end - self.y_start + 1;
        &self.walk_table[(x as usize - self.x_start) * h + (y as usize - self.y_start)]
    }

    /// Dash destinations of a tile of the section, by plain lookup.
    pub fn bd_range(&self, x: u16, y: u16) -> (r: &Vec<(u16, u16, u8)>)
        requires
            self.wf(),
            self.contains(x as int, y as int),
        ensures
            r@ == self.bd_at(x as int, y as int),
    {
        proof {
            lemma_section_idx(*self, x as int, y as int);
        }
        let h = self.y_end - self.y_start + 1;
        &self.bd_table[(x as usize - self.x_start) * h + (y as usize - self.y_start)]
    }

    /// Applies the stored forward-teleport offset of `(x, y)` along the
    /// facing direction.
    pub fn surge_range(&self, x: u16, y: u16, direction: u8) -> (r: (usize, usize))
        requires
            self.wf(),
            self.contains(x as int, y as int),
            direction < 8,
        ensures
            (r.0 as int, r.1 as int) == self.surge_dest(x as int, y as int, direction as int),
    {
        let b = self.se_data.get(
            x as usize - self.x_start,
            y as usize - self.y_start,
            direction as usize,
        );
        let offset = (b & 15) as usize;
        assert(b == self.se_at(x as int, y as int, direction as int));
        assert(dest_ok(x as int, y as int, direction as int, b));
        proof {
            lemma_unit_mul(dir_dx(direction as int), (b & 15) as int);
            lemma_unit_mul(dir_dy(direction as int), (b & 15) as int);
        }
        let x = x as usize;
        let y = y as usize;
        if direction == 0 {
            (x, y + offset)
        } else if direction == 1 {
            (x + offset, y + offset)
        } else if direction == 2 {
            (x + offset, y)
        } else if direction == 3 {
            (x + offset, y - offset)
        } else if direction == 4 {
            (x, y - offset)
        } else if direction == 5 {
            (x - offset, y - offset)
        } else if direction == 6 {
            (x - offset, y)
        } else {
            (x - offset, y + offset)
        }
    }

    /// Applies the stored backward-teleport offset of `(x, y)` opposite the
    /// facing direction.
    pub fn escape_range(&self, x: u16, y: u16, direction: u8) -> (r: (usize, usize))
        requires
            self.wf(),
            self.contains(x as int, y as int),
            direction < 8,
        ensures
            (r.0 as int, r.1 as int) == self.escape_dest(x as int, y as int, direction as int),
    {
        let b = self.se_data.get(
            x as usize - self.x_start,
            y as usize - self.y_start,
            direction as usize,
        );
        let offset = (b >> 4) as usize;
        assert(b == self.se_at(x as int, y as int, direction as int));
        assert(dest_ok(x as int, y as int, direction as int, b));
        proof {
            lemma_unit_mul(dir_dx(direction as int), (b >> 4) as int);
            lemma_unit_mul(dir_dy(direction as int), (b >> 4) as int);
        }
        let x = x as usize;
        let y = y as usize;
        if direction == 0 {
            (x, y - offset)
        } else if direction == 1 {
            (x - offset, y - offset)
        } else if direction == 2 {
            (x - offset, y)
        } else if direction == 3 {
            (x - offset, y + offset)
        } else if direction == 4 {
            (x, y + offset)
        } else if direction == 5 {
            (x + offset, y + offset)
        } else if direction == 6 {
            (x + offset, y)
        } else {
            (x + offset, y - offset)
        }
    }
}

fn dir_delta(d: u8) -> (r: (i64, i64))
    requires
        d < 8,
    ensures
        r.0 == dir_dx(d as int),
        r.1 == dir_dy(d as int),
{
    if d == 0 {
        (0, 1)
    } else if d == 1 {
        (1, 1)
    } else if d == 2 {
        (1, 0)
    } else if d == 3 {
        (1, -1)
    } else if d == 4 {
        (0, -1)
    } else if d == 5 {
        (-1, -1)
    } else if d == 6 {
        (-1, 0)
    } else {
        (-1, 1)
    }
}

impl MapSection {
    /// Loads the section covering `[x_start, x_end] × [y_start, y_end]` on
    /// one floor from the chunk store: stitches the overlapping chunk data
    /// into region-local arrays and decodes every tile's walk and dash data
    /// into destination lists. Refused when a covering chunk is absent or a
    /// stored teleport offset would leave the representable coordinate
    /// range.
    pub fn create_map_section(
        x_start: usize,
        x_end: usize,
        y_start: usize,
        y_end: usize,
        floor: usize,
        store: &ChunkStore,
    ) -> (r: Option<MapSection>)
        requires
            store.wf(),
            x_start <= x_end <= 65535,
            y_start <= y_end <= 65535,
            (x_end - x_start + 1) * (y_end - y_start + 1) <= 0x100_0000,
        ensures
            r is Some <==> ((forall|x: int, y: int|
                x_start <= x <= x_end && y_start <= y <= y_end ==> #[trigger] store.covers(
                    floor as int,
                    x,
                    y,
                )) && (forall|x: int, y: int, d: int|
                x_start <= x <= x_end && y_start <= y <= y_end && 0 <= d < 8 ==> dest_ok(
                    x,
                    y,
                    d,
                    #[trigger] store.se_of(floor as int, x, y, d),
                ))),
            r matches Some(sec) ==> {
                &&& sec.wf()
                &&& sec.floor == floor
                &&& sec.x_start == x_start
                &&& sec.x_end == x_end
                &&& sec.y_start == y_start
                &&& sec.y_end == y_end
                &&& forall|x: int, y: int|
                    x_start <= x <= x_end && y_start <= y <= y_end ==> #[trigger] sec.walk_at(x, y)
                        == decode_walk_spec(
                        store.walk_words_of(floor as int, x, y).0,
                        store.walk_words_of(floor as int, x, y).1,
                        x,
                        y,
                    )
                &&& forall|x: int, y: int|
                    x_start <= x <= x_end && y_start <= y <= y_end ==> #[trigger] sec.bd_at(x, y)
                        == decode_bd_spec(store.bd_words_of(floor as int, x, y), x, y)
                &&& forall|x: int, y: int, d: int|
                    x_start <= x <= x_end && y_start <= y <= y_end && 0 <= d < 8 ==> #[trigger] sec
                        .se_at(x, y, d) == store.se_of(floor as int, x, y, d)
            },
    {
        let width = x_end - x_start + 1;
        let height = y_end - y_start + 1;
        proof {
            assert(width * height * 8 <= 0x800_0000) by (nonlinear_arith)
                requires
                    1 <= width,
                    1 <= height,
                    width * height <= 0x100_0000,
            ;
        }
        let mut se = ByteGrid3::new(width, height, 8);
        let mut walk_table: Vec<Vec<(u16, u16, u8)>> = Vec::new();
        let mut bd_table: Vec<Vec<(u16, u16, u8)>> = Vec::new();
        let cs = store.chunk_size;
        let mut xi: usize = 0;
        while xi < width
            invariant
                store.wf(),
                cs == store.chunk_size,
                x_start <= x_end <= 65535,
                y_start <= y_end <= 65535,
                width == x_end - x_start + 1,
                height == y_end - y_start + 1,
                width * height <= 0x100_0000,
                xi <= width,
                se.wf(),
                se.width == width,
                se.height == height,
                se.depth == 8,
                walk_table.len() == xi * height,
                bd_table.len() == xi * height,
                forall|x: int, y: int|
                    x_start <= x < x_start + xi && y_start <= y <= y_end
                        ==> #[trigger] store.covers(floor as int, x, y),
                forall|x: int, y: int|
                    x_start <= x < x_start + xi && y_start <= y <= y_end
                        ==> walk_table@[(x - x_start) * height + (y - y_start)]@
                        == decode_walk_spec(
                        (#[trigger] store.walk_words_of(floor as int, x, y)).0,
                        store.walk_words_of(floor as int, x, y).1,
                        x,
                        y,
                    ),
                forall|x: int, y: int|
                    x_start <= x < x_start + xi && y_start <= y <= y_end
                        ==> bd_table@[(x - x_start) * height + (y - y_start)]@ == decode_bd_spec(
                        #[trigger] store.bd_words_of(floor as int, x, y),
                        x,
                        y,
                    ),
                forall|x: int, y: int, d: int|
                    x_start <= x < x_start + xi && y_start <= y <= y_end && 0 <= d < 8 ==> se.at(
                        x - x_start,
                        y - y_start,
                        d,
                    ) == #[trigger] store.se_of(floor as int, x, y, d),
            decreases width - xi,
        {
            let mut yi: usize = 0;
            while yi < height
                invariant
                    store.wf(),
                    cs == store.chunk_size,
                    x_start <= x_end <= 65535,
                    y_start <= y_end <= 65535,
                    width == x_end - x_start + 1,
                    height == y_end - y_start + 1,
                    width * height <= 0x100_0000,
                    xi < width,
                    yi <= height,
                    se.wf(),
                    se.width == width,
                    se.height == height,
                    se.depth == 8,
                    walk_table.len() == xi * height + yi,
                    bd_table.len() == xi * height + yi,
                    forall|x: int, y: int|
                        x_start <= x < x_start + xi && y_start <= y <= y_end
                            ==> #[trigger] store.covers(floor as int, x, y),
                    forall|y: int|
                        y_start <= y < y_start + yi ==> #[trigger] store.covers(
                            floor as int,
                            x_start + xi,
                            y,
                        ),
                    forall|x: int, y: int|
                        x_start <= x < x_start + xi && y_start <= y <= y_end
                            ==> walk_table@[(x - x_start) * height + (y - y_start)]@
                            == decode_walk_spec(
                            (#[trigger] store.walk_words_of(floor as int, x, y)).0,
                            store.walk_words_of(floor as int, x, y).1,
                            x,
                            y,
                        ),
                    forall|y: int|
                        y_start <= y < y_start + yi ==> walk_table@[xi * height + (y - y_start)]@
                            == decode_walk_spec(
                            (#[trigger] store.walk_words_of(floor as int, x_start + xi, y)).0,
                            store.walk_words_of(floor as int, x_start + xi, y).1,
                            x_start + xi,
                            y,
                        ),
                    forall|x: int, y: int|
                        x_start <= x < x_start + xi && y_start <= y <= y_end
                            ==> bd_table@[(x - x_start) * height + (y - y_start)]@
                            == decode_bd_spec(
                            #[trigger] store.bd_words_of(floor as int, x, y),
                            x,
                            y,
                        ),
                    forall|y: int|
                        y_start <= y < y_start + yi ==> bd_table@[xi * height + (y - y_start)]@
                            == decode_bd_spec(
                            #[trigger] store.bd_words_of(floor as int, x_start + xi, y),
                            x_start + xi,
                            y,
                        ),
                    forall|x: int, y: int, d: int|
                        x_start <= x < x_start + xi && y_start <= y <= y_end && 0 <= d < 8
                            ==> se.at(x - x_start, y - y_start, d) == #[trigger] store.se_of(
                            floor as int,
                            x,
                            y,
                            d,
                        ),
                    forall|y: int, d: int|
                        y_start <= y < y_start + yi && 0 <= d < 8 ==> se.at(
                            xi as int,
                            y - y_start,
                            d,
                        ) == #[trigger] store.se_of(floor as int, x_start + xi, y, d),
                decreases height - yi,
            {
                let gx = x_start + xi;
                let gy = y_start + yi;
                let ji = match find_section_chunk(&store.chunks, gx / cs, gy / cs, floor) {
                    Some(ji) => ji,
                    None => {
                        proof {
                            if store.covers(floor as int, gx as int, gy as int) {
                                let j = choose|j: int|
                                    #[trigger] first_section_chunk(
                                        store.chunks@,
                                        gx as int / cs as int,
                                        gy as int / cs as int,
                                        floor as int,
                                        j,
                                    );
                                assert(section_chunk_matches(
                                    store.chunks@[j],
                                    gx as int / cs as int,
                                    gy as int / cs as int,
                                    floor as int,
                                ));
                            }
                        }
                        return None;
                    },
                };
                proof {
                    let j2 = choose|j: int|
                        #[trigger] first_section_chunk(
                            store.chunks@,
                            gx as int / cs as int,
                            gy as int / cs as int,
                            floor as int,
                            j,
                        );
                    lemma_first_section_unique(
                        store.chunks@,
                        gx as int / cs as int,
                        gy as int / cs as int,
                        floor as int,
                        j2,
                        ji as int,
                    );
                    assert(store.chunk_of(floor as int, gx as int, gy as int)
                        == store.chunks@[ji as int]);
                    assert(store.covers(floor as int, gx as int, gy as int));
                }
                let c = &store.chunks[ji];
                let lx = gx % cs;
                let ly = gy % cs;
                let mut d: usize = 0;
                while d < 8
                    invariant
                        store.wf(),
                        ji < store.chunks@.len(),
                        c == store.chunks@[ji as int],
                        lx == gx as int % cs as int,
                        ly == gy as int % cs as int,
                        cs == store.chunk_size,
                        store.chunk_of(floor as int, gx as int, gy as int) == store.chunks@[
                            ji as int],
                        xi < width,
                        yi < height,
                        d <= 8,
                        se.wf(),
                        se.width == width,
                        se.height == height,
                        se.depth == 8,
                        x_start <= x_end <= 65535,
                        y_start <= y_end <= 65535,
                        width == x_end - x_start + 1,
                        height == y_end - y_start + 1,
                        gx == x_start + xi,
                        gy == y_start + yi,
                        forall|x: int, y: int, d2: int|
                            x_start <= x < x_start + xi && y_start <= y <= y_end && 0 <= d2 < 8
                                ==> se.at(x - x_start, y - y_start, d2) == #[trigger] store.se_of(
                                floor as int,
                                x,
                                y,
                                d2,
                            ),
                        forall|y: int, d2: int|
                            y_start <= y < y_start + yi && 0 <= d2 < 8 ==> se.at(
                                xi as int,
                                y - y_start,
                                d2,
                            ) == #[trigger] store.se_of(floor as int, x_start + xi, y, d2),
                        forall|d2: int|
                            0 <= d2 < d ==> #[trigger] se.at(xi as int, yi as int, d2)
                                == store.se_of(floor as int, gx as int, gy as int, d2),
                    decreases 8 - d,
                {
                    se.set(xi, yi, d, c.se.get(lx, ly, d));
                    d = d + 1;
                }
                let w0 = c.walk.get(lx, ly, 0);
                let w1 = c.walk.get(lx, ly, 1);
                walk_table.push(decode_walk(w0, w1, gx as u16, gy as u16));
                let mut wd: Vec<u64> = Vec::new();
                let mut k: usize = 0;
                while k < 7
                    invariant
                        store.wf(),
                        ji < store.chunks@.len(),
                        c == store.chunks@[ji as int],
                        lx == gx as int % cs as int,
                        ly == gy as int % cs as int,
                        cs == store.chunk_size,
                        k <= 7,
                        wd.len() == k,
                        forall|k2: int| 0 <= k2 < k ==> wd@[k2] == c.bd.at(lx as int, ly as int, k2),
                    decreases 7 - k,
                {
                    wd.push(c.bd.get(lx, ly, k));
                    k = k + 1;
                }
                proof {
                    assert(wd@ =~= store.bd_words_of(floor as int, gx as int, gy as int));
                }
                bd_table.push(decode_bd(&wd, gx as u16, gy as u16));
                proof {
                    assert forall|x: int, y: int|
                        x_start <= x < x_start + xi && y_start <= y <= y_end implies walk_table@[(x
                        - x_start) * height + (y - y_start)]@ == decode_walk_spec(
                        (#[trigger] store.walk_words_of(floor as int, x, y)).0,
                        store.walk_words_of(floor as int, x, y).1,
                        x,
                        y,
                    ) by {
                        assert((x - x_start) * height + height <= xi as int * height && 0 <= (x
                            - x_start) * height) by (nonlinear_arith)
                            requires
                                0 <= x - x_start <= xi - 1,
                                1 <= height,
                        ;
                    }
                    assert forall|x: int, y: int|
                        x_start <= x < x_start + xi && y_start <= y <= y_end implies bd_table@[(x
                        - x_start) * height + (y - y_start)]@ == decode_bd_spec(
                        #[trigger] store.bd_words_of(floor as int, x, y),
                        x,
                        y,
                    ) by {
                        assert((x - x_start) * height + height <= xi as int * height && 0 <= (x
                            - x_start) * height) by (nonlinear_arith)
                            requires
                                0 <= x - x_start <= xi - 1,
                                1 <= height,
                        ;
                    }
                }
                yi = yi + 1;
            }
            proof {
                assert((xi as int + 1) * height == xi as int * height + height)
                    by (nonlinear_arith);
                assert forall|x: int, y: int|
                    x_start <= x < x_start + xi + 1 && y_start <= y <= y_end implies walk_table@[(x
                    - x_start) * height + (y - y_start)]@ == decode_walk_spec(
                    (#[trigger] store.walk_words_of(floor as int, x, y)).0,
                    store.walk_words_of(floor as int, x, y).1,
                    x,
                    y,
                ) by {
                    if x == x_start + xi {
                        assert((x - x_start) * height == xi as int * height);
                    }
                }
                assert forall|x: int, y: int|
                    x_start <= x < x_start + xi + 1 && y_start <= y <= y_end implies bd_table@[(x
                    - x_start) * height + (y - y_start)]@ == decode_bd_spec(
                    #[trigger] store.bd_words_of(floor as int, x, y),
                    x,
                    y,
                ) by {
                    if x == x_start + xi {
                        assert((x - x_start) * height == xi as int * height);
                    }
                }
            }
            xi = xi + 1;
        }
        let sec = MapSection {
            floor,
            x_start,
            x_end,
            y_start,
            y_end,
            se_data: se,
            walk_table,
            bd_table,
        };
        let mut xi: usize = 0;
        while xi < width
            invariant
                store.wf(),
                x_start <= x_end <= 65535,
                y_start <= y_end <= 65535,
                width == x_end - x_start + 1,
                height == y_end - y_start + 1,
                xi <= width,
                sec.x_start == x_start,
                sec.x_end == x_end,
                sec.y_start == y_start,
                sec.y_end == y_end,
                sec.se_data.wf(),
                sec.se_data.width == width,
                sec.se_data.height == height,
                sec.se_data.depth == 8,
                forall|x: int, y: int, d: int|
                    x_start <= x <= x_end && y_start <= y <= y_end && 0 <= d < 8 ==> #[trigger] sec
                        .se_at(x, y, d) == store.se_of(floor as int, x, y, d),
                forall|x: int, y: int, d: int|
                    x_start <= x < x_start + xi && y_start <= y <= y_end && 0 <= d < 8 ==> dest_ok(
                        x,
                        y,
                        d,
                        #[trigger] sec.se_at(x, y, d),
                    ),
            decreases width - xi,
        {
            let mut yi: usize = 0;
            while yi < height
                invariant
                    store.wf(),
                    x_start <= x_end <= 65535,
                    y_start <= y_end <= 65535,
                    width == x_end - x_start + 1,
                    height == y_end - y_start + 1,
                    xi < width,
                    yi <= height,
                    sec.x_start == x_start,
                    sec.x_end == x_end,
                    sec.y_start == y_start,
                    sec.y_end == y_end,
                    sec.se_data.wf(),
                    sec.se_data.width == width,
                    sec.se_data.height == height,
                    sec.se_data.depth == 8,
                    forall|x: int, y: int, d: int|
                        x_start <= x <= x_end && y_start <= y <= y_end && 0 <= d < 8
                            ==> #[trigger] sec.se_at(x, y, d) == store.se_of(floor as int, x, y, d),
                    forall|x: int, y: int, d: int|
                        x_start <= x < x_start + xi && y_start <= y <= y_end && 0 <= d < 8
                            ==> dest_ok(x, y, d, #[trigger] sec.se_at(x, y, d)),
                    forall|y: int, d: int|
                        y_start <= y < y_start + yi && 0 <= d < 8 ==> dest_ok(
                            x_start + xi,
                            y,
                            d,
                            #[trigger] sec.se_at(x_start + xi, y, d),
                        ),
                decreases height - yi,
            {
                let gx = x_start + xi;
                let gy = y_start + yi;
                let mut d: u8 = 0;
                while d < 8
                    invariant
                        store.wf(),
                        x_start <= x_end <= 65535,
                        y_start <= y_end <= 65535,
                        width == x_end - x_start + 1,
                        height == y_end - y_start + 1,
                        xi < width,
                        yi < height,
                        gx == x_start + xi,
                        gy == y_start + yi,
                        d <= 8,
                        sec.x_start == x_start,
                        sec.x_end == x_end,
                        sec.y_start == y_start,
                        sec.y_end == y_end,
                        sec.se_data.wf(),
                        sec.se_data.width == width,
                        sec.se_data.height == height,
                        sec.se_data.depth == 8,
                        forall|x: int, y: int, d2: int|
                            x_start <= x <= x_end && y_start <= y <= y_end && 0 <= d2 < 8
                                ==> #[trigger] sec.se_at(x, y, d2) == store.se_of(
                                floor as int,
                                x,
                                y,
                                d2,
                            ),
                        forall|d2: int|
                            0 <= d2 < d ==> dest_ok(
                                gx as int,
                                gy as int,
                                d2,
                                #[trigger] sec.se_at(gx as int, gy as int, d2),
                            ),
                    decreases 8 - d,
                {
                    let b = sec.se_data.get(xi, yi, d as usize);
                    assert(b == sec.se_at(gx as int, gy as int, d as int));
                    let f = (b & 15) as i64;
                    let bk = (b >> 4) as i64;
                    let (ddx, ddy) = dir_delta(d);
                    proof {
                        lemma_unit_mul(dir_dx(d as int), (b & 15) as int);
                        lemma_unit_mul(dir_dy(d as int), (b & 15) as int);
                        lemma_unit_mul(dir_dx(d as int), (b >> 4) as int);
                        lemma_unit_mul(dir_dy(d as int), (b >> 4) as int);
                    }
                    let fx = gx as i64 + ddx * f;
                    let fy = gy as i64 + ddy * f;
                    let bx = gx as i64 - ddx * bk;
                    let by = gy as i64 - ddy * bk;
                    if !(0 <= fx && fx <= 65535 && 0 <= fy && fy <= 65535 && 0 <= bx && bx <= 65535
                        && 0 <= by && by <= 65535) {
                        assert(!dest_ok(
                            gx as int,
                            gy as int,
                            d as int,
                            store.se_of(floor as int, gx as int, gy as int, d as int),
                        ));
                        return None;
                    }
                    assert(dest_ok(gx as int, gy as int, d as int, b));
                    d = d + 1;
                }
                yi = yi + 1;
            }
            xi = xi + 1;
        }
        proof {
            assert forall|x: int, y: int, d: int|
                x_start <= x <= x_end && y_start <= y <= y_end && 0 <= d < 8 implies dest_ok(
                x,
                y,
                d,
                #[trigger] store.se_of(floor as int, x, y, d),
            ) by {
                assert(sec.se_at(x, y, d) == store.se_of(floor as int, x, y, d));
                assert(dest_ok(x, y, d, sec.se_at(x, y, d)));
            }
            assert forall|x: int, y: int, i: int|
                sec.contains(x, y) && 0 <= i < sec.walk_at(x, y).len() implies (
            #[trigger] sec.walk_at(x, y)[i]).2 < 8 by {
                assert(sec.walk_at(x, y) == decode_walk_spec(
                    store.walk_words_of(floor as int, x, y).0,
                    store.walk_words_of(floor as int, x, y).1,
                    x,
                    y,
                ));
                lemma_decode_walk_dirs(
                    store.walk_words_of(floor as int, x, y).0,
                    store.walk_words_of(floor as int, x, y).1,
                    x,
                    y,
                    32,
                );
            }
            assert forall|x: int, y: int, i: int|
                sec.contains(x, y) && 0 <= i < sec.bd_at(x, y).len() implies (#[trigger] sec.bd_at(
                x,
                y,
            )[i]).2 < 8 by {
                assert(sec.bd_at(x, y) == decode_bd_spec(
                    store.bd_words_of(floor as int, x, y),
                    x,
                    y,
                ));
                lemma_decode_bd_dirs(store.bd_words_of(floor as int, x, y), x, y, 448);
            }
        }
        Some(sec)
    }
}

proof fn lemma_unit_mul(a: int, b: int)
    by (nonlinear_arith)
    requires
        a == -1 || a == 0 || a == 1,
    ensures
        a == 1 ==> a * b == b,
        a == -1 ==> a * b == -b,
        a == 0 ==> a * b == 0,
{
}

proof fn lemma_section_idx(s: MapSection, x: int, y: int)
    by (nonlinear_arith)
    requires
        s.x_start <= x <= s.x_end,
        s.y_start <= y <= s.y_end,
    ensures
        0 <= s.tidx(x, y) < s.width() * s.height(),
        0 <= (x - s.x_start) * s.height(),
{
}

} // verus!
