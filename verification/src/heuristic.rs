//! The admissible search heuristic.
//!
//! `cost` is the Bellman recursion over the abstract cooldown model: to
//! close some Chebyshev distance, each timestep either walks (closing up to
//! two tiles while every cooldown ticks) or fires a ready ability (closing
//! up to its range at no time cost but restarting cooldowns). `Memo` fills
//! the table bottom-up by increasing distance, and `Heuristic` answers the
//! search's lookups with the stored lower bounds.

use vstd::prelude::*;
use vstd::arithmetic::div_mod::lemma_fundamental_div_mod;
use vstd::arithmetic::div_mod::lemma_fundamental_div_mod_converse;
use crate::map_section::abs_of;
use crate::state::State;

verus! {

/// Sentinel cost of an ability branch whose cooldown guard fails.
pub const COST_BLOCKED: u64 = 0xffff_ffff_ffff_ffff;

/// Number of cooldown combinations: eighteen values for each of the four
/// counters.
pub const CD_COMBOS: usize = 104976;

/// Largest distance a heuristic table can be sized for.
pub const MAX_TABLE_DISTANCE: usize = 20000;

pub open spec fn min2(a: int, b: int) -> int {
    if a <= b {
        a
    } else {
        b
    }
}

/// A cooldown after one timestep: decremented, floored at zero.
pub open spec fn tick(c: int) -> int {
    if c <= 0 {
        0
    } else {
        c - 1
    }
}

/// A cooldown raised to at least two.
pub open spec fn raise2(c: int) -> int {
    if c < 2 {
        2
    } else {
        c
    }
}

/// Minimal number of timesteps provably required to close `distance` given
/// the four cooldowns: the minimum over the dash, forward-teleport,
/// backward-teleport and walk branches, each admitted only while its guard
/// holds.
pub open spec fn cost(distance: int, secd: int, scd: int, ecd: int, bdcd: int) -> int
    decreases (if distance <= 0 {
        0int
    } else {
        distance
    }),
{
    if distance <= 0 {
        0
    } else {
        let bd = if bdcd == 0 {
            cost(distance - 10, secd, scd, ecd, 17)
        } else {
            COST_BLOCKED as int
        };
        let surge = if secd == 0 {
            cost(distance - 10, 17, raise2(scd), 17, bdcd)
        } else if scd == 0 {
            cost(distance - 10, raise2(secd), 17, raise2(ecd), bdcd)
        } else {
            COST_BLOCKED as int
        };
        let escape = if secd == 0 {
            cost(distance - 7, 17, 17, raise2(ecd), bdcd)
        } else if ecd == 0 {
            cost(distance - 7, raise2(secd), raise2(scd), 17, bdcd)
        } else {
            COST_BLOCKED as int
        };
        let walk = if secd != 0 && bdcd != 0 {
            cost(distance - 2, tick(secd), tick(scd), tick(ecd), tick(bdcd)) + 1
        } else {
            COST_BLOCKED as int
        };
        min2(min2(min2(bd, surge), escape), walk)
    }
}

/// The cost recursion never goes negative.
pub proof fn lemma_cost_nonneg(d: int, a: int, b: int, c: int, e: int)
    ensures
        cost(d, a, b, c, e) >= 0,
    decreases (if d <= 0 {
        0int
    } else {
        d
    }),
{
    if d > 0 {
        if e == 0 {
            lemma_cost_nonneg(d - 10, a, b, c, 17);
        }
        if a == 0 {
            lemma_cost_nonneg(d - 10, 17, raise2(b), 17, e);
            lemma_cost_nonneg(d - 7, 17, 17, raise2(c), e);
        } else {
            if b == 0 {
                lemma_cost_nonneg(d - 10, raise2(a), 17, raise2(c), e);
            }
            if c == 0 {
                lemma_cost_nonneg(d - 7, raise2(a), raise2(b), 17, e);
            }
        }
        if a != 0 && e != 0 {
            lemma_cost_nonneg(d - 2, tick(a), tick(b), tick(c), tick(e));
        }
    }
}

/// Closing a distance never takes more timesteps than the distance itself.
pub proof fn lemma_cost_le_distance(d: int, a: int, b: int, c: int, e: int)
    ensures
        cost(d, a, b, c, e) <= (if d <= 0 {
            0int
        } else {
            d
        }),
    decreases (if d <= 0 {
        0int
    } else {
        d
    }),
{
    if d > 0 {
        if a == 0 {
            lemma_cost_le_distance(d - 10, 17, raise2(b), 17, e);
        } else if e == 0 {
            lemma_cost_le_distance(d - 10, a, b, c, 17);
        } else {
            lemma_cost_le_distance(d - 2, tick(a), tick(b), tick(c), tick(e));
        }
    }
}

/// Monotonicity of the heuristic: for fixed cooldowns, the cost of closing
/// a distance is non-decreasing in the distance.
pub proof fn lemma_cost_monotone(d1: int, d2: int, a: int, b: int, c: int, e: int)
    requires
        d1 <= d2,
    ensures
        cost(d1, a, b, c, e) <= cost(d2, a, b, c, e),
    decreases (if d2 <= 0 {
        0int
    } else {
        d2
    }),
{
    if d2 <= 0 {
    } else if d1 <= 0 {
        lemma_cost_nonneg(d2, a, b, c, e);
    } else {
        if e == 0 {
            lemma_cost_monotone(d1 - 10, d2 - 10, a, b, c, 17);
        }
        if a == 0 {
            lemma_cost_monotone(d1 - 10, d2 - 10, 17, raise2(b), 17, e);
            lemma_cost_monotone(d1 - 7, d2 - 7, 17, 17, raise2(c), e);
        } else {
            if b == 0 {
                lemma_cost_monotone(d1 - 10, d2 - 10, raise2(a), 17, raise2(c), e);
            }
            if c == 0 {
                lemma_cost_monotone(d1 - 7, d2 - 7, raise2(a), raise2(b), 17, e);
            }
        }
        if a != 0 && e != 0 {
            lemma_cost_monotone(d1 - 2, d2 - 2, tick(a), tick(b), tick(c), tick(e));
        }
    }
}

/// Index of a cooldown combination within one distance layer.
pub open spec fn cd_idx(a: int, b: int, c: int, e: int) -> int {
    ((a * 18 + b) * 18 + c) * 18 + e
}

/// Index of an entry in the memo table, whose layers start at distance one.
pub open spec fn memo_idx(d: int, a: int, b: int, c: int, e: int) -> int {
    (d - 1) * 104976 + cd_idx(a, b, c, e)
}

/// The first `filled` distance layers of a memo table hold the cost
/// recursion's values.
pub open spec fn entries_ok(t: Seq<u64>, filled: int) -> bool {
    forall|d: int, a: int, b: int, c: int, e: int|
        1 <= d <= filled && 0 <= a < 18 && 0 <= b < 18 && 0 <= c < 18 && 0 <= e < 18 ==> 0
            <= #[trigger] memo_idx(d, a, b, c, e) < t.len() && t[memo_idx(d, a, b, c, e)] as int
            == cost(d, a, b, c, e)
}

proof fn lemma_cd_ranges(a: int, b: int, c: int, e: int)
    requires
        0 <= a < 18,
        0 <= b < 18,
        0 <= c < 18,
        0 <= e < 18,
    ensures
        0 <= cd_idx(a, b, c, e) < 104976,
        cd_idx(a, b, c, e) / 5832 == a,
        (cd_idx(a, b, c, e) % 5832) / 324 == b,
        ((cd_idx(a, b, c, e) % 5832) % 324) / 18 == c,
        ((cd_idx(a, b, c, e) % 5832) % 324) % 18 == e,
{
    let k = cd_idx(a, b, c, e);
    let r1 = b * 324 + c * 18 + e;
    let r2 = c * 18 + e;
    assert(k == a * 5832 + r1);
    lemma_fundamental_div_mod_converse(k, 5832, a, r1);
    lemma_fundamental_div_mod_converse(r1, 324, b, r2);
    lemma_fundamental_div_mod_converse(r2, 18, c, e);
}

proof fn lemma_k_decode(k: int)
    requires
        0 <= k < 104976,
    ensures
        0 <= k / 5832 < 18,
        0 <= (k % 5832) / 324 < 18,
        0 <= ((k % 5832) % 324) / 18 < 18,
        0 <= ((k % 5832) % 324) % 18 < 18,
        cd_idx(k / 5832, (k % 5832) / 324, ((k % 5832) % 324) / 18, ((k % 5832) % 324) % 18) == k,
{
    lemma_fundamental_div_mod(k, 5832);
    lemma_fundamental_div_mod(k % 5832, 324);
    lemma_fundamental_div_mod((k % 5832) % 324, 18);
}

proof fn lemma_memo_layer(d: int, filled: int, k: int)
    by (nonlinear_arith)
    requires
        1 <= d <= filled,
        0 <= k < 104976,
    ensures
        0 <= (d - 1) * 104976 + k < filled * 104976,
{
}

/// The memoised cost table, filled bottom-up by increasing distance.
pub struct Memo {
    data: Vec<u64>,
    filled: usize,
}

fn cd_index(a: usize, b: usize, c: usize, e: usize) -> (r: usize)
    requires
        a < 18,
        b < 18,
        c < 18,
        e < 18,
    ensures
        r == cd_idx(a as int, b as int, c as int, e as int),
        r < 104976,
{
    proof {
        lemma_cd_ranges(a as int, b as int, c as int, e as int);
    }
    ((a * 18 + b) * 18 + c) * 18 + e
}

fn table_lookup(t: &Vec<u64>, filled: usize, d: i64, a: usize, b: usize, c: usize, e: usize) -> (r:
    u64)
    requires
        filled <= MAX_TABLE_DISTANCE,
        filled * 104976 <= t.len(),
        entries_ok(t@, filled as int),
        d <= filled,
        a < 18,
        b < 18,
        c < 18,
        e < 18,
    ensures
        r as int == cost(d as int, a as int, b as int, c as int, e as int),
{
    if d <= 0 {
        return 0;
    }
    let k = cd_index(a, b, c, e);
    proof {
        lemma_memo_layer(d as int, filled as int, k as int);
        assert(memo_idx(d as int, a as int, b as int, c as int, e as int) == (d - 1) * 104976 + k);
    }
    t[(d as usize - 1) * 104976 + k]
}

fn max2_u(c: usize) -> (r: usize)
    ensures
        r == raise2(c as int),
{
    if c < 2 {
        2
    } else {
        c
    }
}

fn tick_u(c: usize) -> (r: usize)
    ensures
        r == tick(c as int),
{
    if c == 0 {
        0
    } else {
        c - 1
    }
}

fn min2_u(a: u64, b: u64) -> (r: u64)
    ensures
        r as int == min2(a as int, b as int),
{
    if a <= b {
        a
    } else {
        b
    }
}

/// Evaluates one cell of the next distance layer from the filled layers.
fn compute_cell(t: &Vec<u64>, filled: usize, d: usize, a: usize, b: usize, c: usize, e: usize) -> (r:
    u64)
    requires
        filled < MAX_TABLE_DISTANCE,
        filled * 104976 <= t.len(),
        entries_ok(t@, filled as int),
        d == filled + 1,
        a < 18,
        b < 18,
        c < 18,
        e < 18,
    ensures
        r as int == cost(d as int, a as int, b as int, c as int, e as int),
{
    let di = d as i64;
    let bd: u64 = if e == 0 {
        table_lookup(t, filled, di - 10, a, b, c, 17)
    } else {
        COST_BLOCKED
    };
    let surge: u64 = if a == 0 {
        table_lookup(t, filled, di - 10, 17, max2_u(b), 17, e)
    } else if b == 0 {
        table_lookup(t, filled, di - 10, max2_u(a), 17, max2_u(c), e)
    } else {
        COST_BLOCKED
    };
    let escape: u64 = if a == 0 {
        table_lookup(t, filled, di - 7, 17, 17, max2_u(c), e)
    } else if c == 0 {
        table_lookup(t, filled, di - 7, max2_u(a), max2_u(b), 17, e)
    } else {
        COST_BLOCKED
    };
    let walk: u64 = if a != 0 && e != 0 {
        proof {
            lemma_cost_le_distance(
                di - 2,
                tick(a as int),
                tick(b as int),
                tick(c as int),
                tick(e as int),
            );
            lemma_cost_nonneg(
                di - 2,
                tick(a as int),
                tick(b as int),
                tick(c as int),
                tick(e as int),
            );
        }
        table_lookup(t, filled, di - 2, tick_u(a), tick_u(b), tick_u(c), tick_u(e)) + 1
    } else {
        COST_BLOCKED
    };
    min2_u(min2_u(min2_u(bd, surge), escape), walk)
}

impl Memo {
    pub closed spec fn wf(self) -> bool {
        &&& self.filled <= MAX_TABLE_DISTANCE
        &&& self.data.len() == self.filled * 104976
        &&& entries_ok(self.data@, self.filled as int)
    }

    /// Distance layers the memo has been filled up to.
    pub closed spec fn layers(self) -> int {
        self.filled as int
    }

    /// An empty memo.
    pub fn new() -> (r: Memo)
        ensures
            r.wf(),
            r.layers() == 0,
    {
        Memo { data: Vec::new(), filled: 0 }
    }

    /// The minimal number of timesteps to close `distance` given the four
    /// cooldowns, filling the table bottom-up as far as needed.
    pub fn distance_cds_rec(
        &mut self,
        distance: isize,
        secd: usize,
        scd: usize,
        ecd: usize,
        bdcd: usize,
    ) -> (r: usize)
        requires
            old(self).wf(),
            secd <= 17,
            scd <= 17,
            ecd <= 17,
            bdcd <= 17,
            distance <= MAX_TABLE_DISTANCE,
        ensures
            final(self).wf(),
            final(self).layers() >= old(self).layers(),
            distance >= 1 ==> final(self).layers() >= distance,
            r as int == cost(
                distance as int,
                secd as int,
                scd as int,
                ecd as int,
                bdcd as int,
            ),
    {
        if distance <= 0 {
            return 0;
        }
        let d = distance as usize;
        while self.filled < d
            invariant
                self.wf(),
                d <= MAX_TABLE_DISTANCE,
                old(self).filled <= self.filled,
            decreases d - self.filled,
        {
            let dd = self.filled + 1;
            let mut k: usize = 0;
            while k < 104976
                invariant
                    self.filled < MAX_TABLE_DISTANCE,
                    dd == self.filled + 1,
                    k <= 104976,
                    self.data.len() == self.filled * 104976 + k,
                    entries_ok(self.data@, self.filled as int),
                    forall|k2: int|
                        0 <= k2 < k ==> self.data@[self.filled * 104976 + k2] as int == cost(
                            dd as int,
                            #[trigger] cost_args(k2).0,
                            cost_args(k2).1,
                            cost_args(k2).2,
                            cost_args(k2).3,
                        ),
                decreases 104976 - k,
            {
                let a = k / 5832;
                let r1 = k % 5832;
                let b = r1 / 324;
                let r2 = r1 % 324;
                let c = r2 / 18;
                let e = r2 % 18;
                proof {
                    lemma_k_decode(k as int);
                }
                let v = compute_cell(&self.data, self.filled, dd, a, b, c, e);
                self.data.push(v);
                k = k + 1;
            }
            proof {
                assert forall|dj: int, a: int, b: int, c: int, e: int|
                    1 <= dj <= dd && 0 <= a < 18 && 0 <= b < 18 && 0 <= c < 18 && 0 <= e
                        < 18 implies 0 <= #[trigger] memo_idx(dj, a, b, c, e) < self.data@.len()
                    && self.data@[memo_idx(dj, a, b, c, e)] as int == cost(dj, a, b, c, e) by {
                    lemma_cd_ranges(a, b, c, e);
                    lemma_memo_layer(dj, dd as int, cd_idx(a, b, c, e));
                    if dj == dd as int {
                        let k2 = cd_idx(a, b, c, e);
                        assert(cost_args(k2).0 == a && cost_args(k2).1 == b && cost_args(k2).2 == c
                            && cost_args(k2).3 == e);
                        assert(self.data@[self.filled * 104976 + k2] as int == cost(
                            dd as int,
                            a,
                            b,
                            c,
                            e,
                        ));
                    } else {
                        lemma_memo_layer(dj, self.filled as int, cd_idx(a, b, c, e));
                    }
                }
                assert((self.filled + 1) * 104976 == self.filled * 104976 + 104976)
                    by (nonlinear_arith);
            }
            self.filled = dd;
        }
        proof {
            lemma_cost_le_distance(
                distance as int,
                secd as int,
                scd as int,
                ecd as int,
                bdcd as int,
            );
            lemma_cost_nonneg(distance as int, secd as int, scd as int, ecd as int, bdcd as int);
        }
        let r = table_lookup(&self.data, self.filled, distance as i64, secd, scd, ecd, bdcd);
        r as usize
    }
}

/// The cooldown combination a layer-local index stands for.
pub open spec fn cost_args(k: int) -> (int, int, int, int) {
    (k / 5832, (k % 5832) / 324, ((k % 5832) % 324) / 18, ((k % 5832) % 324) % 18)
}

/// The precomputed heuristic table: one entry per capped distance and
/// cooldown combination, with every entry small enough to hand out as a
/// `usize` cost.
pub struct HeuristicTable {
    pub max_distance: usize,
    pub data: Vec<u64>,
}

impl HeuristicTable {
    pub open spec fn wf(self) -> bool {
        &&& self.max_distance <= MAX_TABLE_DISTANCE
        &&& self.data.len() == (self.max_distance + 1) * 104976
        &&& forall|i: int| 0 <= i < self.data.len() ==> #[trigger] self.data@[i] <= 0xffff_ffff
    }

    /// The stored entry for one capped distance and cooldown combination.
    pub open spec fn at(self, d: int, a: int, b: int, c: int, e: int) -> int {
        self.data@[d * 104976 + cd_idx(a, b, c, e)] as int
    }

    /// Builds the table for every distance up to `max_distance` and every
    /// cooldown combination; each entry equals the cost recursion's value.
    pub fn build(max_distance: usize) -> (t: HeuristicTable)
        requires
            max_distance <= MAX_TABLE_DISTANCE,
        ensures
            t.wf(),
            t.max_distance == max_distance,
            forall|d: int, a: int, b: int, c: int, e: int|
                0 <= d <= max_distance && 0 <= a < 18 && 0 <= b < 18 && 0 <= c < 18 && 0 <= e < 18
                    ==> #[trigger] t.at(d, a, b, c, e) == cost(d, a, b, c, e),
    {
        let mut memo = Memo::new();
        if max_distance >= 1 {
            memo.distance_cds_rec(max_distance as isize, 0, 0, 0, 0);
        }
        let mut data: Vec<u64> = Vec::new();
        let mut i: usize = 0;
        while i < 104976
            invariant
                i <= 104976,
                data.len() == i,
                forall|j: int| 0 <= j < i ==> data@[j] == 0,
            decreases 104976 - i,
        {
            data.push(0);
            i = i + 1;
        }
        proof {
            assert(max_distance * 104976 <= memo.layers() * 104976) by (nonlinear_arith)
                requires
                    max_distance <= memo.layers(),
            ;
        }
        let n = max_distance * 104976;
        let mut i: usize = 0;
        while i < n
            invariant
                memo.wf(),
                max_distance <= memo.layers(),
                n == max_distance * 104976,
                n <= memo.layers() * 104976,
                i <= n,
                data.len() == 104976 + i,
                forall|j: int| 0 <= j < 104976 ==> data@[j] == 0,
                forall|j: int| 0 <= j < i ==> data@[104976 + j] == memo.entry(j),
            decreases n - i,
        {
            data.push(memo.get_entry(i));
            i = i + 1;
        }
        let t = HeuristicTable { max_distance, data };
        proof {
            assert((max_distance + 1) * 104976 == 104976 + max_distance * 104976)
                by (nonlinear_arith);
            assert forall|d: int, a: int, b: int, c: int, e: int|
                0 <= d <= max_distance && 0 <= a < 18 && 0 <= b < 18 && 0 <= c < 18 && 0 <= e
                    < 18 implies #[trigger] t.at(d, a, b, c, e) == cost(d, a, b, c, e) by {
                lemma_cd_ranges(a, b, c, e);
                if d == 0 {
                    assert(cost(0, a, b, c, e) == 0);
                } else {
                    lemma_memo_layer(d, max_distance as int, cd_idx(a, b, c, e));
                    assert(memo_idx(d, a, b, c, e) == (d - 1) * 104976 + cd_idx(a, b, c, e));
                    assert(t.data@[d * 104976 + cd_idx(a, b, c, e)] == memo.entry(
                        memo_idx(d, a, b, c, e),
                    ));
                }
            }
            assert forall|i2: int| 0 <= i2 < t.data.len() implies #[trigger] t.data@[i2]
                <= 0xffff_ffff by {
                if i2 >= 104976 {
                    let k = i2 - 104976;
                    let dj = k / 104976 + 1;
                    let k2 = k % 104976;
                    lemma_fundamental_div_mod(k, 104976);
                    lemma_k_decode(k2);
                    let args = cost_args(k2);
                    lemma_memo_layer(dj, memo.layers(), k2);
                    assert(memo_idx(dj, args.0, args.1, args.2, args.3) == (dj - 1) * 104976 + k2);
                    assert(memo.entry(k) as int == cost(dj, args.0, args.1, args.2, args.3));
                    lemma_cost_le_distance(dj, args.0, args.1, args.2, args.3);
                    lemma_cost_nonneg(dj, args.0, args.1, args.2, args.3);
                }
            }
        }
        t
    }

    /// Wraps raw table words, refused unless the shape and every entry fit.
    pub fn from_raw(max_distance: usize, data: Vec<u64>) -> (r: Option<HeuristicTable>)
        ensures
            r is Some <==> (max_distance <= MAX_TABLE_DISTANCE && data.len() == (max_distance + 1)
                * 104976 && forall|i: int| 0 <= i < data.len() ==> #[trigger] data@[i]
                <= 0xffff_ffff),
            r matches Some(t) ==> t.wf() && t.max_distance == max_distance && t.data == data,
    {
        if max_distance > MAX_TABLE_DISTANCE {
            return None;
        }
        proof {
            assert((max_distance + 1) * 104976 <= 0x8000_0000) by (nonlinear_arith)
                requires
                    max_distance <= MAX_TABLE_DISTANCE,
            ;
        }
        let expected = (max_distance + 1) * 104976;
        if data.len() != expected {
            return None;
        }
        let mut i: usize = 0;
        while i < data.len()
            invariant
                i <= data.len(),
                forall|j: int| 0 <= j < i ==> #[trigger] data@[j] <= 0xffff_ffff,
            decreases data.len() - i,
        {
            if data[i] > 0xffff_ffff {
                return None;
            }
            i = i + 1;
        }
        Some(HeuristicTable { max_distance, data })
    }
}

impl Memo {
    /// One raw entry of the filled table.
    pub closed spec fn entry(self, i: int) -> u64 {
        self.data@[i]
    }

    fn get_entry(&self, i: usize) -> (r: u64)
        requires
            self.wf(),
            i < self.layers() * 104976,
        ensures
            r == self.entry(i as int),
    {
        self.data[i]
    }
}

/// Chebyshev distance between a state's position and the goal tile.
pub open spec fn cheb_dist(s: State, end: (u16, u16)) -> int {
    let dx = abs_of(s.pos_x - end.0);
    let dy = abs_of(s.pos_y - end.1);
    if dx >= dy {
        dx
    } else {
        dy
    }
}

/// Distance index a heuristic lookup uses: the Chebyshev distance less one
/// (the goal tolerance), clipped to the table's range.
pub open spec fn h_index(max_d: int, cheb: int) -> int {
    if cheb - 1 <= 0 {
        0
    } else if cheb - 1 <= max_d {
        cheb - 1
    } else {
        max_d
    }
}

/// Lookup into the precomputed table of admissible lower bounds.
pub struct Heuristic {
    pub data: HeuristicTable,
}

impl Heuristic {
    /// Wraps a well-formed heuristic table.
    pub fn new(data: HeuristicTable) -> (r: Heuristic)
        requires
            data.wf(),
        ensures
            r.data == data,
    {
        Heuristic { data }
    }

    /// The stored lower bound on the timesteps left from `state` to the
    /// goal's tolerance box.
    pub fn h(&self, state: &State, end: (u16, u16)) -> (r: usize)
        requires
            self.data.wf(),
            state.wf(),
        ensures
            r as int == self.data.at(
                h_index(self.data.max_distance as int, cheb_dist(*state, end)),
                state.secd as int,
                state.scd as int,
                state.ecd as int,
                state.bdcd as int,
            ),
    {
        let dx0 = state.pos_x as i64 - end.0 as i64;
        let dy0 = state.pos_y as i64 - end.1 as i64;
        let dx = if dx0 < 0 {
            -dx0
        } else {
            dx0
        };
        let dy = if dy0 < 0 {
            -dy0
        } else {
            dy0
        };
        let cheb = if dx >= dy {
            dx
        } else {
            dy
        };
        let idx: usize = if cheb - 1 <= 0 {
            0
        } else if cheb - 1 <= self.data.max_distance as i64 {
            (cheb - 1) as usize
        } else {
            self.data.max_distance
        };
        let k = cd_index(
            state.secd as usize,
            state.scd as usize,
            state.ecd as usize,
            state.bdcd as usize,
        );
        proof {
            lemma_memo_layer(
                idx as int + 1,
                self.data.max_distance as int + 1,
                cd_idx(state.secd as int, state.scd as int, state.ecd as int, state.bdcd as int),
            );
            assert((self.data.max_distance + 1) * 104976 == self.data.data.len());
        }
        let v = self.data.data[idx * 104976 + k];
        v as usize
    }
}

/// One abstract ability use in the cooldown model behind the heuristic.
pub enum AbilityMove {
    Bd,
    Surge,
    Escape,
    Walk,
}

/// Whether the cooldowns admit a move.
pub open spec fn move_enabled(m: AbilityMove, a: int, b: int, c: int, e: int) -> bool {
    match m {
        AbilityMove::Bd => e == 0,
        AbilityMove::Surge => a == 0 || b == 0,
        AbilityMove::Escape => a == 0 || c == 0,
        AbilityMove::Walk => a != 0 && e != 0,
    }
}

/// The most distance a move can close.
pub open spec fn move_gain(m: AbilityMove) -> int {
    match m {
        AbilityMove::Bd => 10,
        AbilityMove::Surge => 10,
        AbilityMove::Escape => 7,
        AbilityMove::Walk => 2,
    }
}

/// Timesteps a move takes: only walking lets time pass.
pub open spec fn move_time(m: AbilityMove) -> int {
    match m {
        AbilityMove::Walk => 1,
        _ => 0,
    }
}

/// The cooldowns after a move.
pub open spec fn move_cds(m: AbilityMove, a: int, b: int, c: int, e: int) -> (int, int, int, int) {
    match m {
        AbilityMove::Bd => (a, b, c, 17),
        AbilityMove::Surge => if a == 0 {
            (17, raise2(b), 17, e)
        } else {
            (raise2(a), 17, raise2(c), e)
        },
        AbilityMove::Escape => if a == 0 {
            (17, 17, raise2(c), e)
        } else {
            (raise2(a), raise2(b), 17, e)
        },
        AbilityMove::Walk => (tick(a), tick(b), tick(c), tick(e)),
    }
}

/// A plan closes the remaining distance: each step is an enabled move that
/// actually closes at most its range, and the steps run until nothing
/// remains. The actual gains model that a real move may fall short of its
/// full range.
pub open spec fn plan_closes(
    plan: Seq<(AbilityMove, int)>,
    d: int,
    a: int,
    b: int,
    c: int,
    e: int,
) -> bool
    decreases plan.len(),
{
    if d <= 0 {
        true
    } else if plan.len() == 0 {
        false
    } else {
        let (m, gain) = plan[0];
        let cds = move_cds(m, a, b, c, e);
        &&& move_enabled(m, a, b, c, e)
        &&& 0 <= gain <= move_gain(m)
        &&& plan_closes(plan.drop_first(), d - gain, cds.0, cds.1, cds.2, cds.3)
    }
}

/// Total timesteps a plan takes.
pub open spec fn plan_time(plan: Seq<(AbilityMove, int)>) -> int
    decreases plan.len(),
{
    if plan.len() == 0 {
        0
    } else {
        move_time(plan[0].0) + plan_time(plan.drop_first())
    }
}

proof fn lemma_plan_time_nonneg(plan: Seq<(AbilityMove, int)>)
    ensures
        plan_time(plan) >= 0,
    decreases plan.len(),
{
    if plan.len() > 0 {
        lemma_plan_time_nonneg(plan.drop_first());
    }
}

/// Admissibility of the heuristic over the cooldown model: no plan of
/// dashes, teleports and walk-steps that closes the remaining distance under
/// the cooldown rules takes fewer timesteps than the cost recursion's value
/// for that distance and those cooldowns.
pub proof fn lemma_cost_admissible(
    plan: Seq<(AbilityMove, int)>,
    d: int,
    a: int,
    b: int,
    c: int,
    e: int,
)
    requires
        plan_closes(plan, d, a, b, c, e),
    ensures
        cost(d, a, b, c, e) <= plan_time(plan),
    decreases plan.len(),
{
    if d <= 0 {
        lemma_plan_time_nonneg(plan);
    } else {
        let (m, gain) = plan[0];
        let cds = move_cds(m, a, b, c, e);
        lemma_cost_admissible(plan.drop_first(), d - gain, cds.0, cds.1, cds.2, cds.3);
        lemma_cost_monotone(d - move_gain(m), d - gain, cds.0, cds.1, cds.2, cds.3);
        match m {
            AbilityMove::Bd => {
                assert(cost(d, a, b, c, e) <= cost(d - 10, a, b, c, 17));
            },
            AbilityMove::Surge => {
                if a == 0 {
                    assert(cost(d, a, b, c, e) <= cost(d - 10, 17, raise2(b), 17, e));
                } else {
                    assert(cost(d, a, b, c, e) <= cost(d - 10, raise2(a), 17, raise2(c), e));
                }
            },
            AbilityMove::Escape => {
                if a == 0 {
                    assert(cost(d, a, b, c, e) <= cost(d - 7, 17, 17, raise2(c), e));
                } else {
                    assert(cost(d, a, b, c, e) <= cost(d - 7, raise2(a), raise2(b), 17, e));
                }
            },
            AbilityMove::Walk => {
                assert(cost(d, a, b, c, e) <= cost(
                    d - 2,
                    tick(a),
                    tick(b),
                    tick(c),
                    tick(e),
                ) + 1);
            },
        }
    }
}

} // verus!
