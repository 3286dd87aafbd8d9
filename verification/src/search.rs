//! Best-first search over the implicit state graph.
//!
//! The open set is ranked by path cost plus heuristic; a best-known-cost
//! arena doubles as the closed set and the predecessor map. A returned plan
//! is sound: its path starts at the start state, every edge is a genuine
//! transition of the map, and the last state satisfies the goal tolerance.
//! Exhausting the open set without reaching the goal is the distinct
//! "unreachable" outcome, and the search is complete: that outcome is
//! reported only when no sound plan through in-section states exists at
//! all.

use vstd::prelude::*;
use vstd::arithmetic::div_mod::lemma_fundamental_div_mod_converse;
use vstd::set_lib::lemma_int_range;
use vstd::set_lib::lemma_len_subset;
use vstd::set_lib::set_int_range;
use crate::heuristic::Heuristic;
use crate::map_section::MapSection;
use crate::state::State;

verus! {

/// The move that one search edge uses.
#[derive(PartialEq, Eq, Structural, Clone, Copy, Debug)]
pub enum MoveKind {
    Wait,
    Walk,
    Bd,
    Surge,
    Escape,
}

/// The state a walk edge ends in: relocate, then let the timestep pass.
pub open spec fn walk_result(a: State, dest: (u16, u16, u8)) -> State {
    a.move_spec(dest.0, dest.1, dest.2).update_spec()
}

/// The state a dash edge ends in.
pub open spec fn bd_result(a: State, dest: (u16, u16, u8)) -> State {
    a.bd_spec(dest.0, dest.1, dest.2)
}

/// Whether `b` is reachable from `a` in one edge of the given kind, within
/// the section.
#[verifier::opaque]
pub open spec fn valid_step(a: State, b: State, k: MoveKind, map: MapSection) -> bool {
    match k {
        MoveKind::Wait => b == a.update_spec(),
        MoveKind::Walk => exists|i: int|
            0 <= i < map.walk_at(a.pos_x as int, a.pos_y as int).len() && b == walk_result(
                a,
                #[trigger] map.walk_at(a.pos_x as int, a.pos_y as int)[i],
            ),
        MoveKind::Bd => a.can_bd_spec() && exists|i: int|
            0 <= i < map.bd_at(a.pos_x as int, a.pos_y as int).len() && b == bd_result(
                a,
                #[trigger] map.bd_at(a.pos_x as int, a.pos_y as int)[i],
            ),
        MoveKind::Surge => a.can_surge_spec() && b == a.surge_spec(map),
        MoveKind::Escape => a.can_escape_spec() && b == a.escape_spec(map),
    }
}

/// The successor edges of a state, in generation order: every walk
/// destination, then every dash destination if the dash is ready, the
/// teleports if ready, and finally waiting in place.
#[verifier::opaque]
pub open spec fn successors_spec(s: State, map: MapSection) -> Seq<(State, usize, MoveKind)> {
    let walk = map.walk_at(s.pos_x as int, s.pos_y as int).map(
        |i: int, d: (u16, u16, u8)| (walk_result(s, d), 1usize, MoveKind::Walk),
    );
    let with_bd = if s.can_bd_spec() {
        walk + map.bd_at(s.pos_x as int, s.pos_y as int).map(
            |i: int, d: (u16, u16, u8)| (bd_result(s, d), 0usize, MoveKind::Bd),
        )
    } else {
        walk
    };
    let with_surge = if s.can_surge_spec() {
        with_bd.push((s.surge_spec(map), 0usize, MoveKind::Surge))
    } else {
        with_bd
    };
    let with_escape = if s.can_escape_spec() {
        with_surge.push((s.escape_spec(map), 0usize, MoveKind::Escape))
    } else {
        with_surge
    };
    with_escape.push((s.update_spec(), 1usize, MoveKind::Wait))
}

/// Generates the successor edges of a state. Identical state and section
/// values yield the identical edge sequence.
pub fn successors(state: &State, map: &MapSection) -> (r: Vec<(State, usize, MoveKind)>)
    requires
        state.wf(),
        map.wf(),
        map.contains(state.pos_x as int, state.pos_y as int),
    ensures
        r@ == successors_spec(*state, *map),
        forall|i: int|
            0 <= i < r@.len() ==> (#[trigger] r@[i]).0.wf() && valid_step(
                *state,
                r@[i].0,
                r@[i].2,
                *map,
            ) && r@[i].1 <= 1,
{
    let ghost s = *state;
    let ghost wl = map.walk_at(s.pos_x as int, s.pos_y as int);
    let ghost bl = map.bd_at(s.pos_x as int, s.pos_y as int);
    let mut r: Vec<(State, usize, MoveKind)> = Vec::new();
    let walk = map.walk_range(state.pos_x, state.pos_y);
    let mut k: usize = 0;
    while k < walk.len()
        invariant
            state.wf(),
            map.wf(),
            map.contains(state.pos_x as int, state.pos_y as int),
            walk@ == wl,
            s == *state,
            wl == map.walk_at(s.pos_x as int, s.pos_y as int),
            k <= wl.len(),
            r@.len() == k,
            forall|i: int| 0 <= i < k ==> r@[i] == (walk_result(s, wl[i]), 1usize, MoveKind::Walk),
        decreases walk.len() - k,
    {
        let dest = walk[k];
        r.push((state.move_to(dest.0, dest.1, dest.2).update(), 1, MoveKind::Walk));
        k = k + 1;
    }
    proof {
        assert(r@ =~= wl.map(|i: int, d: (u16, u16, u8)| (walk_result(s, d), 1usize, MoveKind::Walk)));
    }
    let ghost walk_part = r@;
    if state.can_bd() {
        let bd = map.bd_range(state.pos_x, state.pos_y);
        let mut k: usize = 0;
        while k < bd.len()
            invariant
                state.wf(),
                map.wf(),
                map.contains(state.pos_x as int, state.pos_y as int),
                s == *state,
                s.can_bd_spec(),
                bd@ == bl,
                bl == map.bd_at(s.pos_x as int, s.pos_y as int),
                k <= bl.len(),
                r@.len() == walk_part.len() + k,
                r@.subrange(0, walk_part.len() as int) == walk_part,
                forall|i: int|
                    0 <= i < k ==> r@[walk_part.len() + i] == (
                    bd_result(s, bl[i]),
                    0usize,
                    MoveKind::Bd,
                ),
            decreases bd.len() - k,
        {
            let dest = bd[k];
            r.push((state.bd(dest.0, dest.1, dest.2), 0, MoveKind::Bd));
            proof {
                assert(r@.subrange(0, walk_part.len() as int) =~= walk_part);
            }
            k = k + 1;
        }
        proof {
            assert(r@ =~= walk_part + bl.map(
                |i: int, d: (u16, u16, u8)| (bd_result(s, d), 0usize, MoveKind::Bd),
            ));
        }
    }
    if state.can_surge() {
        r.push((state.surge(map), 0, MoveKind::Surge));
    }
    if state.can_escape() {
        r.push((state.escape(map), 0, MoveKind::Escape));
    }
    r.push((state.update(), 1, MoveKind::Wait));
    proof {
        reveal(valid_step);
        reveal(successors_spec);
        assert(r@ =~= successors_spec(s, *map));
        assert forall|i: int|
            0 <= i < r@.len() implies (#[trigger] r@[i]).0.wf() && valid_step(
            s,
            r@[i].0,
            r@[i].2,
            *map,
        ) && r@[i].1 <= 1 by {
            let e = successors_spec(s, *map)[i];
            let walk_seq = wl.map(
                |j: int, d: (u16, u16, u8)| (walk_result(s, d), 1usize, MoveKind::Walk),
            );
            let bd_seq = bl.map(|j: int, d: (u16, u16, u8)| (bd_result(s, d), 0usize, MoveKind::Bd));
            if i < walk_seq.len() {
                assert(e == (walk_result(s, wl[i]), 1usize, MoveKind::Walk));
                assert(wl[i].2 < 8);
                assert(e.0 == walk_result(s, map.walk_at(s.pos_x as int, s.pos_y as int)[i]));
            } else if s.can_bd_spec() && i < walk_seq.len() + bd_seq.len() {
                let j = i - walk_seq.len();
                assert(e == (bd_result(s, bl[j]), 0usize, MoveKind::Bd));
                assert(bl[j].2 < 8);
                assert(e.0 == bd_result(s, map.bd_at(s.pos_x as int, s.pos_y as int)[j]));
            }
        }
    }
    r
}

/// A sound plan: the path starts at the start state, each consecutive pair
/// is a genuine transition of the given kind, and the last state satisfies
/// the goal tolerance.
pub open spec fn plan_ok(
    start: State,
    end: (u16, u16),
    map: MapSection,
    path: Seq<State>,
    kinds: Seq<MoveKind>,
) -> bool {
    &&& path.len() >= 1
    &&& path[0] == start
    &&& path[path.len() - 1].at_goal_spec(end)
    &&& kinds.len() == path.len() - 1
    &&& forall|i: int|
        0 <= i < kinds.len() ==> valid_step(path[i], path[i + 1], #[trigger] kinds[i], map)
}

/// A successful search outcome: some edge-kind sequence makes the returned
/// path a sound plan, and the returned labels are its compression.
pub open spec fn search_result_ok(
    start: State,
    end: (u16, u16),
    map: MapSection,
    path: Seq<State>,
    labels: Seq<Seq<MoveKind>>,
) -> bool {
    exists|kinds: Seq<MoveKind>|
        #[trigger] plan_ok(start, end, map, path, kinds) && labels == compress_spec(kinds)
}

/// Every state of the path lies inside the section's bounding box. Only
/// such paths are enumerable: outside the box the section holds no data.
pub open spec fn in_section_path(path: Seq<State>, map: MapSection) -> bool {
    forall|i: int|
        0 <= i < path.len() ==> map.contains(
            (#[trigger] path[i]).pos_x as int,
            path[i].pos_y as int,
        )
}

/// Folds a move-kind sequence into compressed instructions: ability moves
/// accumulate and combine with the next walk or wait into one instruction;
/// only walk and wait stand alone.
pub open spec fn compress_rec(
    kinds: Seq<MoveKind>,
    i: int,
    pending: Seq<MoveKind>,
    out: Seq<Seq<MoveKind>>,
) -> Seq<Seq<MoveKind>>
    decreases kinds.len() - i,
{
    if i < 0 || i >= kinds.len() {
        if pending.len() > 0 {
            out.push(pending)
        } else {
            out
        }
    } else {
        let k = kinds[i];
        if k == MoveKind::Walk || k == MoveKind::Wait {
            compress_rec(kinds, i + 1, Seq::empty(), out.push(pending.push(k)))
        } else {
            compress_rec(kinds, i + 1, pending.push(k), out)
        }
    }
}

/// The compressed instruction sequence of a move-kind sequence.
pub open spec fn compress_spec(kinds: Seq<MoveKind>) -> Seq<Seq<MoveKind>> {
    compress_rec(kinds, 0, Seq::empty(), Seq::empty())
}

/// The instruction sequences a vector of instruction vectors stands for.
pub open spec fn label_views(v: Seq<Vec<MoveKind>>) -> Seq<Seq<MoveKind>> {
    Seq::new(v.len(), |i: int| v[i]@)
}

/// Compresses an edge-kind sequence into compound instructions.
pub fn compress_labels(kinds: &Vec<MoveKind>) -> (r: Vec<Vec<MoveKind>>)
    ensures
        label_views(r@) == compress_spec(kinds@),
{
    let mut out: Vec<Vec<MoveKind>> = Vec::new();
    let mut pending: Vec<MoveKind> = Vec::new();
    proof {
        assert(label_views(out@) =~= Seq::<Seq<MoveKind>>::empty());
    }
    let mut i: usize = 0;
    while i < kinds.len()
        invariant
            i <= kinds.len(),
            compress_rec(kinds@, i as int, pending@, label_views(out@)) == compress_spec(kinds@),
        decreases kinds.len() - i,
    {
        let k = kinds[i];
        pending.push(k);
        if k == MoveKind::Walk || k == MoveKind::Wait {
            let ghost pend0 = pending@.drop_last();
            let ghost out0 = label_views(out@);
            out.push(pending);
            pending = Vec::new();
            proof {
                assert(pend0.push(kinds@[i as int]) == out@[out@.len() - 1]@);
                assert(label_views(out@) =~= out0.push(pend0.push(kinds@[i as int])));
            }
        }
        i = i + 1;
    }
    if pending.len() > 0 {
        let ghost out0 = label_views(out@);
        let ghost pend0 = pending@;
        out.push(pending);
        proof {
            assert(label_views(out@) =~= out0.push(pend0));
        }
    }
    out
}

/// Size of the search state space: positions, facings and cooldown bytes.
pub open spec fn state_space_bound() -> int {
    0x1000000000000000000
}

/// A state packed into one integer, field by field.
pub open spec fn state_key(s: State) -> int {
    s.pos_x + 0x10000 * (s.pos_y + 0x10000 * (s.direction + 0x100 * (s.secd + 0x100 * (s.scd
        + 0x100 * (s.ecd + 0x100 * s.bdcd)))))
}

proof fn lemma_radix(lo: int, hi: int, r: int, bound: int)
    by (nonlinear_arith)
    requires
        0 <= lo < r,
        0 <= hi < bound,
    ensures
        0 <= lo + r * hi < r * bound,
{
}

proof fn lemma_state_key_bound(s: State)
    ensures
        0 <= state_key(s) < state_space_bound(),
{
    lemma_radix(s.ecd as int, s.bdcd as int, 0x100, 0x100);
    lemma_radix(s.scd as int, s.ecd + 0x100 * s.bdcd, 0x100, 0x10000);
    lemma_radix(s.secd as int, s.scd + 0x100 * (s.ecd + 0x100 * s.bdcd), 0x100, 0x1000000);
    lemma_radix(
        s.direction as int,
        s.secd + 0x100 * (s.scd + 0x100 * (s.ecd + 0x100 * s.bdcd)),
        0x100,
        0x100000000,
    );
    lemma_radix(
        s.pos_y as int,
        s.direction + 0x100 * (s.secd + 0x100 * (s.scd + 0x100 * (s.ecd + 0x100 * s.bdcd))),
        0x10000,
        0x10000000000,
    );
    lemma_radix(
        s.pos_x as int,
        s.pos_y + 0x10000 * (
        s.direction + 0x100 * (s.secd + 0x100 * (s.scd + 0x100 * (s.ecd + 0x100 * s.bdcd)))),
        0x10000,
        0x100000000000000,
    );
}

proof fn lemma_state_key_inj(s1: State, s2: State)
    requires
        state_key(s1) == state_key(s2),
    ensures
        s1 == s2,
{
    let r1 = s1.pos_y + 0x10000 * (s1.direction + 0x100 * (s1.secd + 0x100 * (s1.scd + 0x100 * (
    s1.ecd + 0x100 * s1.bdcd))));
    let r2 = s2.pos_y + 0x10000 * (s2.direction + 0x100 * (s2.secd + 0x100 * (s2.scd + 0x100 * (
    s2.ecd + 0x100 * s2.bdcd))));
    lemma_state_key_bound(s1);
    lemma_state_key_bound(s2);
    lemma_radix(s1.pos_y as int, (s1.direction + 0x100 * (s1.secd + 0x100 * (s1.scd + 0x100 * (
    s1.ecd + 0x100 * s1.bdcd)))), 0x10000, 0x100000000000000);
    lemma_radix(s2.pos_y as int, (s2.direction + 0x100 * (s2.secd + 0x100 * (s2.scd + 0x100 * (
    s2.ecd + 0x100 * s2.bdcd)))), 0x10000, 0x100000000000000);
    lemma_fundamental_div_mod_converse(state_key(s1), 0x10000, r1, s1.pos_x as int);
    lemma_fundamental_div_mod_converse(state_key(s2), 0x10000, r2, s2.pos_x as int);
    let t1 = s1.direction + 0x100 * (s1.secd + 0x100 * (s1.scd + 0x100 * (s1.ecd + 0x100
        * s1.bdcd)));
    let t2 = s2.direction + 0x100 * (s2.secd + 0x100 * (s2.scd + 0x100 * (s2.ecd + 0x100
        * s2.bdcd)));
    lemma_radix(s1.direction as int, s1.secd + 0x100 * (s1.scd + 0x100 * (s1.ecd + 0x100 * s1.bdcd)), 0x100, 0x100000000);
    lemma_radix(s2.direction as int, s2.secd + 0x100 * (s2.scd + 0x100 * (s2.ecd + 0x100 * s2.bdcd)), 0x100, 0x100000000);
    lemma_fundamental_div_mod_converse(r1, 0x10000, t1, s1.pos_y as int);
    lemma_fundamental_div_mod_converse(r2, 0x10000, t2, s2.pos_y as int);
    let u1 = s1.secd + 0x100 * (s1.scd + 0x100 * (s1.ecd + 0x100 * s1.bdcd));
    let u2 = s2.secd + 0x100 * (s2.scd + 0x100 * (s2.ecd + 0x100 * s2.bdcd));
    lemma_radix(s1.secd as int, s1.scd + 0x100 * (s1.ecd + 0x100 * s1.bdcd), 0x100, 0x1000000);
    lemma_radix(s2.secd as int, s2.scd + 0x100 * (s2.ecd + 0x100 * s2.bdcd), 0x100, 0x1000000);
    lemma_fundamental_div_mod_converse(t1, 0x100, u1, s1.direction as int);
    lemma_fundamental_div_mod_converse(t2, 0x100, u2, s2.direction as int);
    let v1 = s1.scd + 0x100 * (s1.ecd + 0x100 * s1.bdcd);
    let v2 = s2.scd + 0x100 * (s2.ecd + 0x100 * s2.bdcd);
    lemma_radix(s1.scd as int, s1.ecd + 0x100 * s1.bdcd, 0x100, 0x10000);
    lemma_radix(s2.scd as int, s2.ecd + 0x100 * s2.bdcd, 0x100, 0x10000);
    lemma_fundamental_div_mod_converse(u1, 0x100, v1, s1.secd as int);
    lemma_fundamental_div_mod_converse(u2, 0x100, v2, s2.secd as int);
    let w1 = s1.ecd + 0x100 * s1.bdcd;
    let w2 = s2.ecd + 0x100 * s2.bdcd;
    lemma_radix(s1.ecd as int, s1.bdcd as int, 0x100, 0x100);
    lemma_radix(s2.ecd as int, s2.bdcd as int, 0x100, 0x100);
    lemma_fundamental_div_mod_converse(v1, 0x100, w1, s1.scd as int);
    lemma_fundamental_div_mod_converse(v2, 0x100, w2, s2.scd as int);
    lemma_fundamental_div_mod_converse(w1, 0x100, s1.bdcd as int, s1.ecd as int);
    lemma_fundamental_div_mod_converse(w2, 0x100, s2.bdcd as int, s2.ecd as int);
}

/// One arena entry of the search.
#[derive(Clone, Copy)]
struct SearchNode {
    state: State,
    g: usize,
    parent: usize,
    kind: MoveKind,
    closed: bool,
}

/// The predecessor edge of one arena node: an earlier node whose state
/// reaches this one in one genuine transition.
spec fn edge_ok(nodes: Seq<SearchNode>, j: int, map: MapSection) -> bool {
    &&& nodes[j].parent < j
    &&& valid_step(nodes[nodes[j].parent as int].state, nodes[j].state, nodes[j].kind, map)
}

/// The structural invariant of the search arena: the first node holds the
/// start state with cost zero, every later node's predecessor edge is a
/// genuine transition from an earlier node, states are well-formed and
/// pairwise distinct, and best-known costs stay below the arena size.
#[verifier::opaque]
spec fn arena_ok(nodes: Seq<SearchNode>, start: State, map: MapSection) -> bool {
    &&& nodes.len() >= 1
    &&& nodes[0].state == start
    &&& nodes[0].g == 0
    &&& nodes[0].parent == 0
    &&& forall|j: int| 1 <= j < nodes.len() ==> #[trigger] edge_ok(nodes, j, map)
    &&& forall|j: int| 0 <= j < nodes.len() ==> (#[trigger] nodes[j]).state.wf()
    &&& forall|j: int| 0 <= j < nodes.len() ==> (#[trigger] nodes[j]).g < nodes.len()
    &&& forall|j1: int, j2: int|
        0 <= j1 < j2 < nodes.len() ==> (#[trigger] nodes[j1]).state != (
        #[trigger] nodes[j2]).state
}

/// Every successor edge of node `j`'s state leads to a state the arena
/// already holds.
spec fn node_expanded(nodes: Seq<SearchNode>, j: int, map: MapSection) -> bool {
    forall|i: int|
        0 <= i < successors_spec(nodes[j].state, map).len() ==> exists|j2: int|
            0 <= j2 < nodes.len() && (#[trigger] nodes[j2]).state == (
            #[trigger] successors_spec(nodes[j].state, map)[i]).0
}

/// Closed nodes never satisfy the goal test, and every closed in-section
/// node has offered all its successors to the arena.
spec fn closed_ok(nodes: Seq<SearchNode>, end: (u16, u16), map: MapSection) -> bool {
    &&& forall|j: int|
        0 <= j < nodes.len() && (#[trigger] nodes[j]).closed ==> !nodes[j].state.at_goal_spec(end)
    &&& forall|j: int|
        0 <= j < nodes.len() && (#[trigger] nodes[j]).closed && map.contains(
            nodes[j].state.pos_x as int,
            nodes[j].state.pos_y as int,
        ) ==> node_expanded(nodes, j, map)
}

/// Every node not yet closed sits in the open list.
spec fn frontier_ok(nodes: Seq<SearchNode>, open: Seq<usize>) -> bool {
    forall|j: int|
        0 <= j < nodes.len() && !(#[trigger] nodes[j]).closed ==> exists|k: int|
            0 <= k < open.len() && #[trigger] open[k] == j
}

/// Pairwise distinct states bound the arena by the state space size.
proof fn lemma_arena_bounded(nodes: Seq<SearchNode>)
    requires
        forall|j1: int, j2: int|
            0 <= j1 < j2 < nodes.len() ==> (#[trigger] nodes[j1]).state != (
            #[trigger] nodes[j2]).state,
    ensures
        nodes.len() <= state_space_bound(),
{
    let keys = nodes.map(|i: int, n: SearchNode| state_key(n.state));
    assert forall|j1: int, j2: int|
        0 <= j1 < keys.len() && 0 <= j2 < keys.len() && j1 != j2 implies keys[j1] != keys[j2] by {
        if state_key(nodes[j1].state) == state_key(nodes[j2].state) {
            lemma_state_key_inj(nodes[j1].state, nodes[j2].state);
        }
    }
    assert(keys.no_duplicates());
    keys.unique_seq_to_set();
    assert forall|k: int| keys.to_set().contains(k) implies set_int_range(
        0,
        state_space_bound(),
    ).contains(k) by {
        let j = choose|j: int| 0 <= j < keys.len() && keys[j] == k;
        lemma_state_key_bound(nodes[j].state);
    }
    lemma_int_range(0, state_space_bound());
    lemma_len_subset(keys.to_set(), set_int_range(0, state_space_bound()));
}

/// A transition admitted by `valid_step` always appears among the successor
/// edges of its source state.
proof fn lemma_valid_step_in_successors(a: State, b: State, k: MoveKind, map: MapSection)
    requires
        valid_step(a, b, k, map),
    ensures
        exists|i: int|
            0 <= i < successors_spec(a, map).len() && (#[trigger] successors_spec(a, map)[i]).0
                == b,
{
    reveal(valid_step);
    reveal(successors_spec);
    let walk = map.walk_at(a.pos_x as int, a.pos_y as int).map(
        |i: int, d: (u16, u16, u8)| (walk_result(a, d), 1usize, MoveKind::Walk),
    );
    let bd_seq = map.bd_at(a.pos_x as int, a.pos_y as int).map(
        |i: int, d: (u16, u16, u8)| (bd_result(a, d), 0usize, MoveKind::Bd),
    );
    let with_bd: Seq<(State, usize, MoveKind)> = if a.can_bd_spec() {
        walk + bd_seq
    } else {
        walk
    };
    let with_surge: Seq<(State, usize, MoveKind)> = if a.can_surge_spec() {
        with_bd.push((a.surge_spec(map), 0usize, MoveKind::Surge))
    } else {
        with_bd
    };
    let with_escape: Seq<(State, usize, MoveKind)> = if a.can_escape_spec() {
        with_surge.push((a.escape_spec(map), 0usize, MoveKind::Escape))
    } else {
        with_surge
    };
    let full = with_escape.push((a.update_spec(), 1usize, MoveKind::Wait));
    assert(successors_spec(a, map) == full);
    match k {
        MoveKind::Wait => {
            assert(successors_spec(a, map)[full.len() - 1].0 == b);
        },
        MoveKind::Walk => {
            let wl = map.walk_at(a.pos_x as int, a.pos_y as int);
            let i = choose|i: int|
                0 <= i < wl.len() && b == walk_result(a, #[trigger] wl[i]);
            assert(walk[i].0 == b);
            assert(with_bd[i] == walk[i]);
            assert(successors_spec(a, map)[i].0 == b);
        },
        MoveKind::Bd => {
            let bl = map.bd_at(a.pos_x as int, a.pos_y as int);
            let i = choose|i: int|
                0 <= i < bl.len() && b == bd_result(a, #[trigger] bl[i]);
            assert(bd_seq[i].0 == b);
            assert(with_bd[walk.len() + i] == bd_seq[i]);
            assert(successors_spec(a, map)[walk.len() + i].0 == b);
        },
        MoveKind::Surge => {
            assert(with_surge[with_bd.len() as int].0 == b);
            assert(successors_spec(a, map)[with_bd.len() as int].0 == b);
        },
        MoveKind::Escape => {
            assert(with_escape[with_surge.len() as int].0 == b);
            assert(successors_spec(a, map)[with_surge.len() as int].0 == b);
        },
    }
}

/// In an exhausted arena (every node closed, every in-section node
/// expanded), the states of any sound in-section plan from the start all
/// appear in the arena.
proof fn lemma_plan_in_arena(
    nodes: Seq<SearchNode>,
    map: MapSection,
    start: State,
    end: (u16, u16),
    path: Seq<State>,
    kinds: Seq<MoveKind>,
    n: int,
)
    requires
        nodes.len() >= 1,
        nodes[0].state == start,
        forall|j: int| 0 <= j < nodes.len() ==> (#[trigger] nodes[j]).closed,
        closed_ok(nodes, end, map),
        in_section_path(path, map),
        path.len() >= 1,
        path[0] == start,
        kinds.len() == path.len() - 1,
        forall|i: int|
            0 <= i < kinds.len() ==> valid_step(path[i], path[i + 1], #[trigger] kinds[i], map),
        0 <= n < path.len(),
    ensures
        exists|j: int| 0 <= j < nodes.len() && (#[trigger] nodes[j]).state == path[n],
    decreases n,
{
    if n == 0 {
        assert(nodes[0].state == path[0]);
    } else {
        lemma_plan_in_arena(nodes, map, start, end, path, kinds, n - 1);
        let j = choose|j: int| 0 <= j < nodes.len() && (#[trigger] nodes[j]).state == path[n - 1];
        assert(map.contains(path[n - 1].pos_x as int, path[n - 1].pos_y as int));
        assert(node_expanded(nodes, j, map));
        lemma_valid_step_in_successors(path[n - 1], path[n], kinds[n - 1], map);
        let i = choose|i: int|
            0 <= i < successors_spec(path[n - 1], map).len() && (
            #[trigger] successors_spec(path[n - 1], map)[i]).0 == path[n];
        assert(nodes[j].state == path[n - 1]);
        assert((successors_spec(nodes[j].state, map)[i]).0 == path[n]);
    }
}

fn find_state(nodes: &Vec<SearchNode>, s: &State) -> (r: Option<usize>)
    ensures
        r matches Some(j) ==> j < nodes@.len() && nodes@[j as int].state == *s,
        r is None ==> forall|j: int| 0 <= j < nodes@.len() ==> (#[trigger] nodes@[j]).state != *s,
{
    let mut i: usize = 0;
    while i < nodes.len()
        invariant
            i <= nodes.len(),
            forall|j: int| 0 <= j < i ==> (#[trigger] nodes@[j]).state != *s,
        decreases nodes.len() - i,
    {
        if nodes[i].state == *s {
            return Some(i);
        }
        i = i + 1;
    }
    None
}

/// Picks the open entry with the least path cost plus heuristic.
fn pick_best(
    open: &Vec<usize>,
    nodes: &Vec<SearchNode>,
    heuristic: &Heuristic,
    end: (u16, u16),
) -> (k: usize)
    requires
        open@.len() > 0,
        heuristic.data.wf(),
        forall|q: int| 0 <= q < open@.len() ==> (#[trigger] open@[q]) < nodes@.len(),
        forall|j: int| 0 <= j < nodes@.len() ==> (#[trigger] nodes@[j]).state.wf(),
    ensures
        k < open@.len(),
{
    let mut best_k: usize = 0;
    let n0 = nodes[open[0]];
    let h0 = heuristic.h(&n0.state, end) as u64;
    let mut best_f: u64 = if n0.g as u64 > u64::MAX - h0 {
        u64::MAX
    } else {
        n0.g as u64 + h0
    };
    let mut k: usize = 1;
    while k < open.len()
        invariant
            heuristic.data.wf(),
            forall|q: int| 0 <= q < open@.len() ==> (#[trigger] open@[q]) < nodes@.len(),
            forall|j: int| 0 <= j < nodes@.len() ==> (#[trigger] nodes@[j]).state.wf(),
            open@.len() > 0,
            k <= open@.len(),
            best_k < open@.len(),
        decreases open@.len() - k,
    {
        let nk = nodes[open[k]];
        let hk = heuristic.h(&nk.state, end) as u64;
        let fk = if nk.g as u64 > u64::MAX - hk {
            u64::MAX
        } else {
            nk.g as u64 + hk
        };
        if fk < best_f {
            best_f = fk;
            best_k = k;
        }
        k = k + 1;
    }
    best_k
}

/// Walks the predecessor arena back from the goal node to the start node,
/// reverses the chain, and compresses the edge labels. Predecessors always
/// precede their nodes, so the walk reaches the start.
fn reconstruct(
    nodes: &Vec<SearchNode>,
    ni: usize,
    start: State,
    end: (u16, u16),
    map: &MapSection,
) -> (r: (Vec<State>, Vec<Vec<MoveKind>>))
    requires
        arena_ok(nodes@, start, *map),
        ni < nodes@.len(),
        nodes@[ni as int].state.at_goal_spec(end),
    ensures
        search_result_ok(start, end, *map, r.0@, label_views(r.1@)),
{
    let mut rev_states: Vec<State> = Vec::new();
    let mut rev_kinds: Vec<MoveKind> = Vec::new();
    let mut cur = ni;
    rev_states.push(nodes[cur].state);
    while cur != 0
        invariant
            arena_ok(nodes@, start, *map),
            cur < nodes@.len(),
            rev_states@.len() == rev_kinds@.len() + 1,
            rev_states@[0] == nodes@[ni as int].state,
            ni < nodes@.len(),
            rev_states@[rev_states@.len() - 1] == nodes@[cur as int].state,
            forall|i: int|
                0 <= i < rev_kinds@.len() ==> valid_step(
                    rev_states@[i + 1],
                    rev_states@[i],
                    #[trigger] rev_kinds@[i],
                    *map,
                ),
        decreases cur,
    {
        proof {
            reveal(arena_ok);
            assert(edge_ok(nodes@, cur as int, *map));
        }
        rev_kinds.push(nodes[cur].kind);
        cur = nodes[cur].parent;
        rev_states.push(nodes[cur].state);
    }
    proof {
        reveal(arena_ok);
    }
    let total = rev_states.len();
    let mut path: Vec<State> = Vec::new();
    let mut i: usize = total;
    while i > 0
        invariant
            total == rev_states@.len(),
            i <= total,
            path@.len() == total - i,
            forall|q: int|
                0 <= q < path@.len() ==> #[trigger] path@[q] == rev_states@[total - 1 - q],
        decreases i,
    {
        i = i - 1;
        path.push(rev_states[i]);
    }
    let mut kinds: Vec<MoveKind> = Vec::new();
    let kt = rev_kinds.len();
    let mut i: usize = kt;
    while i > 0
        invariant
            kt == rev_kinds@.len(),
            i <= kt,
            kinds@.len() == kt - i,
            forall|q: int|
                0 <= q < kinds@.len() ==> #[trigger] kinds@[q] == rev_kinds@[kt - 1 - q],
        decreases i,
    {
        i = i - 1;
        kinds.push(rev_kinds[i]);
    }
    let labels = compress_labels(&kinds);
    proof {
        assert forall|q: int|
            0 <= q < kinds@.len() implies valid_step(
            path@[q],
            path@[q + 1],
            #[trigger] kinds@[q],
            *map,
        ) by {
            assert(kinds@[q] == rev_kinds@[kt - 1 - q]);
            assert(path@[q] == rev_states@[total - 1 - q]);
            assert(path@[q + 1] == rev_states@[total - 2 - q]);
            assert(valid_step(
                rev_states@[(kt - 1 - q) + 1],
                rev_states@[kt - 1 - q],
                rev_kinds@[kt - 1 - q],
                *map,
            ));
        }
        assert(path@[0] == rev_states@[total - 1]);
        assert(path@[path@.len() - 1] == rev_states@[0]);
        assert(plan_ok(start, end, *map, path@, kinds@));
    }
    let result = (path, labels);
    proof {
        assert(plan_ok(start, end, *map, result.0@, kinds@) && label_views(result.1@)
            == compress_spec(kinds@));
        assert(search_result_ok(start, end, *map, result.0@, label_views(result.1@)));
    }
    result
}

/// Offers every successor of the just-closed node `ni` to the arena: an
/// unseen state becomes a new open node, and a cheaper route to a
/// still-open state lowers its recorded best cost.
fn expand_node(
    nodes: &mut Vec<SearchNode>,
    open: &mut Vec<usize>,
    ni: usize,
    start: State,
    map: &MapSection,
)
    requires
        start.wf(),
        map.wf(),
        arena_ok(old(nodes)@, start, *map),
        old(nodes)@.len() <= state_space_bound(),
        forall|k: int| 0 <= k < old(open)@.len() ==> (#[trigger] old(open)@[k]) < old(nodes)@.len(),
        ni < old(nodes)@.len(),
        old(nodes)@[ni as int].closed,
        map.contains(
            old(nodes)@[ni as int].state.pos_x as int,
            old(nodes)@[ni as int].state.pos_y as int,
        ),
    ensures
        arena_ok(final(nodes)@, start, *map),
        final(nodes)@.len() <= state_space_bound(),
        old(nodes)@.len() <= final(nodes)@.len(),
        final(open)@.len() - old(open)@.len() == final(nodes)@.len() - old(nodes)@.len(),
        forall|k: int|
            0 <= k < final(open)@.len() ==> (#[trigger] final(open)@[k]) < final(nodes)@.len(),
        forall|j: int|
            0 <= j < old(nodes)@.len() ==> (#[trigger] final(nodes)@[j]).state
                == old(nodes)@[j].state && final(nodes)@[j].closed == old(nodes)@[j].closed,
        final(open)@.subrange(0, old(open)@.len() as int) == old(open)@,
        forall|j: int|
            old(nodes)@.len() <= j < final(nodes)@.len() ==> !(#[trigger] final(nodes)@[j]).closed
                && exists|k: int|
                0 <= k < final(open)@.len() && #[trigger] final(open)@[k] == j,
        node_expanded(final(nodes)@, ni as int, *map),
{
    proof {
        reveal(arena_ok);
    }
    let n_state = nodes[ni].state;
    let succs = successors(&n_state, map);
    let mut si: usize = 0;
    let ghost nodes0 = old(nodes)@;
    let ghost open0 = old(open)@;
    while si < succs.len()
        invariant
            start.wf(),
            map.wf(),
            arena_ok(nodes@, start, *map),
            nodes@.len() <= state_space_bound(),
            nodes0.len() <= nodes@.len(),
            open@.len() - open0.len() == nodes@.len() - nodes0.len(),
            forall|k2: int| 0 <= k2 < open@.len() ==> (#[trigger] open@[k2]) < nodes@.len(),
            si <= succs@.len(),
            ni < nodes0.len(),
            nodes@[ni as int].state == n_state,
            nodes@[ni as int].closed,
            forall|j: int|
                0 <= j < nodes0.len() ==> (#[trigger] nodes@[j]).state == nodes0[j].state
                    && nodes@[j].closed == nodes0[j].closed,
            open@.subrange(0, open0.len() as int) == open0,
            forall|j: int|
                nodes0.len() <= j < nodes@.len() ==> !(#[trigger] nodes@[j]).closed && exists|k: int|
                    0 <= k < open@.len() && #[trigger] open@[k] == j,
            forall|i: int|
                0 <= i < si ==> exists|j2: int|
                    0 <= j2 < nodes@.len() && (#[trigger] nodes@[j2]).state == (
                    #[trigger] succs@[i]).0,
            forall|i: int|
                0 <= i < succs@.len() ==> (#[trigger] succs@[i]).0.wf() && valid_step(
                    n_state,
                    succs@[i].0,
                    succs@[i].2,
                    *map,
                ) && succs@[i].1 <= 1,
        decreases succs@.len() - si,
    {
        let ghost pre_nodes = nodes@;
        let ghost pre_open = open@;
        let (s2, cost2, kind2) = succs[si];
        let nlen = nodes.len();
        proof {
            reveal(arena_ok);
            assert(nodes@[ni as int].g < nlen);
            assert(succs@[si as int].1 <= 1);
        }
        let g2 = nodes[ni].g + cost2;
        match find_state(&nodes, &s2) {
            None => {
                let idx = nodes.len();
                let ghost pre = nodes@;
                nodes.push(
                    SearchNode { state: s2, g: g2, parent: ni, kind: kind2, closed: false },
                );
                open.push(idx);
                proof {
                    reveal(arena_ok);
                    assert forall|j1: int, j2: int|
                        0 <= j1 < j2 < nodes@.len() implies (#[trigger] nodes@[j1]).state != (
                    #[trigger] nodes@[j2]).state by {
                        if j2 == nodes@.len() - 1 {
                            assert(pre[j1].state != s2);
                        }
                    }
                    assert forall|j: int| 1 <= j < nodes@.len() implies #[trigger] edge_ok(
                        nodes@,
                        j,
                        *map,
                    ) by {
                        if j < pre.len() {
                            assert(edge_ok(pre, j, *map));
                            assert(nodes@[j] == pre[j]);
                            assert(nodes@[pre[j].parent as int] == pre[pre[j].parent as int]);
                        } else {
                            assert(nodes@[j].parent == ni && nodes@[j].state == s2);
                            assert(nodes@[ni as int].state == n_state);
                        }
                    }
                    assert(arena_ok(nodes@, start, *map));
                    lemma_arena_bounded(nodes@);
                    assert(open@.subrange(0, open0.len() as int) =~= open0);
                    assert(nodes@[idx as int].state == s2);
                    assert(open@[open@.len() - 1] == idx);
                }
            },
            Some(j) => {
                if !nodes[j].closed && g2 < nodes[j].g {
                    let ghost pre = nodes@;
                    let mut nj = nodes[j];
                    nj.g = g2;
                    nodes[j] = nj;
                    assert(nodes@[j as int].state == pre[j as int].state && nodes@[j as int].closed
                        == pre[j as int].closed);
                    proof {
                        reveal(arena_ok);
                        assert(pre[0].g == 0);
                        assert(j != 0);
                        assert forall|j2: int| 1 <= j2 < nodes@.len() implies #[trigger] edge_ok(
                            nodes@,
                            j2,
                            *map,
                        ) by {
                            assert(edge_ok(pre, j2, *map));
                            assert(nodes@[j2].parent == pre[j2].parent && nodes@[j2].state
                                == pre[j2].state && nodes@[j2].kind == pre[j2].kind);
                            assert(nodes@[nodes@[j2].parent as int].state
                                == pre[pre[j2].parent as int].state);
                        }
                        assert(arena_ok(nodes@, start, *map));
                    }
                }
                proof {
                    assert(nodes@[j as int].state == s2);
                }
            },
        }
        proof {
            assert forall|q: int|
                0 <= q < pre_nodes.len() implies (#[trigger] nodes@[q]).state == pre_nodes[q].state
                && nodes@[q].closed == pre_nodes[q].closed by {}
            assert forall|j: int|
                nodes0.len() <= j < nodes@.len() implies !(#[trigger] nodes@[j]).closed && exists|
                k: int,
            |
                0 <= k < open@.len() && #[trigger] open@[k] == j by {
                if j < pre_nodes.len() {
                    assert(!pre_nodes[j].closed);
                    let k0 = choose|k: int| 0 <= k < pre_open.len() && #[trigger] pre_open[k] == j;
                    assert(open@.len() >= pre_open.len());
                    assert(open@[k0] == pre_open[k0]);
                } else {
                    assert(open@[open@.len() - 1] == j);
                }
            }
            assert forall|i: int|
                0 <= i < si + 1 implies exists|j2: int|
                0 <= j2 < nodes@.len() && (#[trigger] nodes@[j2]).state == (
            #[trigger] succs@[i]).0 by {
                if i < si {
                    let j2 = choose|j2: int|
                        0 <= j2 < pre_nodes.len() && (#[trigger] pre_nodes[j2]).state
                            == succs@[i].0;
                    assert(nodes@[j2].state == succs@[i].0);
                }
            }
        }
        si = si + 1;
    }
    proof {
        assert forall|i: int|
            0 <= i < successors_spec(nodes@[ni as int].state, *map).len() implies exists|j2: int|
            0 <= j2 < nodes@.len() && (#[trigger] nodes@[j2]).state == (
        #[trigger] successors_spec(nodes@[ni as int].state, *map)[i]).0 by {
            assert(succs@[i] == successors_spec(n_state, *map)[i]);
            assert(exists|j2: int|
                0 <= j2 < nodes@.len() && (#[trigger] nodes@[j2]).state == succs@[i].0);
        }
        assert(node_expanded(nodes@, ni as int, *map));
    }
}

/// Best-first search from `start` to the tolerance box around `end`.
/// Success returns the tile path and the compressed move labels of a sound
/// plan. `None` is the distinct "unreachable" outcome, and is owed only
/// when no sound plan through in-section states exists at all.
pub fn a_star_end_buffer(
    start: State,
    end: (u16, u16),
    map: &MapSection,
    heuristic: Heuristic,
) -> (r: Option<(Vec<State>, Vec<Vec<MoveKind>>)>)
    requires
        start.wf(),
        map.wf(),
        heuristic.data.wf(),
        map.contains(start.pos_x as int, start.pos_y as int),
    ensures
        r matches Some(pm) ==> search_result_ok(start, end, *map, pm.0@, label_views(pm.1@)),
        start.at_goal_spec(end) ==> r is Some,
        r is None ==> forall|path: Seq<State>, kinds: Seq<MoveKind>|
            in_section_path(path, *map) ==> !(#[trigger] plan_ok(start, end, *map, path, kinds)),
{
    if start.at_goal(&end) {
        let mut path: Vec<State> = Vec::new();
        path.push(start);
        let kinds: Vec<MoveKind> = Vec::new();
        let labels = compress_labels(&kinds);
        let result = (path, labels);
        proof {
            assert(plan_ok(start, end, *map, result.0@, kinds@) && label_views(result.1@)
                == compress_spec(kinds@));
            assert(search_result_ok(start, end, *map, result.0@, label_views(result.1@)));
        }
        return Some(result);
    }
    let mut nodes: Vec<SearchNode> = Vec::new();
    nodes.push(SearchNode { state: start, g: 0, parent: 0, kind: MoveKind::Wait, closed: false });
    let mut open: Vec<usize> = Vec::new();
    open.push(0);
    proof {
        reveal(arena_ok);
        assert(arena_ok(nodes@, start, *map));
        lemma_arena_bounded(nodes@);
        assert(open@[0] == 0);
    }
    while open.len() > 0
        invariant
            start.wf(),
            map.wf(),
            heuristic.data.wf(),
            map.contains(start.pos_x as int, start.pos_y as int),
            !start.at_goal_spec(end),
            arena_ok(nodes@, start, *map),
            nodes@.len() <= state_space_bound(),
            forall|k: int| 0 <= k < open@.len() ==> (#[trigger] open@[k]) < nodes@.len(),
            frontier_ok(nodes@, open@),
            closed_ok(nodes@, end, *map),
        decreases state_space_bound() - nodes@.len(), open@.len(),
    {
        proof {
            reveal(arena_ok);
        }
        let best_k = pick_best(&open, &nodes, &heuristic, end);
        let ni = open[best_k];
        let ghost open0 = open@;
        open.swap_remove(best_k);
        proof {
            assert forall|j: int|
                0 <= j < nodes@.len() && !(#[trigger] nodes@[j]).closed && j != ni implies exists|
                k: int,
            |
                0 <= k < open@.len() && #[trigger] open@[k] == j by {
                let k0 = choose|k: int| 0 <= k < open0.len() && #[trigger] open0[k] == j;
                if k0 == open0.len() - 1 {
                    if best_k < open0.len() - 1 {
                        assert(open@[best_k as int] == j);
                    } else {
                        assert(open0[k0] == ni);
                        assert(false);
                    }
                } else if k0 == best_k {
                    assert(open0[k0] == ni);
                    assert(false);
                } else {
                    assert(open@[k0] == j);
                }
            }
        }
        if !nodes[ni].closed {
            let ghost head = nodes@;
            let mut n = nodes[ni];
            n.closed = true;
            nodes[ni] = n;
            proof {
                reveal(arena_ok);
                assert forall|j: int| 1 <= j < nodes@.len() implies #[trigger] edge_ok(
                    nodes@,
                    j,
                    *map,
                ) by {
                    assert(edge_ok(head, j, *map));
                    assert(nodes@[j].parent == head[j].parent && nodes@[j].state == head[j].state
                        && nodes@[j].kind == head[j].kind);
                    assert(nodes@[nodes@[j].parent as int].state
                        == head[head[j].parent as int].state);
                }
                assert(arena_ok(nodes@, start, *map));
                assert forall|j: int|
                    0 <= j < nodes@.len() && !(#[trigger] nodes@[j]).closed implies exists|k: int|
                    0 <= k < open@.len() && #[trigger] open@[k] == j by {
                    assert(j != ni);
                    assert(!head[j].closed);
                }
                assert(frontier_ok(nodes@, open@));
            }
            if n.state.at_goal(&end) {
                let r = reconstruct(&nodes, ni, start, end, map);
                return Some(r);
            }
            let ghost mid = nodes@;
            let ghost open_mid = open@;
            let in_section = n.state.pos_x as usize >= map.x_start && n.state.pos_x as usize
                <= map.x_end && n.state.pos_y as usize >= map.y_start && n.state.pos_y as usize
                <= map.y_end;
            proof {
                assert(in_section == map.contains(n.state.pos_x as int, n.state.pos_y as int));
            }
            if in_section {
                expand_node(&mut nodes, &mut open, ni, start, map);
            }
            proof {
                // closed nodes stay non-goal and expanded; the newly closed
                // node is non-goal, and expanded where the section holds it
                assert(nodes@[ni as int].state == n.state);
                assert forall|j: int|
                    0 <= j < nodes@.len() && (#[trigger] nodes@[j]).closed implies !nodes@[j].state
                    .at_goal_spec(end) by {
                    if j < mid.len() {
                        assert(nodes@[j].state == mid[j].state && nodes@[j].closed
                            == mid[j].closed);
                        if j != ni {
                            assert(head[j].closed && !head[j].state.at_goal_spec(end));
                        }
                    } else {
                        assert(!nodes@[j].closed);
                    }
                }
                assert forall|j: int|
                    0 <= j < nodes@.len() && (#[trigger] nodes@[j]).closed && map.contains(
                        nodes@[j].state.pos_x as int,
                        nodes@[j].state.pos_y as int,
                    ) implies node_expanded(nodes@, j, *map) by {
                    if j == ni {
                        if in_section {
                            assert(node_expanded(nodes@, ni as int, *map));
                        } else {
                            assert(!map.contains(n.state.pos_x as int, n.state.pos_y as int));
                            assert(false);
                        }
                    } else if j < mid.len() {
                        assert(mid[j].closed && head[j].closed);
                        assert(node_expanded(head, j, *map));
                        assert forall|i: int|
                            0 <= i < successors_spec(nodes@[j].state, *map).len() implies exists|
                            j2: int,
                        |
                            0 <= j2 < nodes@.len() && (#[trigger] nodes@[j2]).state == (
                        #[trigger] successors_spec(nodes@[j].state, *map)[i]).0 by {
                            assert(nodes@[j].state == head[j].state);
                            let j2 = choose|j2: int|
                                0 <= j2 < head.len() && (#[trigger] head[j2]).state == (
                                successors_spec(head[j].state, *map)[i]).0;
                            assert(nodes@[j2].state == head[j2].state);
                        }
                        assert(node_expanded(nodes@, j, *map));
                    } else {
                        assert(!nodes@[j].closed);
                        assert(false);
                    }
                }
                assert(closed_ok(nodes@, end, *map));
                assert forall|j: int|
                    0 <= j < nodes@.len() && !(#[trigger] nodes@[j]).closed implies exists|k: int|
                    0 <= k < open@.len() && #[trigger] open@[k] == j by {
                    if j < mid.len() {
                        assert(nodes@[j].closed == mid[j].closed);
                        assert(!mid[j].closed);
                        let k0 = choose|k: int|
                            0 <= k < open_mid.len() && #[trigger] open_mid[k] == j;
                        if in_section {
                            assert(open@.subrange(0, open_mid.len() as int) == open_mid);
                            assert(open@[k0] == open_mid[k0]);
                        } else {
                            assert(open@ == open_mid);
                        }
                    }
                }
                assert(frontier_ok(nodes@, open@));
            }
        }
    }
    proof {
        reveal(arena_ok);
        assert forall|path: Seq<State>, kinds: Seq<MoveKind>|
            in_section_path(path, *map) implies !(#[trigger] plan_ok(
            start,
            end,
            *map,
            path,
            kinds,
        )) by {
            if plan_ok(start, end, *map, path, kinds) {
                assert forall|j: int| 0 <= j < nodes@.len() implies (
                #[trigger] nodes@[j]).closed by {
                    if !nodes@[j].closed {
                        let k = choose|k: int| 0 <= k < open@.len() && #[trigger] open@[k] == j;
                        assert(false);
                    }
                }
                lemma_plan_in_arena(
                    nodes@,
                    *map,
                    start,
                    end,
                    path,
                    kinds,
                    path.len() - 1,
                );
                let j = choose|j: int|
                    0 <= j < nodes@.len() && (#[trigger] nodes@[j]).state == path[path.len() - 1];
                assert(!nodes@[j].state.at_goal_spec(end));
                assert(false);
            }
        }
    }
    None
}

} // verus!
