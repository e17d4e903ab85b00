//! Territory analysis: a multi-source breadth-first race from the snakes'
//! heads that assigns free cells to the snake that reaches them first.

use vstd::prelude::*;
use std::collections::VecDeque;
use crate::game::{Coord, Direction, can_step, step_spec, alive_actions, dir_index};
use crate::grid::{Blank, Grid};
use crate::cell::{CellGame, CellType, views, same_dims};
use crate::snake::{Snake, SnakeView, FULL_HEALTH};
use crate::state::HAZARD_DAMAGE;
use crate::state::State;

verus! {

/// A cell of the territory map.
#[derive(Debug, PartialEq, Eq, Structural, Clone, Copy)]
pub enum CellFlood {
    Free,
    /// A segment of snake `id`, `tail_dist` segments from its tail.
    Snake { id: u8, tail_dist: u8 },
    /// Claimed by snake `id` at search step `step`; `was_snake` when the
    /// cell held a body segment that moved away in time.
    Owned { id: u8, length: u8, health: u8, was_snake: bool, step: u32 },
    /// Reached by two snakes at once with nothing to tell them apart.
    Draw,
}

impl Default for CellFlood {
    fn default() -> (r: CellFlood)
        ensures
            r == CellFlood::Free,
    {
        CellFlood::Free
    }
}

impl Blank for CellFlood {
    open spec fn blank_spec() -> CellFlood {
        CellFlood::Free
    }

    fn blank() -> (r: CellFlood) {
        CellFlood::Free
    }
}

/// A frontier entry of the search.
#[derive(Debug, Clone, Copy)]
pub struct FloodElement {
    pub id: u8,
    pub pos: Coord,
    pub step: u32,
    pub health: i16,
    pub length: u8,
    pub food_eaten: u8,
}

/// The three search policies.
#[derive(Debug, Clone, Copy, PartialEq, Eq, Structural)]
pub enum FloodType {
    Simple,
    FollowSnakes,
    Constrictor,
}

pub open spec fn sat_inc(v: u32) -> u32 {
    if v == u32::MAX { v } else { (v + 1) as u32 }
}

pub open spec fn sat_dec(v: i16) -> i16 {
    if v == i16::MIN { v } else { (v - 1) as i16 }
}

/// Claim value of a cell, for `FloodElement -> CellFlood`.
/// Health as a cell records it: spent health as 0, more than the type holds as its maximum.
pub open spec fn health_u8(h: i16) -> u8 {
    if h <= 0 {
        0
    } else if h > 255 {
        255
    } else {
        h as u8
    }
}

pub open spec fn owned_from(e: FloodElement, was_snake: bool) -> CellFlood {
    CellFlood::Owned { id: e.id, length: e.length, health: health_u8(e.health), was_snake, step: e.step }
}

impl FloodElement {
    /// The four entries one step further, towards Down, Left, Right and Up:
    /// same snake, one more step, one health less. Step and health stop at
    /// the bounds of their types.
    pub fn get_neighbours(&self) -> (r: [FloodElement; 4])
        requires
            can_step(self.pos),
        ensures
            forall|i: int|
                0 <= i < 4 ==> (#[trigger] r@[i]).pos == step_spec(self.pos, alive_actions()[i])
                    && r@[i].id == self.id && r@[i].step == sat_inc(self.step) && r@[i].health
                    == sat_dec(self.health) && r@[i].length == self.length && r@[i].food_eaten
                    == self.food_eaten,
    {
        let ps = self.pos.get_neighbours();
        let step = if self.step == u32::MAX { self.step } else { self.step + 1 };
        let health = if self.health == i16::MIN { self.health } else { self.health - 1 };
        let r = [
            FloodElement { id: self.id, pos: ps[0], step, health, length: self.length, food_eaten: self.food_eaten },
            FloodElement { id: self.id, pos: ps[1], step, health, length: self.length, food_eaten: self.food_eaten },
            FloodElement { id: self.id, pos: ps[2], step, health, length: self.length, food_eaten: self.food_eaten },
            FloodElement { id: self.id, pos: ps[3], step, health, length: self.length, food_eaten: self.food_eaten },
        ];
        assert(ps@[0] == step_spec(self.pos, alive_actions()[0]));
        assert(ps@[1] == step_spec(self.pos, alive_actions()[1]));
        assert(ps@[2] == step_spec(self.pos, alive_actions()[2]));
        assert(ps@[3] == step_spec(self.pos, alive_actions()[3]));
        r
    }

    /// The claim this entry makes on a cell.
    pub fn to_cell(&self, was_snake: bool) -> (r: CellFlood)
        ensures
            r == owned_from(*self, was_snake),
    {
        CellFlood::Owned {
            id: self.id,
            length: self.length,
            health: if self.health <= 0 {
                0
            } else if self.health > 255 {
                255
            } else {
                self.health as u8
            },
            was_snake,
            step: self.step,
        }
    }
}

/// The territory map of a state.
#[derive(Clone, Debug)]
pub struct Floodfill<'a> {
    pub state: &'a State,
    pub cells: Grid<CellFlood>,
    pub dead_ends: Vec<bool>,
}

/// Weight of a cell in the search's termination measure: claims only ever
/// lower it.
pub open spec fn weight(c: CellFlood) -> nat {
    match c {
        CellFlood::Free => 512,
        CellFlood::Snake { .. } => 512,
        CellFlood::Owned { length, .. } => (256 - length) as nat,
        CellFlood::Draw => 0,
    }
}

pub open spec fn total_weight(cs: Seq<CellFlood>) -> nat
    decreases cs.len(),
{
    if cs.len() == 0 {
        0
    } else {
        total_weight(cs.drop_last()) + weight(cs.last())
    }
}

pub proof fn lemma_weight_update(cs: Seq<CellFlood>, k: int, v: CellFlood)
    requires
        0 <= k < cs.len(),
    ensures
        total_weight(cs.update(k, v)) + weight(cs[k]) == total_weight(cs) + weight(v),
    decreases cs.len(),
{
    if k < cs.len() - 1 {
        assert(cs.update(k, v).drop_last() =~= cs.drop_last().update(k, v));
        lemma_weight_update(cs.drop_last(), k, v);
    } else {
        assert(cs.update(k, v).drop_last() =~= cs.drop_last());
    }
}

/// The snake ids a cell may name: those of living snakes.
pub open spec fn ids_alive(cs: Seq<CellFlood>, ss: Seq<SnakeView>) -> bool {
    forall|k: int|
        0 <= k < cs.len() ==> match #[trigger] cs[k] {
            CellFlood::Owned { id, .. } => id < ss.len() && ss[id as int].alive(),
            CellFlood::Snake { id, .. } => id < ss.len() && ss[id as int].alive(),
            _ => true,
        }
}

/// Snake ids ordered by decreasing length; equal lengths by increasing id.
pub open spec fn before(ss: Seq<SnakeView>, a: int, b: int) -> bool {
    ss[a].body.len() > ss[b].body.len() || (ss[a].body.len() == ss[b].body.len() && a < b)
}


/// The ids of the living snakes, longest first; equal lengths keep id order.
fn get_ordered_ids(snakes: &Vec<Snake>) -> (r: Vec<usize>)
    ensures
        forall|i: int| 0 <= i < r@.len() ==> #[trigger] r@[i] < snakes@.len() && views(snakes@)[r@[i] as int].alive(),
        forall|id: int| 0 <= id < snakes@.len() && (#[trigger] views(snakes@)[id]).alive() ==> r@.contains(id as usize),
        forall|i: int, j: int| 0 <= i < j < r@.len() ==> before(views(snakes@), #[trigger] r@[i] as int, #[trigger] r@[j] as int),
{
    let ghost sv = views(snakes@);
    let n = snakes.len();
    let mut r: Vec<usize> = Vec::new();
    let mut id: usize = 0;
    while id < n
        invariant
            n == snakes@.len(),
            sv == views(snakes@),
            sv.len() == n,
            id <= n,
            forall|i: int| 0 <= i < r@.len() ==> #[trigger] r@[i] < id && sv[r@[i] as int].alive(),
            forall|q: int| 0 <= q < id && (#[trigger] sv[q]).alive() ==> r@.contains(q as usize),
            forall|i: int, j: int| 0 <= i < j < r@.len() ==> before(sv, #[trigger] r@[i] as int, #[trigger] r@[j] as int),
        decreases n - id,
    {
        assert(sv[id as int] == snakes@[id as int]@);
        if snakes[id].is_alive() {
            let len = snakes[id].len();
            let mut q: usize = 0;
            while q < r.len() && snakes[r[q]].len() >= len
                invariant
                    n == snakes@.len(),
                    sv == views(snakes@),
                    sv.len() == n,
                    id < n,
                    len == sv[id as int].body.len(),
                    q <= r@.len(),
                    forall|i: int| 0 <= i < r@.len() ==> #[trigger] r@[i] < id && sv[r@[i] as int].alive(),
                    forall|i: int| 0 <= i < q ==> sv[#[trigger] r@[i] as int].body.len() >= len,
                decreases r@.len() - q,
            {
                assert(sv[r@[q as int] as int] == snakes@[r@[q as int] as int]@);
                q = q + 1;
            }
            proof {
                if q < r@.len() {
                    assert(sv[r@[q as int] as int] == snakes@[r@[q as int] as int]@);
                    assert(sv[r@[q as int] as int].body.len() < len);
                }
            }
            let ghost old_r = r@;
            r.insert(q, id);
            assert forall|i: int, j: int| 0 <= i < j < r@.len() implies before(sv, #[trigger] r@[i] as int, #[trigger] r@[j] as int) by {
                if j < q {
                    assert(r@[i] == old_r[i] && r@[j] == old_r[j]);
                } else if j == q {
                    assert(r@[i] == old_r[i]);
                } else if i == q {
                    assert(r@[j] == old_r[j - 1]);
                    assert(old_r[j - 1] < id);
                    if j - 1 > q {
                        assert(before(sv, old_r[q as int] as int, old_r[j - 1] as int));
                    }
                } else if i < q {
                    assert(r@[i] == old_r[i] && r@[j] == old_r[j - 1]);
                } else {
                    assert(r@[i] == old_r[i - 1] && r@[j] == old_r[j - 1]);
                }
            }
            assert forall|p: int| 0 <= p < id + 1 && (#[trigger] sv[p]).alive() implies r@.contains(p as usize) by {
                if p < id {
                    let w = choose|w: int| 0 <= w < old_r.len() && old_r[w] == p as usize;
                    if w < q {
                        assert(r@[w] == p as usize);
                    } else {
                        assert(r@[w + 1] == p as usize);
                    }
                } else {
                    assert(r@[q as int] == id);
                }
            }
        }
        id = id + 1;
    }
    r
}


/// A length as a cell records it; lengths past the type's range record as its maximum.
fn length_u8(len: usize) -> (r: u8)
    ensures
        r == if len > 255 { 255 } else { len },
{
    if len > 255 {
        255
    } else {
        len as u8
    }
}

/// One move leads from `p` to the cell of `q`, staying on the board.
pub open spec fn adjacent(g: Grid<CellFlood>, p: Coord, q: Coord) -> bool {
    exists|d: Direction|
        dir_index(d) < 4 && g.contains_spec(#[trigger] step_spec(p, d)) && g.idx(step_spec(p, d)) == g.idx(q)
}

/// Cell `k` can be entered at move `t`: it holds no snake segment in the
/// stamped map `init`, or the segment there has moved away by then (its
/// distance from the tail is below `t`).
pub open spec fn passable(init: Seq<CellFlood>, k: int, t: int) -> bool {
    match init[k] {
        CellFlood::Snake { tail_dist, .. } => tail_dist < t,
        _ => true,
    }
}

/// `path` is a walk of `s` single moves over the board (across the edges of
/// a wrapped board) that starts on the cell of `h`, ends at `q`, and enters
/// each cell only once its segment, if any, has moved away.
pub open spec fn walk_path(g: Grid<CellFlood>, init: Seq<CellFlood>, h: Coord, q: Coord, s: int, path: Seq<Coord>) -> bool {
    &&& path.len() == s + 1
    &&& g.idx(path[0]) == g.idx(h)
    &&& path[s] == q
    &&& forall|j: int| 0 <= j < s ==> g.in_range(#[trigger] path[j]) && adjacent(g, path[j], path[j + 1])
    &&& forall|j: int| 1 <= j <= s ==> passable(init, g.idx(#[trigger] path[j]), j)
}

/// `q` ends such a walk of exactly `s` moves from `h`.
pub open spec fn walk(g: Grid<CellFlood>, init: Seq<CellFlood>, h: Coord, q: Coord, s: int) -> bool {
    exists|path: Seq<Coord>| #[trigger] walk_path(g, init, h, q, s, path)
}

pub proof fn lemma_walk_dims(a: Grid<CellFlood>, b: Grid<CellFlood>, init: Seq<CellFlood>, h: Coord, q: Coord, s: int)
    requires
        same_dims(a, b),
        walk(a, init, h, q, s),
    ensures
        walk(b, init, h, q, s),
{
    let path = choose|path: Seq<Coord>| #[trigger] walk_path(a, init, h, q, s, path);
    assert forall|j: int| 0 <= j < s implies b.in_range(#[trigger] path[j]) && adjacent(b, path[j], path[j + 1]) by {
        assert(a.in_range(path[j]) && adjacent(a, path[j], path[j + 1]));
        let d = choose|d: Direction|
            dir_index(d) < 4 && a.contains_spec(#[trigger] step_spec(path[j], d)) && a.idx(step_spec(path[j], d)) == a.idx(path[j + 1]);
        assert(dir_index(d) < 4 && b.contains_spec(step_spec(path[j], d)) && b.idx(step_spec(path[j], d)) == b.idx(path[j + 1]));
    }
    assert forall|j: int| 1 <= j <= s implies passable(init, b.idx(#[trigger] path[j]), j) by {
        assert(passable(init, a.idx(path[j]), j));
    }
    assert(walk_path(b, init, h, q, s, path));
}

/// How many of the first `j` cells of `path` hold food on the game board.
pub open spec fn food_count(sg: Grid<CellGame>, path: Seq<Coord>, j: int) -> nat
    decreases j,
{
    if j <= 0 {
        0
    } else {
        food_count(sg, path, j - 1) + if sg.at(path[j - 1]).cell == CellType::Food { 1nat } else { 0nat }
    }
}

/// A food count as a frontier entry records it (capped at 255).
pub open spec fn sat8(n: int) -> int {
    if n > 255 { 255 } else { n }
}

/// Entering cell `k` at move `j` respects the own-body rule of snake `owner`,
/// having eaten `fe` food on the way: one of its own segments must have
/// moved away even counting the growth from that food.
pub open spec fn own_ok(init: Seq<CellFlood>, k: int, j: int, owner: int, fe: int) -> bool {
    match init[k] {
        CellFlood::Snake { id, tail_dist } => id as int == owner ==> tail_dist + fe < j,
        _ => true,
    }
}

/// A walk that also keeps the own-body rule of snake `owner` at every move,
/// counting the food on the cells left behind.
pub open spec fn walk_path_f(
    g: Grid<CellFlood>,
    init: Seq<CellFlood>,
    sg: Grid<CellGame>,
    owner: int,
    h: Coord,
    q: Coord,
    s: int,
    path: Seq<Coord>,
) -> bool {
    &&& walk_path(g, init, h, q, s, path)
    &&& forall|j: int| 1 <= j <= s ==> own_ok(init, g.idx(#[trigger] path[j]), j, owner, sat8(food_count(sg, path, j) as int))
}

/// Such a walk with `fe` the (capped) food on it before its last cell.
pub open spec fn walk_fe(g: Grid<CellFlood>, init: Seq<CellFlood>, sg: Grid<CellGame>, owner: int, h: Coord, q: Coord, s: int, fe: int) -> bool {
    exists|path: Seq<Coord>| #[trigger] walk_path_f(g, init, sg, owner, h, q, s, path) && fe == sat8(food_count(sg, path, s) as int)
}

/// `q` ends a walk from `h` of `s` moves that keeps the rules of the
/// realistic race, own-body rule included.
pub open spec fn walk_o(g: Grid<CellFlood>, init: Seq<CellFlood>, sg: Grid<CellGame>, owner: int, h: Coord, q: Coord, s: int) -> bool {
    exists|path: Seq<Coord>| #[trigger] walk_path_f(g, init, sg, owner, h, q, s, path)
}

proof fn lemma_food_count_prefix(sg: Grid<CellGame>, path: Seq<Coord>, x: Coord, j: int)
    requires
        0 <= j <= path.len(),
    ensures
        food_count(sg, path.push(x), j) == food_count(sg, path, j),
    decreases j,
{
    if j > 0 {
        lemma_food_count_prefix(sg, path, x, j - 1);
        assert(path.push(x)[j - 1] == path[j - 1]);
    }
}

proof fn lemma_walk_fe_start(g: Grid<CellFlood>, init: Seq<CellFlood>, sg: Grid<CellGame>, owner: int, h: Coord, q: Coord)
    requires
        g.idx(q) == g.idx(h),
    ensures
        walk_fe(g, init, sg, owner, h, q, 0, 0),
{
    assert(walk_path(g, init, h, q, 0, seq![q]));
    assert(walk_path_f(g, init, sg, owner, h, q, 0, seq![q]));
    assert(food_count(sg, seq![q], 0) == 0);
}

proof fn lemma_walk_fe_step(
    g: Grid<CellFlood>,
    init: Seq<CellFlood>,
    sg: Grid<CellGame>,
    owner: int,
    h: Coord,
    p: Coord,
    s: int,
    fe: int,
    d: Direction,
    q: Coord,
    fe2: int,
)
    requires
        walk_fe(g, init, sg, owner, h, p, s, fe),
        passable(init, g.idx(q), s + 1),
        g.in_range(p),
        dir_index(d) < 4,
        g.contains_spec(step_spec(p, d)),
        g.idx(q) == g.idx(step_spec(p, d)),
        s >= 0,
        fe2 == (if sg.at(p).cell == CellType::Food { if fe == 255 { 255 } else { fe + 1 } } else { fe }),
        own_ok(init, g.idx(q), s + 1, owner, fe2),
    ensures
        walk_fe(g, init, sg, owner, h, q, s + 1, fe2),
        walk_o(g, init, sg, owner, h, q, s + 1),
{
    let path = choose|path: Seq<Coord>| #[trigger] walk_path_f(g, init, sg, owner, h, p, s, path) && fe == sat8(food_count(sg, path, s) as int);
    let np = path.push(q);
    assert(adjacent(g, p, q));
    assert forall|j: int| 0 <= j < s + 1 implies g.in_range(#[trigger] np[j]) && adjacent(g, np[j], np[j + 1]) by {
        if j < s {
            assert(np[j] == path[j] && np[j + 1] == path[j + 1]);
        } else {
            assert(np[j] == p && np[j + 1] == q);
        }
    }
    assert forall|j: int| 1 <= j <= s + 1 implies passable(init, g.idx(#[trigger] np[j]), j) by {
        if j <= s {
            assert(np[j] == path[j]);
        }
    }
    assert(walk_path(g, init, h, q, s + 1, np));
    lemma_food_count_prefix(sg, path, q, s);
    lemma_food_count_prefix(sg, path, q, s + 1);
    assert(np[s] == p);
    assert(food_count(sg, np, s + 1) == food_count(sg, path, s) + if sg.at(p).cell == CellType::Food { 1nat } else { 0nat });
    assert(fe2 == sat8(food_count(sg, np, s + 1) as int));
    assert forall|j: int| 1 <= j <= s + 1 implies own_ok(init, g.idx(#[trigger] np[j]), j, owner, sat8(food_count(sg, np, j) as int)) by {
        if j <= s {
            assert(np[j] == path[j]);
            lemma_food_count_prefix(sg, path, q, j);
        }
    }
    assert(walk_path_f(g, init, sg, owner, h, q, s + 1, np));
}

proof fn lemma_walk_o_dims(a: Grid<CellFlood>, b: Grid<CellFlood>, init: Seq<CellFlood>, sg: Grid<CellGame>, owner: int, h: Coord, q: Coord, s: int)
    requires
        same_dims(a, b),
        walk_o(a, init, sg, owner, h, q, s),
    ensures
        walk_o(b, init, sg, owner, h, q, s),
{
    let path = choose|path: Seq<Coord>| #[trigger] walk_path_f(a, init, sg, owner, h, q, s, path);
    assert forall|j: int| 0 <= j < s implies b.in_range(#[trigger] path[j]) && adjacent(b, path[j], path[j + 1]) by {
        assert(a.in_range(path[j]) && adjacent(a, path[j], path[j + 1]));
        let d = choose|d: Direction|
            dir_index(d) < 4 && a.contains_spec(#[trigger] step_spec(path[j], d)) && a.idx(step_spec(path[j], d)) == a.idx(path[j + 1]);
        assert(dir_index(d) < 4 && b.contains_spec(step_spec(path[j], d)) && b.idx(step_spec(path[j], d)) == b.idx(path[j + 1]));
    }
    assert forall|j: int| 1 <= j <= s implies passable(init, b.idx(#[trigger] path[j]), j) by {
        assert(passable(init, a.idx(path[j]), j));
    }
    assert forall|j: int| 1 <= j <= s implies own_ok(init, b.idx(#[trigger] path[j]), j, owner, sat8(food_count(sg, path, j) as int)) by {
        assert(own_ok(init, a.idx(path[j]), j, owner, sat8(food_count(sg, path, j) as int)));
    }
    assert(walk_path_f(b, init, sg, owner, h, q, s, path));
}

/// Only one snake is alive.
pub open spec fn single(ss: Seq<SnakeView>) -> bool {
    forall|i: int, j: int| 0 <= i < ss.len() && 0 <= j < ss.len() && (#[trigger] ss[i]).alive() && (#[trigger] ss[j]).alive() ==> i == j
}

/// Every frontier entry below the largest step ends a walk that keeps the
/// own-body rule, with the entry's food count.
pub open spec fn queue_walks_f(q: Seq<FloodElement>, g: Grid<CellFlood>, init: Seq<CellFlood>, sg: Grid<CellGame>, ss: Seq<SnakeView>) -> bool {
    forall|i: int|
        0 <= i < q.len() && (#[trigger] q[i]).step < u32::MAX ==> walk_fe(g, init, sg, q[i].id as int, ss[q[i].id as int].head(), q[i].pos, q[i].step as int, q[i].food_eaten as int)
}

/// Every cell claimed below the largest step ends a walk that keeps the
/// own-body rule of its claimant.
pub open spec fn owned_walks_f(cs: Seq<CellFlood>, g: Grid<CellFlood>, init: Seq<CellFlood>, sg: Grid<CellGame>, ss: Seq<SnakeView>) -> bool {
    forall|k: int|
        0 <= k < cs.len() ==> match #[trigger] cs[k] {
            CellFlood::Owned { id, step, .. } => step < u32::MAX ==> exists|c: Coord|
                g.in_range(c) && #[trigger] g.idx(c) == k && walk_o(g, init, sg, id as int, ss[id as int].head(), c, step as int),
            _ => true,
        }
}

proof fn lemma_owned_walks_f_dims(cs: Seq<CellFlood>, a: Grid<CellFlood>, b: Grid<CellFlood>, init: Seq<CellFlood>, sg: Grid<CellGame>, ss: Seq<SnakeView>)
    requires
        owned_walks_f(cs, a, init, sg, ss),
        same_dims(a, b),
    ensures
        owned_walks_f(cs, b, init, sg, ss),
{
    assert forall|k: int| 0 <= k < cs.len() implies match #[trigger] cs[k] {
        CellFlood::Owned { id, step, .. } => step < u32::MAX ==> exists|c: Coord|
            b.in_range(c) && #[trigger] b.idx(c) == k && walk_o(b, init, sg, id as int, ss[id as int].head(), c, step as int),
        _ => true,
    } by {
        if let CellFlood::Owned { id, step, .. } = cs[k] {
            if step < u32::MAX {
                let c = choose|c: Coord| a.in_range(c) && #[trigger] a.idx(c) == k && walk_o(a, init, sg, id as int, ss[id as int].head(), c, step as int);
                lemma_walk_o_dims(a, b, init, sg, id as int, ss[id as int].head(), c, step as int);
                assert(b.in_range(c) && b.idx(c) == k);
            }
        }
    }
}

proof fn lemma_walk_start(g: Grid<CellFlood>, init: Seq<CellFlood>, h: Coord, q: Coord)
    requires
        g.idx(q) == g.idx(h),
    ensures
        walk(g, init, h, q, 0),
{
    assert(walk_path(g, init, h, q, 0, seq![q]));
}

proof fn lemma_walk_step(g: Grid<CellFlood>, init: Seq<CellFlood>, h: Coord, p: Coord, s: int, d: Direction, q: Coord)
    requires
        walk(g, init, h, p, s),
        passable(init, g.idx(q), s + 1),
        g.in_range(p),
        dir_index(d) < 4,
        g.contains_spec(step_spec(p, d)),
        g.idx(q) == g.idx(step_spec(p, d)),
        s >= 0,
    ensures
        walk(g, init, h, q, s + 1),
{
    let path = choose|path: Seq<Coord>| #[trigger] walk_path(g, init, h, p, s, path);
    let np = path.push(q);
    assert(adjacent(g, p, q));
    assert forall|j: int| 0 <= j < s + 1 implies g.in_range(#[trigger] np[j]) && adjacent(g, np[j], np[j + 1]) by {
        if j < s {
            assert(np[j] == path[j] && np[j + 1] == path[j + 1]);
        } else {
            assert(np[j] == p && np[j + 1] == q);
        }
    }
    assert forall|j: int| 1 <= j <= s + 1 implies passable(init, g.idx(#[trigger] np[j]), j) by {
        if j <= s {
            assert(np[j] == path[j]);
        }
    }
    assert(walk_path(g, init, h, q, s + 1, np));
}

proof fn lemma_neighbour_walk(g: Grid<CellFlood>, init: Seq<CellFlood>, h: Coord, elem: FloodElement, nb: FloodElement, d: Direction)
    requires
        elem.step < u32::MAX ==> walk(g, init, h, elem.pos, elem.step as int),
        g.in_range(elem.pos),
        dir_index(d) < 4,
        g.contains_spec(step_spec(elem.pos, d)),
        g.idx(nb.pos) == g.idx(step_spec(elem.pos, d)),
        nb.step == sat_inc(elem.step),
    ensures
        nb.step < u32::MAX && passable(init, g.idx(nb.pos), nb.step as int) ==> walk(g, init, h, nb.pos, nb.step as int),
{
    if nb.step < u32::MAX && passable(init, g.idx(nb.pos), nb.step as int) {
        lemma_walk_step(g, init, h, elem.pos, elem.step as int, d, nb.pos);
    }
}

proof fn lemma_owned_walks_dims(cs: Seq<CellFlood>, a: Grid<CellFlood>, b: Grid<CellFlood>, init: Seq<CellFlood>, ss: Seq<SnakeView>)
    requires
        owned_walks(cs, a, init, ss),
        same_dims(a, b),
    ensures
        owned_walks(cs, b, init, ss),
{
    assert forall|k: int| 0 <= k < cs.len() implies match #[trigger] cs[k] {
        CellFlood::Owned { id, step, .. } => step < u32::MAX ==> exists|c: Coord|
            b.in_range(c) && #[trigger] b.idx(c) == k && walk(b, init, ss[id as int].head(), c, step as int),
        _ => true,
    } by {
        if let CellFlood::Owned { id, step, .. } = cs[k] {
            if step < u32::MAX {
                let c = choose|c: Coord| a.in_range(c) && #[trigger] a.idx(c) == k && walk(a, init, ss[id as int].head(), c, step as int);
                lemma_walk_dims(a, b, init, ss[id as int].head(), c, step as int);
                assert(b.in_range(c) && b.idx(c) == k);
            }
        }
    }
}

pub open spec fn cap_u8(v: int) -> int {
    if v > 255 { 255 } else { v }
}

/// Every stamped segment names a living snake, a segment of it on that
/// cell, and that segment's distance from the tail (capped at 255).
pub open spec fn stamp_sound(cs: Seq<CellFlood>, g: Grid<CellFlood>, ss: Seq<SnakeView>) -> bool {
    forall|k: int|
        0 <= k < cs.len() ==> match #[trigger] cs[k] {
            CellFlood::Snake { id, tail_dist } => id < ss.len() && ss[id as int].alive() && exists|p: int|
                0 <= p < ss[id as int].body.len() && #[trigger] g.idx(ss[id as int].body[p]) == k
                    && tail_dist == cap_u8(ss[id as int].body.len() - 1 - p),
            _ => true,
        }
}

/// Every segment of the first `n` living snakes is stamped.
pub open spec fn stamp_complete(cs: Seq<CellFlood>, g: Grid<CellFlood>, ss: Seq<SnakeView>, n: int) -> bool {
    forall|j: int, p: int|
        0 <= j < n && ss[j].alive() && 0 <= p < ss[j].body.len() ==> (#[trigger] cs[g.idx(ss[j].body[p])]) is Snake
}

pub open spec fn stamp_free_or_snake(cs: Seq<CellFlood>) -> bool {
    forall|k: int| 0 <= k < cs.len() ==> #[trigger] cs[k] is Free || cs[k] is Snake
}

/// `cs` is a map with every segment of every living snake stamped, each
/// stamp naming a segment on its cell, and nothing else on it.
pub open spec fn stamped(cs: Seq<CellFlood>, g: Grid<CellFlood>, ss: Seq<SnakeView>) -> bool {
    &&& cs.len() == g.cells@.len()
    &&& stamp_sound(cs, g, ss)
    &&& stamp_complete(cs, g, ss, ss.len() as int)
    &&& stamp_free_or_snake(cs)
}

proof fn lemma_stamped_dims(cs: Seq<CellFlood>, a: Grid<CellFlood>, b: Grid<CellFlood>, ss: Seq<SnakeView>)
    requires
        stamped(cs, a, ss),
        same_dims(a, b),
        a.cells@.len() == b.cells@.len(),
    ensures
        stamped(cs, b, ss),
{
    assert forall|k: int| 0 <= k < cs.len() implies match #[trigger] cs[k] {
        CellFlood::Snake { id, tail_dist } => id < ss.len() && ss[id as int].alive() && exists|p: int|
            0 <= p < ss[id as int].body.len() && #[trigger] b.idx(ss[id as int].body[p]) == k
                && tail_dist == cap_u8(ss[id as int].body.len() - 1 - p),
        _ => true,
    } by {
        if let CellFlood::Snake { id, tail_dist } = cs[k] {
            let p = choose|p: int| 0 <= p < ss[id as int].body.len() && #[trigger] a.idx(ss[id as int].body[p]) == k
                && tail_dist == cap_u8(ss[id as int].body.len() - 1 - p);
            assert(b.idx(ss[id as int].body[p]) == k);
        }
    }
    assert forall|j: int, p: int| 0 <= j < ss.len() && ss[j].alive() && 0 <= p < ss[j].body.len() implies (#[trigger] cs[b.idx(ss[j].body[p])]) is Snake by {
        assert(cs[a.idx(ss[j].body[p])] is Snake);
    }
}

/// The open neighbours of `p` among the first `m` moves (on the board and
/// not a segment on the game board) are no longer free.
pub open spec fn closed_dirs(cs: Seq<CellFlood>, g: Grid<CellFlood>, sg: Grid<CellGame>, p: Coord, m: int) -> bool {
    forall|j: int|
        0 <= j < m && g.contains_spec(#[trigger] step_spec(p, alive_actions()[j])) && !(sg.at(
            step_spec(p, alive_actions()[j]),
        ).cell is Snake) ==> !(cs[g.idx(step_spec(p, alive_actions()[j]))] is Free)
}

/// A cell the race expands from: a claimed cell, or a living snake's head.
pub open spec fn source(cs: Seq<CellFlood>, g: Grid<CellFlood>, ss: Seq<SnakeView>, p: Coord) -> bool {
    cs[g.idx(p)] is Owned || (cs[g.idx(p)] is Snake && exists|i: int|
        0 <= i < ss.len() && ss[i].alive() && #[trigger] g.idx(ss[i].head()) == g.idx(p))
}

/// Some frontier entry is on the cell of `p`.
pub open spec fn pending(q: Seq<FloodElement>, g: Grid<CellFlood>, p: Coord) -> bool {
    exists|i: int| 0 <= i < q.len() && #[trigger] g.idx(q[i].pos) == g.idx(p)
}

proof fn lemma_closure_dims(cs: Seq<CellFlood>, a: Grid<CellFlood>, b: Grid<CellFlood>, sg: Grid<CellGame>, ss: Seq<SnakeView>)
    requires
        same_dims(a, b),
        forall|p: Coord| a.in_range(p) && #[trigger] source(cs, a, ss, p) ==> closed_dirs(cs, a, sg, p, 4),
    ensures
        forall|p: Coord| b.in_range(p) && #[trigger] source(cs, b, ss, p) ==> closed_dirs(cs, b, sg, p, 4),
{
    assert forall|p: Coord| b.in_range(p) && #[trigger] source(cs, b, ss, p) implies closed_dirs(cs, b, sg, p, 4) by {
        if !(cs[b.idx(p)] is Owned) {
            let i = choose|i: int| 0 <= i < ss.len() && ss[i].alive() && #[trigger] b.idx(ss[i].head()) == b.idx(p);
            assert(a.idx(ss[i].head()) == a.idx(p));
        }
        assert(source(cs, a, ss, p));
        assert forall|j: int|
            0 <= j < 4 && b.contains_spec(#[trigger] step_spec(p, alive_actions()[j])) && !(sg.at(
                step_spec(p, alive_actions()[j]),
            ).cell is Snake) implies !(cs[b.idx(step_spec(p, alive_actions()[j]))] is Free) by {
            assert(a.contains_spec(step_spec(p, alive_actions()[j])));
        }
    }
}

/// A cell the realistic race expands from: a claim made with health left or
/// on food, or the head of a living snake with health left or on food.
pub open spec fn source_f(cs: Seq<CellFlood>, g: Grid<CellFlood>, sg: Grid<CellGame>, ss: Seq<SnakeView>, p: Coord) -> bool {
    match cs[g.idx(p)] {
        CellFlood::Owned { health, .. } => health > 0 || sg.at(p).cell == CellType::Food,
        CellFlood::Snake { .. } => exists|i: int|
            0 <= i < ss.len() && ss[i].alive() && #[trigger] g.idx(ss[i].head()) == g.idx(p) && (ss[i].health > 0
                || sg.at(p).cell == CellType::Food),
        _ => false,
    }
}

/// A frontier entry on the cell of `p` will expand it: it has health left or
/// stands on food, and it made the cell's current claim, if any.
pub open spec fn pending_f(q: Seq<FloodElement>, cs: Seq<CellFlood>, g: Grid<CellFlood>, sg: Grid<CellGame>, p: Coord) -> bool {
    exists|w: int|
        0 <= w < q.len() && #[trigger] g.idx(q[w].pos) == g.idx(p) && (q[w].health > 0 || sg.at(p).cell
            == CellType::Food) && match cs[g.idx(p)] {
            CellFlood::Owned { id, .. } => q[w].id == id,
            _ => true,
        }
}

pub open spec fn expanded_f(cs: Seq<CellFlood>, g: Grid<CellFlood>, sg: Grid<CellGame>, ss: Seq<SnakeView>, q: Seq<FloodElement>) -> bool {
    forall|p: Coord| g.in_range(p) && #[trigger] source_f(cs, g, sg, ss, p) ==> closed_dirs(cs, g, sg, p, 4) || pending_f(q, cs, g, sg, p)
}

proof fn lemma_closure_dims_f(cs: Seq<CellFlood>, a: Grid<CellFlood>, b: Grid<CellFlood>, sg: Grid<CellGame>, ss: Seq<SnakeView>)
    requires
        same_dims(a, b),
        forall|p: Coord| a.in_range(p) && #[trigger] source_f(cs, a, sg, ss, p) ==> closed_dirs(cs, a, sg, p, 4),
    ensures
        forall|p: Coord| b.in_range(p) && #[trigger] source_f(cs, b, sg, ss, p) ==> closed_dirs(cs, b, sg, p, 4),
{
    assert forall|p: Coord| b.in_range(p) && #[trigger] source_f(cs, b, sg, ss, p) implies closed_dirs(cs, b, sg, p, 4) by {
        if cs[b.idx(p)] is Snake {
            let i = choose|i: int| 0 <= i < ss.len() && ss[i].alive() && #[trigger] b.idx(ss[i].head()) == b.idx(p) && (ss[i].health > 0
                || sg.at(p).cell == CellType::Food);
            assert(a.idx(ss[i].head()) == a.idx(p));
        }
        assert(source_f(cs, a, sg, ss, p));
        assert forall|j: int|
            0 <= j < 4 && b.contains_spec(#[trigger] step_spec(p, alive_actions()[j])) && !(sg.at(
                step_spec(p, alive_actions()[j]),
            ).cell is Snake) implies !(cs[b.idx(step_spec(p, alive_actions()[j]))] is Free) by {
            assert(a.contains_spec(step_spec(p, alive_actions()[j])));
        }
    }
}

/// Every frontier entry's cell still holds a segment, a draw, or its own claim.
pub open spec fn queue_cells_ok(cs: Seq<CellFlood>, g: Grid<CellFlood>, q: Seq<FloodElement>) -> bool {
    forall|w: int|
        0 <= w < q.len() ==> match #[trigger] cs[g.idx(q[w].pos)] {
            CellFlood::Owned { id, .. } => id == q[w].id,
            CellFlood::Free => false,
            _ => true,
        }
}

/// Every source in range is either expanded to all its open neighbours or
/// still waiting in the frontier.
pub open spec fn expanded(cs: Seq<CellFlood>, g: Grid<CellFlood>, sg: Grid<CellGame>, ss: Seq<SnakeView>, q: Seq<FloodElement>) -> bool {
    forall|p: Coord| g.in_range(p) && #[trigger] source(cs, g, ss, p) ==> closed_dirs(cs, g, sg, p, 4) || pending(q, g, p)
}

proof fn lemma_in_range_injective(g: Grid<CellFlood>, a: Coord, b: Coord)
    requires
        g.wf(),
        g.in_range(a),
        g.in_range(b),
        g.idx(a) == g.idx(b),
    ensures
        a == b,
{
    let w = g.width as int;
    let h = g.height as int;
    if g.wrapped {
        vstd::arithmetic::div_mod::lemma_small_mod(a.x as nat, w as nat);
        vstd::arithmetic::div_mod::lemma_small_mod(b.x as nat, w as nat);
        vstd::arithmetic::div_mod::lemma_small_mod(a.y as nat, h as nat);
        vstd::arithmetic::div_mod::lemma_small_mod(b.y as nat, h as nat);
    }
    let (x1, y1, x2, y2) = (a.x as int, a.y as int, b.x as int, b.y as int);
    assert(y1 * w + x1 == y2 * w + x2);
    assert(y1 == y2 && x1 == x2) by (nonlinear_arith)
        requires
            y1 * w + x1 == y2 * w + x2,
            0 <= x1 < w,
            0 <= x2 < w,
            0 <= y1,
            0 <= y2,
    ;
}

/// Non-free cells stay non-free, so expansion already done stays done.
proof fn lemma_closed_mono(cs: Seq<CellFlood>, cs2: Seq<CellFlood>, g: Grid<CellFlood>, sg: Grid<CellGame>, p: Coord, m: int)
    requires
        closed_dirs(cs, g, sg, p, m),
        cs.len() == cs2.len(),
        cs.len() == g.cells@.len(),
        forall|k: int| 0 <= k < cs.len() && !(cs[k] is Free) ==> !(#[trigger] cs2[k] is Free),
        g.wf(),
    ensures
        closed_dirs(cs2, g, sg, p, m),
{
    assert forall|j: int|
        0 <= j < m && g.contains_spec(#[trigger] step_spec(p, alive_actions()[j])) && !(sg.at(
            step_spec(p, alive_actions()[j]),
        ).cell is Snake) implies !(cs2[g.idx(step_spec(p, alive_actions()[j]))] is Free) by {
        g.lemma_idx_bounds(step_spec(p, alive_actions()[j]));
    }
}

/// No cell of the map is claimed yet.
pub open spec fn none_owned(cs: Seq<CellFlood>) -> bool {
    forall|k: int| 0 <= k < cs.len() ==> !(#[trigger] cs[k] is Owned)
}

/// Moving one cell from a coordinate in range and wrapping back onto a
/// wrapped board names the same cell as the move itself.
proof fn lemma_wrap_step(g: Grid<CellFlood>, p: Coord, d: Direction, q: Coord)
    requires
        g.wf(),
        g.wrapped,
        g.in_range(p),
        dir_index(d) < 4,
        q.x == (if step_spec(p, d).x < 0 {
            step_spec(p, d).x + g.width
        } else if step_spec(p, d).x >= g.width {
            step_spec(p, d).x - g.width
        } else {
            step_spec(p, d).x as int
        }),
        q.y == (if step_spec(p, d).y < 0 {
            step_spec(p, d).y + g.height
        } else if step_spec(p, d).y >= g.height {
            step_spec(p, d).y - g.height
        } else {
            step_spec(p, d).y as int
        }),
    ensures
        g.in_range(q),
        g.idx(q) == g.idx(step_spec(p, d)),
{
    let w = g.width as int;
    let h = g.height as int;
    let sx = step_spec(p, d).x as int;
    let sy = step_spec(p, d).y as int;
    assert(-1 <= sx <= w && -1 <= sy <= h);
    vstd::arithmetic::div_mod::lemma_mod_add_multiples_vanish(sx, w);
    vstd::arithmetic::div_mod::lemma_mod_add_multiples_vanish(sx - w, w);
    vstd::arithmetic::div_mod::lemma_mod_add_multiples_vanish(sy, h);
    vstd::arithmetic::div_mod::lemma_mod_add_multiples_vanish(sy - h, h);
    vstd::arithmetic::div_mod::lemma_small_mod(q.x as nat, w as nat);
    vstd::arithmetic::div_mod::lemma_small_mod(q.y as nat, h as nat);
}

/// Every frontier entry below the largest step ends a walk of its step
/// count from its snake's head.
pub open spec fn queue_walks(q: Seq<FloodElement>, g: Grid<CellFlood>, init: Seq<CellFlood>, ss: Seq<SnakeView>) -> bool {
    forall|i: int|
        0 <= i < q.len() && (#[trigger] q[i]).step < u32::MAX ==> walk(g, init, ss[q[i].id as int].head(), q[i].pos, q[i].step as int)
}

/// Every cell claimed at a step below the largest lies at the end of a walk
/// of that many moves from the claiming snake's head, through cells whose
/// segments, if any, had moved away in time.
pub open spec fn owned_walks(cs: Seq<CellFlood>, g: Grid<CellFlood>, init: Seq<CellFlood>, ss: Seq<SnakeView>) -> bool {
    forall|k: int|
        0 <= k < cs.len() ==> match #[trigger] cs[k] {
            CellFlood::Owned { id, step, .. } => step < u32::MAX ==> exists|c: Coord|
                g.in_range(c) && #[trigger] g.idx(c) == k && walk(g, init, ss[id as int].head(), c, step as int),
            _ => true,
        }
}

/// Snake `i` reaches cell `k` along a walk of `si` moves (claims at the
/// largest step count are not followed).
pub open spec fn reached(g: Grid<CellFlood>, init: Seq<CellFlood>, ss: Seq<SnakeView>, i: int, k: int, si: int) -> bool {
    si < u32::MAX ==> exists|c: Coord| g.in_range(c) && #[trigger] g.idx(c) == k && walk(g, init, ss[i].head(), c, si)
}

/// Every drawn cell was reached by two different snakes — at the same step
/// when `same_step` holds.
pub open spec fn draw_walks(cs: Seq<CellFlood>, g: Grid<CellFlood>, init: Seq<CellFlood>, ss: Seq<SnakeView>, same_step: bool) -> bool {
    forall|k: int|
        0 <= k < cs.len() && (#[trigger] cs[k]) is Draw ==> exists|i: int, j: int, si: int, sj: int|
            0 <= i < ss.len() && 0 <= j < ss.len() && i != j && (same_step ==> si == sj) && #[trigger] reached(g, init, ss, i, k, si)
                && #[trigger] reached(g, init, ss, j, k, sj)
}

proof fn lemma_reached_dims(a: Grid<CellFlood>, b: Grid<CellFlood>, init: Seq<CellFlood>, ss: Seq<SnakeView>, i: int, k: int, si: int)
    requires
        same_dims(a, b),
        reached(a, init, ss, i, k, si),
    ensures
        reached(b, init, ss, i, k, si),
{
    if si < u32::MAX {
        let c = choose|c: Coord| a.in_range(c) && #[trigger] a.idx(c) == k && walk(a, init, ss[i].head(), c, si);
        lemma_walk_dims(a, b, init, ss[i].head(), c, si);
        assert(b.in_range(c) && b.idx(c) == k);
    }
}

proof fn lemma_draw_walks_dims(cs: Seq<CellFlood>, a: Grid<CellFlood>, b: Grid<CellFlood>, init: Seq<CellFlood>, ss: Seq<SnakeView>, same_step: bool)
    requires
        draw_walks(cs, a, init, ss, same_step),
        same_dims(a, b),
    ensures
        draw_walks(cs, b, init, ss, same_step),
{
    assert forall|k: int| 0 <= k < cs.len() && (#[trigger] cs[k]) is Draw implies exists|i: int, j: int, si: int, sj: int|
        0 <= i < ss.len() && 0 <= j < ss.len() && i != j && (same_step ==> si == sj) && #[trigger] reached(b, init, ss, i, k, si)
            && #[trigger] reached(b, init, ss, j, k, sj) by {
        let (i, j, si, sj) = choose|i: int, j: int, si: int, sj: int|
            0 <= i < ss.len() && 0 <= j < ss.len() && i != j && (same_step ==> si == sj) && #[trigger] reached(a, init, ss, i, k, si)
                && #[trigger] reached(a, init, ss, j, k, sj);
        lemma_reached_dims(a, b, init, ss, i, k, si);
        lemma_reached_dims(a, b, init, ss, j, k, sj);
    }
}

/// Every stamped segment is still there, unclaimed.
pub open spec fn bodies_kept(cs: Seq<CellFlood>, init: Seq<CellFlood>) -> bool {
    forall|k: int| 0 <= k < cs.len() && (#[trigger] init[k]) is Snake ==> cs[k] == init[k]
}

/// Claims only replace free cells and segments that moved away in time, and
/// a segment cell stays as stamped until claimed.
pub open spec fn claims_respect(cs: Seq<CellFlood>, init: Seq<CellFlood>) -> bool {
    &&& cs.len() == init.len()
    &&& forall|k: int| 0 <= k < cs.len() && (#[trigger] cs[k]) is Snake ==> cs[k] == init[k]
    &&& forall|k: int| 0 <= k < cs.len() && (#[trigger] init[k]) is Snake ==> !(cs[k] is Free)
    &&& forall|k: int| 0 <= k < cs.len() ==> match #[trigger] cs[k] {
        CellFlood::Owned { step, .. } => passable(init, k, step as int),
        _ => true,
    }
}

/// Frontier entries that name a living snake and a coordinate in range.
pub open spec fn queue_ok(q: Seq<FloodElement>, g: Grid<CellFlood>, ss: Seq<SnakeView>) -> bool {
    forall|i: int|
        0 <= i < q.len() ==> (#[trigger] q[i]).id < ss.len() && ss[q[i].id as int].alive()
            && g.in_range(q[i].pos)
}

impl<'a> Floodfill<'a> {
    /// The map is as large as the board, and every snake id in it names a
    /// living snake.
    pub open spec fn flood_wf(&self) -> bool {
        &&& self.state.wf()
        &&& self.cells.wf()
        &&& same_dims(self.cells, self.state.grid)
        &&& self.dead_ends@.len() == self.state.snakes@.len()
        &&& ids_alive(self.cells.cells@, self.state.sv())
    }

    /// Builds the territory map of `state` with the given policy.
    ///
    /// The contract states: the body stamp the race starts from; that every
    /// claim ends a walk from its snake's head of exactly its step count,
    /// entering segments only once they have moved away (and, when a single
    /// snake is alive, its own segments only once they have moved away
    /// counting the food eaten on the way); that Simple and Constrictor leave
    /// every segment unclaimed; and that every claimed cell and head that can
    /// still expand has no free open neighbour left. Dead snakes keep their
    /// dead-end flag, and Simple clears none. Which snake wins a contested
    /// cell and when a living snake's dead-end flag clears are not stated.
    pub fn new(state: &'a State, flood_type: FloodType) -> (r: Floodfill<'a>)
        requires
            state.wf(),
        ensures
            r.flood_wf(),
            r.state == state,
            exists|init: Seq<CellFlood>|
                stamped(init, r.cells, state.sv()) && owned_walks(r.cells.cells@, r.cells, init, state.sv())
                    && claims_respect(r.cells.cells@, init) && (flood_type != FloodType::FollowSnakes ==> bodies_kept(
                    r.cells.cells@,
                    init,
                )) && draw_walks(r.cells.cells@, r.cells, init, state.sv(), flood_type != FloodType::Constrictor)
                    && (flood_type == FloodType::FollowSnakes && single(state.sv()) ==> owned_walks_f(
                    r.cells.cells@,
                    r.cells,
                    init,
                    state.grid,
                    state.sv(),
                )),
            r.dead_ends@.len() == state.snakes@.len(),
            forall|j: int| 0 <= j < r.dead_ends@.len() && !(#[trigger] state.sv()[j]).alive() ==> r.dead_ends@[j],
            flood_type == FloodType::Simple ==> forall|j: int| 0 <= j < r.dead_ends@.len() ==> #[trigger] r.dead_ends@[j],
            flood_type == FloodType::FollowSnakes ==> forall|p: Coord|
                r.cells.in_range(p) && #[trigger] source_f(r.cells.cells@, r.cells, state.grid, state.sv(), p) ==> closed_dirs(
                    r.cells.cells@,
                    r.cells,
                    state.grid,
                    p,
                    4,
                ),
            flood_type != FloodType::FollowSnakes ==> forall|p: Coord|
                r.cells.in_range(p) && #[trigger] source(r.cells.cells@, r.cells, state.sv(), p) ==> closed_dirs(
                    r.cells.cells@,
                    r.cells,
                    state.grid,
                    p,
                    4,
                ),
    {
        let ncells = state.grid.cells.len();
        assert(state.grid.width * state.grid.height == ncells);
        let cells = Grid::new(state.grid.width, state.grid.height, state.grid.wrapped);
        let mut dead_ends: Vec<bool> = Vec::new();
        let mut i: usize = 0;
        while i < state.snakes.len()
            invariant
                i <= state.snakes@.len(),
                dead_ends@.len() == i,
                forall|j: int| 0 <= j < i ==> dead_ends@[j],
            decreases state.snakes@.len() - i,
        {
            dead_ends.push(true);
            i = i + 1;
        }
        let mut floodfill = Floodfill { state, cells, dead_ends };
        proof {
            assert(ids_alive(floodfill.cells.cells@, state.sv()));
            assert(none_owned(floodfill.cells.cells@));
        }
        let ghost g1 = floodfill.cells;
        floodfill.fill_snakes();
        let ghost init = floodfill.cells.cells@;
        proof {
            lemma_stamped_dims(init, g1, floodfill.cells, state.sv());
        }
        let ghost g2 = floodfill.cells;
        match flood_type {
            FloodType::Simple => floodfill.calc_simple(),
            FloodType::FollowSnakes => floodfill.calc_follow_snakes(),
            FloodType::Constrictor => floodfill.calc_constrictor(),
        }
        proof {
            lemma_stamped_dims(init, g1, floodfill.cells, state.sv());
            lemma_draw_walks_dims(floodfill.cells.cells@, g2, floodfill.cells, init, state.sv(), flood_type != FloodType::Constrictor);
            if flood_type != FloodType::FollowSnakes {
                lemma_closure_dims(floodfill.cells.cells@, g2, floodfill.cells, state.grid, state.sv());
            } else {
                lemma_closure_dims_f(floodfill.cells.cells@, g2, floodfill.cells, state.grid, state.sv());
            }
        }
        floodfill
    }

    /// Resets every cell of the map to free.
    pub fn clear(&mut self)
        ensures
            final(self).state == old(self).state,
            final(self).dead_ends@ == old(self).dead_ends@,
            same_dims(final(self).cells, old(self).cells),
            final(self).cells.cells@.len() == old(self).cells.cells@.len(),
            forall|k: int| 0 <= k < final(self).cells.cells@.len() ==> final(self).cells.cells@[k] == CellFlood::Free,
    {
        self.cells.clear();
    }

    /// Stamps every living snake's body into the map, each segment with its
    /// distance from the tail.
    fn fill_snakes(&mut self)
        requires
            old(self).flood_wf(),
            none_owned(old(self).cells.cells@),
            forall|k: int| 0 <= k < old(self).cells.cells@.len() ==> #[trigger] old(self).cells.cells@[k] == CellFlood::Free,
        ensures
            none_owned(final(self).cells.cells@),
            stamped(final(self).cells.cells@, old(self).cells, final(self).state.sv()),
            final(self).flood_wf(),
            final(self).state == old(self).state,
            final(self).dead_ends@ == old(self).dead_ends@,
    {
        let st: &State = self.state;
        let ghost sv = st.sv();
        let ghost g1 = self.cells;
        let n = st.snakes.len();
        let mut i: usize = 0;
        while i < n
            invariant
                st == self.state,
                sv == st.sv(),
                n == st.snakes@.len(),
                sv.len() == n,
                i <= n,
                self.flood_wf(),
                self.dead_ends@ == old(self).dead_ends@,
                self.state == old(self).state,
                none_owned(self.cells.cells@),
                stamp_sound(self.cells.cells@, g1, sv),
                stamp_free_or_snake(self.cells.cells@),
                stamp_complete(self.cells.cells@, g1, sv, i as int),
                same_dims(self.cells, g1),
                g1 == old(self).cells,
                g1.wf(),
                g1.cells@.len() == self.cells.cells@.len(),
            decreases n - i,
        {
            let snake = &st.snakes[i];
            assert(sv[i as int] == snake@);
            if snake.is_alive() {
                let len = snake.body.len();
                let mut t: usize = 0;
                while t < len
                    invariant
                        st == self.state,
                        sv == st.sv(),
                        n == st.snakes@.len(),
                        sv.len() == n,
                        i < n,
                        n <= 256,
                        sv[i as int] == snake@,
                        sv[i as int].alive(),
                        len == snake.body@.len(),
                        t <= len,
                        self.flood_wf(),
                        self.dead_ends@ == old(self).dead_ends@,
                        self.state == old(self).state,
                        none_owned(self.cells.cells@),
                        stamp_sound(self.cells.cells@, g1, sv),
                        stamp_free_or_snake(self.cells.cells@),
                        stamp_complete(self.cells.cells@, g1, sv, i as int),
                        forall|t2: int| 0 <= t2 < t ==> (#[trigger] self.cells.cells@[g1.idx(sv[i as int].body[len - 1 - t2])]) is Snake,
                        same_dims(self.cells, g1),
                        g1.wf(),
                        g1.cells@.len() == self.cells.cells@.len(),
                    decreases len - t,
                {
                    let pos = snake.body[len - 1 - t];
                    assert(st.grid.contains_spec(sv[i as int].body[len - 1 - t]));
                    let td = length_u8(t);
                    let ghost before_cells = self.cells.cells@;
                    proof {
                        g1.lemma_idx_bounds(pos);
                    }
                    self.cells.set(pos, CellFlood::Snake { id: i as u8, tail_dist: td });
                    assert forall|k: int| 0 <= k < self.cells.cells@.len() implies match #[trigger] self.cells.cells@[k] {
                        CellFlood::Owned { id, .. } => id < sv.len() && sv[id as int].alive(),
                        CellFlood::Snake { id, .. } => id < sv.len() && sv[id as int].alive(),
                        _ => true,
                    } by {
                        if k != self.cells.idx(pos) {
                            assert(self.cells.cells@[k] == before_cells[k]);
                        }
                    }
                    assert forall|k: int| 0 <= k < self.cells.cells@.len() implies !(#[trigger] self.cells.cells@[k] is Owned) by {
                        if k != self.cells.idx(pos) {
                            assert(self.cells.cells@[k] == before_cells[k]);
                        }
                    }
                    assert forall|k: int| 0 <= k < self.cells.cells@.len() implies #[trigger] self.cells.cells@[k] is Free || self.cells.cells@[k] is Snake by {
                        if k != self.cells.idx(pos) {
                            assert(self.cells.cells@[k] == before_cells[k]);
                        }
                    }
                    assert forall|k: int| 0 <= k < self.cells.cells@.len() implies match #[trigger] self.cells.cells@[k] {
                        CellFlood::Snake { id, tail_dist } => id < sv.len() && sv[id as int].alive() && exists|p: int|
                            0 <= p < sv[id as int].body.len() && #[trigger] g1.idx(sv[id as int].body[p]) == k
                                && tail_dist == cap_u8(sv[id as int].body.len() - 1 - p),
                        _ => true,
                    } by {
                        if k != g1.idx(pos) {
                            assert(self.cells.cells@[k] == before_cells[k]);
                        } else {
                            let p = len - 1 - t;
                            assert(g1.idx(sv[i as int].body[p]) == k);
                            assert(sv[i as int].body.len() - 1 - p == t);
                        }
                    }
                    assert forall|j: int, p: int|
                        0 <= j < i && sv[j].alive() && 0 <= p < sv[j].body.len()
                        implies (#[trigger] self.cells.cells@[g1.idx(sv[j].body[p])]) is Snake by {
                        assert(g1.contains_spec(sv[j].body[p]));
                        g1.lemma_idx_bounds(sv[j].body[p]);
                        assert(before_cells[g1.idx(sv[j].body[p])] is Snake);
                    }
                    assert forall|t2: int| 0 <= t2 < t + 1 implies (#[trigger] self.cells.cells@[g1.idx(sv[i as int].body[len - 1 - t2])]) is Snake by {
                        assert(g1.contains_spec(sv[i as int].body[len - 1 - t2]));
                        g1.lemma_idx_bounds(sv[i as int].body[len - 1 - t2]);
                        if t2 < t {
                            assert(before_cells[g1.idx(sv[i as int].body[len - 1 - t2])] is Snake);
                        }
                    }
                    t = t + 1;
                }
                assert forall|j: int, p: int|
                    0 <= j < i + 1 && sv[j].alive() && 0 <= p < sv[j].body.len()
                    implies (#[trigger] self.cells.cells@[g1.idx(sv[j].body[p])]) is Snake by {
                    if j == i {
                        assert(self.cells.cells@[g1.idx(sv[i as int].body[len - 1 - (len - 1 - p)])] is Snake);
                    }
                }
            }
            i = i + 1;
        }
    }

    /// The simple race: body segments block, ties of step and length draw.
    fn calc_simple(&mut self)
        requires
            old(self).flood_wf(),
            none_owned(old(self).cells.cells@),
            stamp_free_or_snake(old(self).cells.cells@),
        ensures
            final(self).flood_wf(),
            owned_walks(final(self).cells.cells@, final(self).cells, old(self).cells.cells@, final(self).state.sv()),
            claims_respect(final(self).cells.cells@, old(self).cells.cells@),
            draw_walks(final(self).cells.cells@, old(self).cells, old(self).cells.cells@, final(self).state.sv(), true),
            bodies_kept(final(self).cells.cells@, old(self).cells.cells@),
            forall|p: Coord| old(self).cells.in_range(p) && #[trigger] source(final(self).cells.cells@, old(self).cells, final(self).state.sv(), p)
                ==> closed_dirs(final(self).cells.cells@, old(self).cells, final(self).state.grid, p, 4),
            final(self).state == old(self).state,
            final(self).dead_ends@ == old(self).dead_ends@,
    {
        let st: &State = self.state;
        let ghost sv = st.sv();
        let ghost g0 = self.cells;
        let ghost init = self.cells.cells@;
        let ordered_ids = get_ordered_ids(&st.snakes);
        let mut queue: VecDeque<FloodElement> = VecDeque::new();
        let mut o: usize = 0;
        while o < ordered_ids.len()
            invariant
                st == self.state,
                sv == st.sv(),
                self.flood_wf(),
                o <= ordered_ids@.len(),
                forall|i: int| 0 <= i < ordered_ids@.len() ==> #[trigger] ordered_ids@[i] < st.snakes@.len() && views(st.snakes@)[ordered_ids@[i] as int].alive(),
                queue_ok(queue@, self.cells, sv),
                same_dims(self.cells, g0),
                g0.wf(),
                queue_walks(queue@, g0, init, sv),
                owned_walks(self.cells.cells@, g0, init, sv),
                claims_respect(self.cells.cells@, init),
                draw_walks(self.cells.cells@, g0, init, sv, true),
                bodies_kept(self.cells.cells@, init),
                self.cells.cells@ == init,
                none_owned(init),
                forall|t: int| 0 <= t < o ==> pending(queue@, g0, #[trigger] sv[ordered_ids@[t] as int].head()),
            decreases ordered_ids@.len() - o,
        {
            let id = ordered_ids[o];
            let snake = &st.snakes[id];
            assert(sv[id as int] == snake@);
            assert(st.grid.contains_spec(sv[id as int].body[0]));
            let head = self.cells.canonical(snake.head());
            let ghost qb = queue@;
            queue.push_back(FloodElement {
                id: id as u8,
                pos: head,
                step: 0,
                health: snake.health,
                length: length_u8(snake.len()),
                food_eaten: 0,
            });
            proof {
                lemma_walk_start(g0, init, sv[id as int].head(), head);
                assert(g0.idx(queue@[queue@.len() - 1].pos) == g0.idx(sv[id as int].head()));
                assert forall|t: int| 0 <= t < o + 1 implies pending(queue@, g0, #[trigger] sv[ordered_ids@[t] as int].head()) by {
                    if t < o {
                        let w = choose|w: int| 0 <= w < qb.len() && #[trigger] g0.idx(qb[w].pos) == g0.idx(sv[ordered_ids@[t] as int].head());
                        assert(queue@[w] == qb[w]);
                    } else {
                        assert(g0.idx(queue@[queue@.len() - 1].pos) == g0.idx(sv[ordered_ids@[t] as int].head()));
                    }
                }
            }
            o = o + 1;
        }
        let ghost sg = st.grid;
        proof {
            assert forall|p: Coord| g0.in_range(p) && #[trigger] source(self.cells.cells@, g0, sv, p)
                implies closed_dirs(self.cells.cells@, g0, sg, p, 4) || pending(queue@, g0, p) by {
                g0.lemma_idx_bounds(p);
                let i = choose|i: int| 0 <= i < sv.len() && sv[i].alive() && #[trigger] g0.idx(sv[i].head()) == g0.idx(p);
                assert(ordered_ids@.contains(i as usize));
                let t = choose|t: int| 0 <= t < ordered_ids@.len() && ordered_ids@[t] == i as usize;
                assert(pending(queue@, g0, sv[ordered_ids@[t] as int].head()));
                let w = choose|w: int| 0 <= w < queue@.len() && #[trigger] g0.idx(queue@[w].pos) == g0.idx(sv[ordered_ids@[t] as int].head());
                assert(g0.idx(queue@[w].pos) == g0.idx(p));
            }
        }
        loop
            invariant
                st == self.state,
                sv == st.sv(),
                self.flood_wf(),
                self.dead_ends@ == old(self).dead_ends@,
                self.state == old(self).state,
                queue_ok(queue@, self.cells, sv),
                same_dims(self.cells, g0),
                g0.wf(),
                queue_walks(queue@, g0, init, sv),
                owned_walks(self.cells.cells@, g0, init, sv),
                claims_respect(self.cells.cells@, init),
                draw_walks(self.cells.cells@, g0, init, sv, true),
                bodies_kept(self.cells.cells@, init),
                sg == st.grid,
                expanded(self.cells.cells@, g0, sg, sv, queue@),
            ensures
                self.flood_wf(),
                self.dead_ends@ == old(self).dead_ends@,
                self.state == old(self).state,
                same_dims(self.cells, g0),
                owned_walks(self.cells.cells@, g0, init, sv),
                claims_respect(self.cells.cells@, init),
                draw_walks(self.cells.cells@, g0, init, sv, true),
                bodies_kept(self.cells.cells@, init),
                expanded(self.cells.cells@, g0, sg, sv, queue@),
                queue@.len() == 0,
            decreases total_weight(self.cells.cells@) + queue@.len(),
        {
            let ghost measure = total_weight(self.cells.cells@) + queue@.len();
            let ghost q0 = queue@;
            let elem = match queue.pop_front() {
                Some(e) => e,
                std::option::Option::None => break,
            };
            assert(elem == q0[0]);
            assert(queue_ok(queue@, self.cells, sv));
            assert(elem.step < u32::MAX ==> walk(g0, init, sv[elem.id as int].head(), elem.pos, elem.step as int));
            proof {
                assert forall|p: Coord| g0.in_range(p) && #[trigger] source(self.cells.cells@, g0, sv, p) && p != elem.pos
                    implies closed_dirs(self.cells.cells@, g0, sg, p, 4) || pending(queue@, g0, p) by {
                    if !closed_dirs(self.cells.cells@, g0, sg, p, 4) {
                        let w = choose|w: int| 0 <= w < q0.len() && #[trigger] g0.idx(q0[w].pos) == g0.idx(p);
                        if w == 0 {
                            lemma_in_range_injective(g0, p, elem.pos);
                        } else {
                            assert(queue@[w - 1] == q0[w]);
                        }
                    }
                }
            }
            if *self.cells.get(elem.pos) == CellFlood::Draw {
                proof {
                    assert forall|p: Coord| g0.in_range(p) && #[trigger] source(self.cells.cells@, g0, sv, p)
                        implies closed_dirs(self.cells.cells@, g0, sg, p, 4) || pending(queue@, g0, p) by {
                        if p == elem.pos {
                            assert(self.cells.cells@[g0.idx(p)] == CellFlood::Draw);
                        }
                    }
                }
                continue;
            }
            let ns = elem.get_neighbours();
            let mut d: usize = 0;
            while d < 4
                invariant
                    st == self.state,
                    sv == st.sv(),
                    self.flood_wf(),
                    self.dead_ends@ == old(self).dead_ends@,
                    self.state == old(self).state,
                    queue_ok(queue@, self.cells, sv),
                    same_dims(self.cells, g0),
                    g0.wf(),
                    queue_walks(queue@, g0, init, sv),
                    owned_walks(self.cells.cells@, g0, init, sv),
                claims_respect(self.cells.cells@, init),
                draw_walks(self.cells.cells@, g0, init, sv, true),
                bodies_kept(self.cells.cells@, init),
                    d <= 4,
                    elem.id < sv.len() && sv[elem.id as int].alive(),
                    self.cells.in_range(elem.pos),
                    forall|i: int| 0 <= i < 4 ==> (#[trigger] ns@[i]).id == elem.id && ns@[i].pos == step_spec(elem.pos, alive_actions()[i]),
                    total_weight(self.cells.cells@) + queue@.len() < measure,
                    elem.step < u32::MAX ==> walk(g0, init, sv[elem.id as int].head(), elem.pos, elem.step as int),
                    forall|i: int| 0 <= i < 4 ==> (#[trigger] ns@[i]).step == sat_inc(elem.step),
                    sg == st.grid,
                    closed_dirs(self.cells.cells@, g0, sg, elem.pos, d as int),
                    forall|p: Coord| g0.in_range(p) && #[trigger] source(self.cells.cells@, g0, sv, p) && p != elem.pos
                        ==> closed_dirs(self.cells.cells@, g0, sg, p, 4) || pending(queue@, g0, p),
                decreases 4 - d,
            {
                let mut nb = ns[d];
                let ghost dd = alive_actions()[d as int];
                let ghost cs_before = self.cells.cells@;
                let ghost q_before = queue@;
                assert(nb.pos == step_spec(elem.pos, dd) && dir_index(dd) < 4);
                if self.cells.wrapped {
                    self.cells.wrap_around(&mut nb.pos);
                    proof {
                        lemma_wrap_step(g0, elem.pos, dd, nb.pos);
                    }
                }
                if self.cells.contains(nb.pos) && !st.grid.is_snake(nb.pos) {
                    proof {
                        lemma_neighbour_walk(g0, init, sv[elem.id as int].head(), elem, nb, dd);
                    }
                    let cell = *self.cells.get(nb.pos);
                    let k = self.cells.index_of(nb.pos);
                    let ghost before_cells = self.cells.cells@;
                    match cell {
                        CellFlood::Free => {
                            let v = nb.to_cell(false);
                            self.cells.set(nb.pos, v);
                            proof { lemma_weight_update(before_cells, k as int, v); }
                            queue.push_back(nb);
                        },
                        CellFlood::Owned { id, step, length, .. } => {
                            if id != nb.id && step == nb.step && length == nb.length {
                                self.cells.set(nb.pos, CellFlood::Draw);
                                proof { lemma_weight_update(before_cells, k as int, CellFlood::Draw); }
                            }
                        },
                        _ => {},
                    }
                    assert forall|q: int| 0 <= q < self.cells.cells@.len() implies match #[trigger] self.cells.cells@[q] {
                        CellFlood::Owned { id, .. } => id < sv.len() && sv[id as int].alive(),
                        CellFlood::Snake { id, .. } => id < sv.len() && sv[id as int].alive(),
                        _ => true,
                    } by {
                        if q != k {
                            assert(self.cells.cells@[q] == before_cells[q]);
                        }
                    }
                    assert forall|q: int| 0 <= q < self.cells.cells@.len() implies match #[trigger] self.cells.cells@[q] {
                        CellFlood::Owned { id, step, .. } => step < u32::MAX ==> exists|c: Coord|
                            g0.in_range(c) && #[trigger] g0.idx(c) == q && walk(g0, init, sv[id as int].head(), c, step as int),
                        _ => true,
                    } by {
                        if q != k || self.cells.cells@[q] == before_cells[q] {
                            assert(self.cells.cells@[q] == before_cells[q]);
                        } else if self.cells.cells@[q] is Owned {
                            assert(g0.in_range(nb.pos) && g0.idx(nb.pos) == q);
                            assert(passable(init, q, nb.step as int));
                        }
                    }
                    assert forall|q: int| 0 <= q < self.cells.cells@.len() && (#[trigger] self.cells.cells@[q]) is Draw implies exists|i: int, j: int, si: int, sj: int|
                        0 <= i < sv.len() && 0 <= j < sv.len() && i != j && (true ==> si == sj) && #[trigger] reached(g0, init, sv, i, q, si)
                            && #[trigger] reached(g0, init, sv, j, q, sj) by {
                        if q != k || self.cells.cells@[q] == before_cells[q] {
                            assert(self.cells.cells@[q] == before_cells[q]);
                        } else {
                            let oid = before_cells[q]->Owned_id;
                            let ostep = before_cells[q]->Owned_step;
                            assert(g0.in_range(nb.pos) && g0.idx(nb.pos) == q);
                            assert(reached(g0, init, sv, oid as int, q, ostep as int));
                            assert(passable(init, q, nb.step as int));
                            assert(reached(g0, init, sv, nb.id as int, q, nb.step as int));
                        }
                    }
                    assert forall|q: int| 0 <= q < self.cells.cells@.len() implies match #[trigger] self.cells.cells@[q] {
                        CellFlood::Owned { step, .. } => passable(init, q, step as int),
                        _ => true,
                    } by {
                        if q != k || self.cells.cells@[q] == before_cells[q] {
                            assert(self.cells.cells@[q] == before_cells[q]);
                        }
                    }
                    assert forall|q: int| 0 <= q < self.cells.cells@.len() && (#[trigger] init[q]) is Snake implies !(self.cells.cells@[q] is Free) by {
                        if q != k {
                            assert(self.cells.cells@[q] == before_cells[q]);
                        }
                    }
                    assert forall|q: int| 0 <= q < self.cells.cells@.len() && (#[trigger] init[q]) is Snake implies self.cells.cells@[q] == init[q] by {
                        if q != k {
                            assert(self.cells.cells@[q] == before_cells[q]);
                        }
                    }
                    assert forall|q: int| 0 <= q < self.cells.cells@.len() && (#[trigger] self.cells.cells@[q]) is Snake implies self.cells.cells@[q] == init[q] by {
                        if q != k || self.cells.cells@[q] == before_cells[q] {
                            assert(self.cells.cells@[q] == before_cells[q]);
                        }
                    }
                }
                proof {
                    assert forall|k: int| 0 <= k < cs_before.len() && !(cs_before[k] is Free) implies !(#[trigger] self.cells.cells@[k] is Free) by {}
                    let sp = step_spec(elem.pos, dd);
                    assert(g0.idx(nb.pos) == g0.idx(sp));
                    lemma_closed_mono(cs_before, self.cells.cells@, g0, sg, elem.pos, d as int);
                    assert forall|j: int|
                        0 <= j < d + 1 && g0.contains_spec(#[trigger] step_spec(elem.pos, alive_actions()[j])) && !(sg.at(
                            step_spec(elem.pos, alive_actions()[j]),
                        ).cell is Snake) implies !(self.cells.cells@[g0.idx(step_spec(elem.pos, alive_actions()[j]))] is Free) by {
                        if j == d {
                            g0.lemma_idx_bounds(sp);
                        }
                    }
                    assert forall|p: Coord| g0.in_range(p) && #[trigger] source(self.cells.cells@, g0, sv, p) && p != elem.pos
                        implies closed_dirs(self.cells.cells@, g0, sg, p, 4) || pending(queue@, g0, p) by {
                        g0.lemma_idx_bounds(p);
                        if source(cs_before, g0, sv, p) {
                            if closed_dirs(cs_before, g0, sg, p, 4) {
                                lemma_closed_mono(cs_before, self.cells.cells@, g0, sg, p, 4);
                            } else {
                                let w = choose|w: int| 0 <= w < q_before.len() && #[trigger] g0.idx(q_before[w].pos) == g0.idx(p);
                                assert(queue@[w] == q_before[w]);
                            }
                        } else {
                            assert(g0.idx(queue@[queue@.len() - 1].pos) == g0.idx(p));
                        }
                    }
                }
                d = d + 1;
            }
            proof {
                assert forall|p: Coord| g0.in_range(p) && #[trigger] source(self.cells.cells@, g0, sv, p)
                    implies closed_dirs(self.cells.cells@, g0, sg, p, 4) || pending(queue@, g0, p) by {}
            }
        }
        proof {
            lemma_owned_walks_dims(self.cells.cells@, g0, self.cells, init, sv);
        }
    }
}


impl<'a> Floodfill<'a> {
    /// The realistic race: food restores health and adds length, hazards
    /// cost health, a starved entry stops, and body segments can be entered
    /// once they have moved away.
    #[verifier::rlimit(40)]
    fn calc_follow_snakes(&mut self)
        requires
            old(self).flood_wf(),
            none_owned(old(self).cells.cells@),
            stamp_free_or_snake(old(self).cells.cells@),
            stamp_complete(old(self).cells.cells@, old(self).cells, old(self).state.sv(), old(self).state.sv().len() as int),
        ensures
            final(self).flood_wf(),
            owned_walks(final(self).cells.cells@, final(self).cells, old(self).cells.cells@, final(self).state.sv()),
            claims_respect(final(self).cells.cells@, old(self).cells.cells@),
            draw_walks(final(self).cells.cells@, old(self).cells, old(self).cells.cells@, final(self).state.sv(), true),
            forall|p: Coord| old(self).cells.in_range(p) && #[trigger] source_f(final(self).cells.cells@, old(self).cells, final(self).state.grid, final(self).state.sv(), p)
                ==> closed_dirs(final(self).cells.cells@, old(self).cells, final(self).state.grid, p, 4),
            final(self).state == old(self).state,
            single(final(self).state.sv()) ==> owned_walks_f(final(self).cells.cells@, final(self).cells, old(self).cells.cells@, final(self).state.grid, final(self).state.sv()),
            forall|j: int| 0 <= j < final(self).dead_ends@.len() && !(#[trigger] final(self).state.sv()[j]).alive()
                ==> final(self).dead_ends@[j] == old(self).dead_ends@[j],
            forall|j: int| 0 <= j < final(self).dead_ends@.len() && #[trigger] final(self).dead_ends@[j] ==> old(self).dead_ends@[j],
    {
        let st: &State = self.state;
        let ghost sv = st.sv();
        let ghost g0 = self.cells;
        let ghost init = self.cells.cells@;
        let ghost sgf = st.grid;
        let ordered_ids = get_ordered_ids(&st.snakes);
        let mut queue: VecDeque<FloodElement> = VecDeque::new();
        let mut o: usize = 0;
        while o < ordered_ids.len()
            invariant
                st == self.state,
                sv == st.sv(),
                self.flood_wf(),
                o <= ordered_ids@.len(),
                forall|i: int| 0 <= i < ordered_ids@.len() ==> #[trigger] ordered_ids@[i] < st.snakes@.len() && views(st.snakes@)[ordered_ids@[i] as int].alive(),
                queue_ok(queue@, self.cells, sv),
                same_dims(self.cells, g0),
                g0.wf(),
                queue_walks(queue@, g0, init, sv),
                owned_walks(self.cells.cells@, g0, init, sv),
                claims_respect(self.cells.cells@, init),
                draw_walks(self.cells.cells@, g0, init, sv, true),
                forall|j: int| 0 <= j < self.dead_ends@.len() && !(#[trigger] sv[j]).alive() ==> self.dead_ends@[j] == old(self).dead_ends@[j],
                forall|j: int| 0 <= j < self.dead_ends@.len() && #[trigger] self.dead_ends@[j] ==> old(self).dead_ends@[j],
                self.cells.cells@ == init,
                none_owned(init),
                sgf == st.grid,
                single(sv) ==> queue_walks_f(queue@, g0, init, sgf, sv),
                stamp_complete(init, g0, sv, sv.len() as int),
                forall|w: int| 0 <= w < queue@.len() ==> #[trigger] self.cells.cells@[g0.idx(queue@[w].pos)] is Snake,
                forall|t: int| #![trigger ordered_ids@[t]] 0 <= t < o ==> exists|w: int| 0 <= w < queue@.len() && #[trigger] g0.idx(queue@[w].pos) == g0.idx(sv[ordered_ids@[t] as int].head())
                    && queue@[w].id == ordered_ids@[t] && queue@[w].health as int == sv[ordered_ids@[t] as int].health,
            decreases ordered_ids@.len() - o,
        {
            let id = ordered_ids[o];
            let snake = &st.snakes[id];
            assert(sv[id as int] == snake@);
            assert(st.grid.contains_spec(sv[id as int].body[0]));
            let head = self.cells.canonical(snake.head());
            let ghost qb = queue@;
            queue.push_back(FloodElement {
                id: id as u8,
                pos: head,
                step: 0,
                health: snake.health,
                length: length_u8(snake.len()),
                food_eaten: 0,
            });
            proof {
                lemma_walk_start(g0, init, sv[id as int].head(), head);
                lemma_walk_fe_start(g0, init, sgf, id as int, sv[id as int].head(), head);
                let last = queue@.len() - 1;
                assert forall|w: int| 0 <= w < queue@.len() && (#[trigger] queue@[w]).step < u32::MAX && single(sv) implies
                    walk_fe(g0, init, sgf, queue@[w].id as int, sv[queue@[w].id as int].head(), queue@[w].pos, queue@[w].step as int, queue@[w].food_eaten as int) by {
                    if w < qb.len() {
                        assert(queue@[w] == qb[w]);
                    } else {
                        assert(st.snakes@.len() <= 256);
                        assert(id < 256);
                        assert(queue@[w].id as int == id as int);
                        assert(queue@[w].pos == head && queue@[w].step == 0 && queue@[w].food_eaten == 0);
                    }
                }
                assert(g0.idx(queue@[last].pos) == g0.idx(sv[id as int].head()));
                assert forall|t: int| #![trigger ordered_ids@[t]] 0 <= t < o + 1 implies exists|w: int| 0 <= w < queue@.len() && #[trigger] g0.idx(queue@[w].pos) == g0.idx(sv[ordered_ids@[t] as int].head())
                    && queue@[w].id == ordered_ids@[t] && queue@[w].health as int == sv[ordered_ids@[t] as int].health by {
                    if t < o {
                        let w = choose|w: int| 0 <= w < qb.len() && #[trigger] g0.idx(qb[w].pos) == g0.idx(sv[ordered_ids@[t] as int].head())
                            && qb[w].id == ordered_ids@[t] && qb[w].health as int == sv[ordered_ids@[t] as int].health;
                        assert(queue@[w] == qb[w]);
                    } else {
                        assert(queue@[last].id == ordered_ids@[t]);
                        assert(g0.idx(queue@[last].pos) == g0.idx(sv[ordered_ids@[t] as int].head()));
                    }
                }
                assert forall|w: int| 0 <= w < queue@.len() implies #[trigger] self.cells.cells@[g0.idx(queue@[w].pos)] is Snake by {
                    if w < qb.len() {
                        assert(queue@[w] == qb[w]);
                    } else {
                        g0.lemma_idx_bounds(sv[id as int].head());
                        assert(self.cells.cells@[g0.idx(sv[id as int].body[0])] is Snake);
                    }
                }
            }
            o = o + 1;
        }
        let ghost sg = st.grid;
        proof {
            assert forall|p: Coord| g0.in_range(p) && #[trigger] source_f(self.cells.cells@, g0, sg, sv, p)
                implies closed_dirs(self.cells.cells@, g0, sg, p, 4) || pending_f(queue@, self.cells.cells@, g0, sg, p) by {
                g0.lemma_idx_bounds(p);
                let i = choose|i: int| 0 <= i < sv.len() && sv[i].alive() && #[trigger] g0.idx(sv[i].head()) == g0.idx(p) && (sv[i].health > 0
                    || sg.at(p).cell == CellType::Food);
                assert(ordered_ids@.contains(i as usize));
                let t = choose|t: int| 0 <= t < ordered_ids@.len() && ordered_ids@[t] == i as usize;
                let w = choose|w: int| 0 <= w < queue@.len() && #[trigger] g0.idx(queue@[w].pos) == g0.idx(sv[ordered_ids@[t] as int].head())
                    && queue@[w].id == ordered_ids@[t] && queue@[w].health as int == sv[ordered_ids@[t] as int].health;
                assert(g0.idx(queue@[w].pos) == g0.idx(p));
            }
        }
        loop
            invariant
                st == self.state,
                sv == st.sv(),
                self.flood_wf(),
                self.state == old(self).state,
                queue_ok(queue@, self.cells, sv),
                same_dims(self.cells, g0),
                g0.wf(),
                queue_walks(queue@, g0, init, sv),
                owned_walks(self.cells.cells@, g0, init, sv),
                claims_respect(self.cells.cells@, init),
                draw_walks(self.cells.cells@, g0, init, sv, true),
                forall|j: int| 0 <= j < self.dead_ends@.len() && !(#[trigger] sv[j]).alive() ==> self.dead_ends@[j] == old(self).dead_ends@[j],
                forall|j: int| 0 <= j < self.dead_ends@.len() && #[trigger] self.dead_ends@[j] ==> old(self).dead_ends@[j],
                sg == st.grid,
                expanded_f(self.cells.cells@, g0, sg, sv, queue@),
                sgf == st.grid,
                single(sv) ==> queue_walks_f(queue@, g0, init, sgf, sv),
                single(sv) ==> owned_walks_f(self.cells.cells@, g0, init, sgf, sv),
            ensures
                single(sv) ==> owned_walks_f(self.cells.cells@, g0, init, sgf, sv),
                self.flood_wf(),
                self.state == old(self).state,
                same_dims(self.cells, g0),
                owned_walks(self.cells.cells@, g0, init, sv),
                claims_respect(self.cells.cells@, init),
                draw_walks(self.cells.cells@, g0, init, sv, true),
                forall|j: int| 0 <= j < self.dead_ends@.len() && !(#[trigger] sv[j]).alive() ==> self.dead_ends@[j] == old(self).dead_ends@[j],
                forall|j: int| 0 <= j < self.dead_ends@.len() && #[trigger] self.dead_ends@[j] ==> old(self).dead_ends@[j],
                expanded_f(self.cells.cells@, g0, sg, sv, queue@),
                queue@.len() == 0,
            decreases total_weight(self.cells.cells@) + queue@.len(),
        {
            let ghost measure = total_weight(self.cells.cells@) + queue@.len();
            let ghost q0 = queue@;
            let mut elem = match queue.pop_front() {
                Some(e) => e,
                std::option::Option::None => break,
            };
            assert(elem == q0[0]);
            assert(queue_ok(queue@, self.cells, sv));
            assert(elem.step < u32::MAX ==> walk(g0, init, sv[elem.id as int].head(), elem.pos, elem.step as int));
            let ghost e0 = elem;
            assert(single(sv) && elem.step < u32::MAX ==> walk_fe(g0, init, sgf, elem.id as int, sv[elem.id as int].head(), elem.pos, elem.step as int, elem.food_eaten as int));
            let ghost cs0 = self.cells.cells@;
            proof {
                assert forall|p: Coord| g0.in_range(p) && #[trigger] source_f(cs0, g0, sg, sv, p) && !(p == elem.pos && (elem.health > 0
                    || sg.at(p).cell == CellType::Food) && match cs0[g0.idx(p)] {
                        CellFlood::Owned { id, .. } => elem.id == id,
                        _ => true,
                    })
                    implies closed_dirs(cs0, g0, sg, p, 4) || pending_f(queue@, cs0, g0, sg, p) by {
                    if !closed_dirs(cs0, g0, sg, p, 4) {
                        let w = choose|w: int|
                            0 <= w < q0.len() && #[trigger] g0.idx(q0[w].pos) == g0.idx(p) && (q0[w].health > 0 || sg.at(p).cell
                                == CellType::Food) && match cs0[g0.idx(p)] {
                                CellFlood::Owned { id, .. } => q0[w].id == id,
                                _ => true,
                            };
                        if w == 0 {
                            lemma_in_range_injective(g0, p, elem.pos);
                        } else {
                            assert(queue@[w - 1] == q0[w]);
                        }
                    }
                }
            }
            let here = *self.cells.get(elem.pos);
            if here == CellFlood::Draw {
                self.dead_ends[elem.id as usize] = false;
                continue;
            }
            if let CellFlood::Owned { id, .. } = here {
                if id != elem.id {
                    self.dead_ends[elem.id as usize] = false;
                    continue;
                }
            }
            let ghost is_food = sg.at(elem.pos).cell == CellType::Food;
            if st.grid.is_food(elem.pos) {
                elem.health = FULL_HEALTH;
                elem.length = if elem.length == u8::MAX { elem.length } else { elem.length + 1 };
                elem.food_eaten = if elem.food_eaten == u8::MAX { elem.food_eaten } else { elem.food_eaten + 1 };
            } else if elem.health <= 0 {
                proof {
                    assert forall|p: Coord| g0.in_range(p) && #[trigger] source_f(self.cells.cells@, g0, sg, sv, p)
                        implies closed_dirs(self.cells.cells@, g0, sg, p, 4) || pending_f(queue@, self.cells.cells@, g0, sg, p) by {
                        if p == elem.pos {
                            g0.lemma_idx_bounds(p);
                        }
                    }
                }
                continue;
            }
            let ns = elem.get_neighbours();
            let mut d: usize = 0;
            while d < 4
                invariant
                    st == self.state,
                    sv == st.sv(),
                    self.flood_wf(),
                    self.state == old(self).state,
                    queue_ok(queue@, self.cells, sv),
                    same_dims(self.cells, g0),
                    g0.wf(),
                    queue_walks(queue@, g0, init, sv),
                    owned_walks(self.cells.cells@, g0, init, sv),
                claims_respect(self.cells.cells@, init),
                draw_walks(self.cells.cells@, g0, init, sv, true),
                forall|j: int| 0 <= j < self.dead_ends@.len() && !(#[trigger] sv[j]).alive() ==> self.dead_ends@[j] == old(self).dead_ends@[j],
                forall|j: int| 0 <= j < self.dead_ends@.len() && #[trigger] self.dead_ends@[j] ==> old(self).dead_ends@[j],
                    d <= 4,
                    elem.id < sv.len() && sv[elem.id as int].alive(),
                    elem.health >= 1,
                    self.cells.in_range(elem.pos),
                    forall|i: int| 0 <= i < 4 ==> (#[trigger] ns@[i]).id == elem.id && ns@[i].pos == step_spec(elem.pos, alive_actions()[i]) && ns@[i].health == sat_dec(elem.health),
                    total_weight(self.cells.cells@) + queue@.len() < measure,
                    elem.step < u32::MAX ==> walk(g0, init, sv[elem.id as int].head(), elem.pos, elem.step as int),
                    forall|i: int| 0 <= i < 4 ==> (#[trigger] ns@[i]).step == sat_inc(elem.step),
                    sg == st.grid,
                    sgf == st.grid,
                    single(sv) ==> queue_walks_f(queue@, g0, init, sgf, sv),
                    single(sv) ==> owned_walks_f(self.cells.cells@, g0, init, sgf, sv),
                    elem.pos == e0.pos && elem.step == e0.step && elem.id == e0.id,
                    single(sv) && e0.step < u32::MAX ==> walk_fe(g0, init, sgf, e0.id as int, sv[e0.id as int].head(), e0.pos, e0.step as int, e0.food_eaten as int),
                    elem.food_eaten as int == (if sgf.at(e0.pos).cell == CellType::Food { if e0.food_eaten == 255 { 255 } else { e0.food_eaten + 1 } } else { e0.food_eaten as int }),
                    forall|i: int| 0 <= i < 4 ==> (#[trigger] ns@[i]).food_eaten == elem.food_eaten,
                    closed_dirs(self.cells.cells@, g0, sg, elem.pos, d as int),
                    forall|p: Coord| g0.in_range(p) && #[trigger] source_f(self.cells.cells@, g0, sg, sv, p) && p != elem.pos
                        ==> closed_dirs(self.cells.cells@, g0, sg, p, 4) || pending_f(queue@, self.cells.cells@, g0, sg, p),
                    decreases 4 - d,
            {
                let mut nb = ns[d];
                let ghost dd = alive_actions()[d as int];
                let ghost cs_before = self.cells.cells@;
                let ghost q_before = queue@;
                assert(nb.pos == step_spec(elem.pos, dd) && dir_index(dd) < 4);
                if self.cells.wrapped {
                    self.cells.wrap_around(&mut nb.pos);
                    proof {
                        lemma_wrap_step(g0, elem.pos, dd, nb.pos);
                    }
                }
                if self.cells.contains(nb.pos) {
                    proof {
                        lemma_neighbour_walk(g0, init, sv[elem.id as int].head(), elem, nb, dd);
                    }
                    nb.health = nb.health - (st.grid.get(nb.pos).hazard as i16) * HAZARD_DAMAGE;
                    let cell = *self.cells.get(nb.pos);
                    let k = self.cells.index_of(nb.pos);
                    let ghost before_cells = self.cells.cells@;
                    match cell {
                        CellFlood::Free => {
                            let v = nb.to_cell(false);
                            self.cells.set(nb.pos, v);
                            proof { lemma_weight_update(before_cells, k as int, v); }
                            queue.push_back(nb);
                        },
                        CellFlood::Snake { id, tail_dist } => {
                            let vacated = if id == nb.id {
                                (tail_dist as u32) + (nb.food_eaten as u32) < nb.step
                            } else {
                                (tail_dist as u32) < nb.step
                            };
                            if vacated {
                                let v = nb.to_cell(true);
                                self.cells.set(nb.pos, v);
                                proof { lemma_weight_update(before_cells, k as int, v); }
                                queue.push_back(nb);
                            }
                        },
                        CellFlood::Owned { id, length, health, was_snake, step } => {
                            if id != elem.id {
                                self.dead_ends[elem.id as usize] = false;
                            }
                            if step == nb.step && id != nb.id {
                                if nb.length == length {
                                    self.cells.set(nb.pos, CellFlood::Draw);
                                    proof { lemma_weight_update(before_cells, k as int, CellFlood::Draw); }
                                } else if nb.length > length {
                                    let v = nb.to_cell(was_snake);
                                    self.cells.set(nb.pos, v);
                                    proof { lemma_weight_update(before_cells, k as int, v); }
                                    queue.push_back(nb);
                                }
                            }
                        },
                        CellFlood::Draw => {
                            self.dead_ends[elem.id as usize] = false;
                        },
                    }
                    proof {
                        if single(sv) && nb.step < u32::MAX && self.cells.cells@[k as int] != before_cells[k as int] && self.cells.cells@[k as int] is Owned {
                            assert(passable(init, k as int, nb.step as int));
                            if before_cells[k as int] is Owned {
                                let oid = before_cells[k as int]->Owned_id;
                                assert(sv[oid as int].alive());
                                assert(sv[nb.id as int].alive());
                            }
                            assert(own_ok(init, k as int, nb.step as int, nb.id as int, nb.food_eaten as int));
                            lemma_walk_fe_step(g0, init, sgf, nb.id as int, sv[nb.id as int].head(), e0.pos, e0.step as int, e0.food_eaten as int, dd, nb.pos, nb.food_eaten as int);
                        }
                        assert forall|w: int| 0 <= w < queue@.len() && (#[trigger] queue@[w]).step < u32::MAX && single(sv) implies
                            walk_fe(g0, init, sgf, queue@[w].id as int, sv[queue@[w].id as int].head(), queue@[w].pos, queue@[w].step as int, queue@[w].food_eaten as int) by {
                            if w < q_before.len() {
                                assert(queue@[w] == q_before[w]);
                            }
                        }
                        assert forall|q: int| 0 <= q < self.cells.cells@.len() && single(sv) implies match #[trigger] self.cells.cells@[q] {
                            CellFlood::Owned { id, step, .. } => step < u32::MAX ==> exists|c: Coord|
                                g0.in_range(c) && #[trigger] g0.idx(c) == q && walk_o(g0, init, sgf, id as int, sv[id as int].head(), c, step as int),
                            _ => true,
                        } by {
                            if q != k || self.cells.cells@[q] == before_cells[q] {
                                assert(self.cells.cells@[q] == before_cells[q]);
                            } else if self.cells.cells@[q] is Owned {
                                assert(g0.in_range(nb.pos) && g0.idx(nb.pos) == q);
                            }
                        }
                    }
                    assert forall|q: int| 0 <= q < self.cells.cells@.len() implies match #[trigger] self.cells.cells@[q] {
                        CellFlood::Owned { id, .. } => id < sv.len() && sv[id as int].alive(),
                        CellFlood::Snake { id, .. } => id < sv.len() && sv[id as int].alive(),
                        _ => true,
                    } by {
                        if q != k {
                            assert(self.cells.cells@[q] == before_cells[q]);
                        }
                    }
                    assert forall|q: int| 0 <= q < self.cells.cells@.len() implies match #[trigger] self.cells.cells@[q] {
                        CellFlood::Owned { id, step, .. } => step < u32::MAX ==> exists|c: Coord|
                            g0.in_range(c) && #[trigger] g0.idx(c) == q && walk(g0, init, sv[id as int].head(), c, step as int),
                        _ => true,
                    } by {
                        if q != k || self.cells.cells@[q] == before_cells[q] {
                            assert(self.cells.cells@[q] == before_cells[q]);
                        } else if self.cells.cells@[q] is Owned {
                            assert(g0.in_range(nb.pos) && g0.idx(nb.pos) == q);
                            assert(passable(init, q, nb.step as int));
                        }
                    }
                    assert forall|q: int| 0 <= q < self.cells.cells@.len() && (#[trigger] self.cells.cells@[q]) is Draw implies exists|i: int, j: int, si: int, sj: int|
                        0 <= i < sv.len() && 0 <= j < sv.len() && i != j && (true ==> si == sj) && #[trigger] reached(g0, init, sv, i, q, si)
                            && #[trigger] reached(g0, init, sv, j, q, sj) by {
                        if q != k || self.cells.cells@[q] == before_cells[q] {
                            assert(self.cells.cells@[q] == before_cells[q]);
                        } else {
                            let oid = before_cells[q]->Owned_id;
                            let ostep = before_cells[q]->Owned_step;
                            assert(g0.in_range(nb.pos) && g0.idx(nb.pos) == q);
                            assert(reached(g0, init, sv, oid as int, q, ostep as int));
                            assert(passable(init, q, nb.step as int));
                            assert(reached(g0, init, sv, nb.id as int, q, nb.step as int));
                        }
                    }
                    assert forall|q: int| 0 <= q < self.cells.cells@.len() implies match #[trigger] self.cells.cells@[q] {
                        CellFlood::Owned { step, .. } => passable(init, q, step as int),
                        _ => true,
                    } by {
                        if q != k || self.cells.cells@[q] == before_cells[q] {
                            assert(self.cells.cells@[q] == before_cells[q]);
                        }
                    }
                    assert forall|q: int| 0 <= q < self.cells.cells@.len() && (#[trigger] init[q]) is Snake implies !(self.cells.cells@[q] is Free) by {
                        if q != k {
                            assert(self.cells.cells@[q] == before_cells[q]);
                        }
                    }
                    assert forall|q: int| 0 <= q < self.cells.cells@.len() && (#[trigger] self.cells.cells@[q]) is Snake implies self.cells.cells@[q] == init[q] by {
                        if q != k || self.cells.cells@[q] == before_cells[q] {
                            assert(self.cells.cells@[q] == before_cells[q]);
                        }
                    }
                }
                proof {
                    assert forall|k2: int| 0 <= k2 < cs_before.len() && !(cs_before[k2] is Free) implies !(#[trigger] self.cells.cells@[k2] is Free) by {}
                    let sp = step_spec(elem.pos, dd);
                    assert(g0.idx(nb.pos) == g0.idx(sp));
                    lemma_closed_mono(cs_before, self.cells.cells@, g0, sg, elem.pos, d as int);
                    assert forall|j: int|
                        0 <= j < d + 1 && g0.contains_spec(#[trigger] step_spec(elem.pos, alive_actions()[j])) && !(sg.at(
                            step_spec(elem.pos, alive_actions()[j]),
                        ).cell is Snake) implies !(self.cells.cells@[g0.idx(step_spec(elem.pos, alive_actions()[j]))] is Free) by {
                        if j == d {
                            g0.lemma_idx_bounds(sp);
                        }
                    }
                    assert forall|p: Coord| g0.in_range(p) && #[trigger] source_f(self.cells.cells@, g0, sg, sv, p) && p != elem.pos
                        implies closed_dirs(self.cells.cells@, g0, sg, p, 4) || pending_f(queue@, self.cells.cells@, g0, sg, p) by {
                        g0.lemma_idx_bounds(p);
                        if self.cells.cells@[g0.idx(p)] == cs_before[g0.idx(p)] && source_f(cs_before, g0, sg, sv, p) {
                            if closed_dirs(cs_before, g0, sg, p, 4) {
                                lemma_closed_mono(cs_before, self.cells.cells@, g0, sg, p, 4);
                            } else {
                                let w = choose|w: int|
                                    0 <= w < q_before.len() && #[trigger] g0.idx(q_before[w].pos) == g0.idx(p) && (q_before[w].health > 0
                                        || sg.at(p).cell == CellType::Food) && match cs_before[g0.idx(p)] {
                                        CellFlood::Owned { id, .. } => q_before[w].id == id,
                                        _ => true,
                                    };
                                assert(queue@[w] == q_before[w]);
                            }
                        } else {
                            assert(g0.idx(queue@[queue@.len() - 1].pos) == g0.idx(p));
                        }
                    }
                }
                d = d + 1;
            }
            proof {
                assert forall|p: Coord| g0.in_range(p) && #[trigger] source_f(self.cells.cells@, g0, sg, sv, p)
                    implies closed_dirs(self.cells.cells@, g0, sg, p, 4) || pending_f(queue@, self.cells.cells@, g0, sg, p) by {}
            }
        }
        proof {
            lemma_owned_walks_dims(self.cells.cells@, g0, self.cells, init, sv);
            if single(sv) {
                lemma_owned_walks_f_dims(self.cells.cells@, g0, self.cells, init, sgf, sv);
            }
            assert forall|p: Coord| g0.in_range(p) && #[trigger] source_f(self.cells.cells@, g0, sg, sv, p)
                implies closed_dirs(self.cells.cells@, g0, sg, p, 4) by {}
        }
    }

    /// The constrictor race: no food, no starvation, body segments never
    /// move away, and any meeting of two snakes' claims is a draw.
    fn calc_constrictor(&mut self)
        requires
            old(self).flood_wf(),
            none_owned(old(self).cells.cells@),
            stamp_free_or_snake(old(self).cells.cells@),
            stamp_complete(old(self).cells.cells@, old(self).cells, old(self).state.sv(), old(self).state.sv().len() as int),
        ensures
            final(self).flood_wf(),
            owned_walks(final(self).cells.cells@, final(self).cells, old(self).cells.cells@, final(self).state.sv()),
            claims_respect(final(self).cells.cells@, old(self).cells.cells@),
            draw_walks(final(self).cells.cells@, old(self).cells, old(self).cells.cells@, final(self).state.sv(), false),
            bodies_kept(final(self).cells.cells@, old(self).cells.cells@),
            forall|p: Coord| old(self).cells.in_range(p) && #[trigger] source(final(self).cells.cells@, old(self).cells, final(self).state.sv(), p)
                ==> closed_dirs(final(self).cells.cells@, old(self).cells, final(self).state.grid, p, 4),
            final(self).state == old(self).state,
            forall|j: int| 0 <= j < final(self).dead_ends@.len() && !(#[trigger] final(self).state.sv()[j]).alive()
                ==> final(self).dead_ends@[j] == old(self).dead_ends@[j],
            forall|j: int| 0 <= j < final(self).dead_ends@.len() && #[trigger] final(self).dead_ends@[j] ==> old(self).dead_ends@[j],
    {
        let st: &State = self.state;
        let ghost sv = st.sv();
        let ghost g0 = self.cells;
        let ghost init = self.cells.cells@;
        let ordered_ids = get_ordered_ids(&st.snakes);
        let mut queue: VecDeque<FloodElement> = VecDeque::new();
        let mut o: usize = 0;
        while o < ordered_ids.len()
            invariant
                st == self.state,
                sv == st.sv(),
                self.flood_wf(),
                o <= ordered_ids@.len(),
                forall|i: int| 0 <= i < ordered_ids@.len() ==> #[trigger] ordered_ids@[i] < st.snakes@.len() && views(st.snakes@)[ordered_ids@[i] as int].alive(),
                queue_ok(queue@, self.cells, sv),
                same_dims(self.cells, g0),
                g0.wf(),
                queue_walks(queue@, g0, init, sv),
                owned_walks(self.cells.cells@, g0, init, sv),
                claims_respect(self.cells.cells@, init),
                draw_walks(self.cells.cells@, g0, init, sv, false),
                bodies_kept(self.cells.cells@, init),
                forall|j: int| 0 <= j < self.dead_ends@.len() && !(#[trigger] sv[j]).alive() ==> self.dead_ends@[j] == old(self).dead_ends@[j],
                forall|j: int| 0 <= j < self.dead_ends@.len() && #[trigger] self.dead_ends@[j] ==> old(self).dead_ends@[j],
                self.cells.cells@ == init,
                none_owned(init),
                forall|t: int| 0 <= t < o ==> pending(queue@, g0, #[trigger] sv[ordered_ids@[t] as int].head()),
                forall|w: int| 0 <= w < queue@.len() ==> #[trigger] self.cells.cells@[g0.idx(queue@[w].pos)] is Snake,
                stamp_complete(init, g0, sv, sv.len() as int),
            decreases ordered_ids@.len() - o,
        {
            let id = ordered_ids[o];
            let snake = &st.snakes[id];
            assert(sv[id as int] == snake@);
            assert(st.grid.contains_spec(sv[id as int].body[0]));
            let head = self.cells.canonical(snake.head());
            let ghost qb = queue@;
            queue.push_back(FloodElement {
                id: id as u8,
                pos: head,
                step: 0,
                health: FULL_HEALTH,
                length: length_u8(snake.len()),
                food_eaten: 0,
            });
            proof {
                lemma_walk_start(g0, init, sv[id as int].head(), head);
                assert(g0.idx(queue@[queue@.len() - 1].pos) == g0.idx(sv[id as int].head()));
                assert forall|t: int| 0 <= t < o + 1 implies pending(queue@, g0, #[trigger] sv[ordered_ids@[t] as int].head()) by {
                    if t < o {
                        let w = choose|w: int| 0 <= w < qb.len() && #[trigger] g0.idx(qb[w].pos) == g0.idx(sv[ordered_ids@[t] as int].head());
                        assert(queue@[w] == qb[w]);
                    } else {
                        assert(g0.idx(queue@[queue@.len() - 1].pos) == g0.idx(sv[ordered_ids@[t] as int].head()));
                    }
                }
            }
            proof {
                assert forall|w: int| 0 <= w < queue@.len() implies #[trigger] self.cells.cells@[g0.idx(queue@[w].pos)] is Snake by {
                    if w < qb.len() {
                        assert(queue@[w] == qb[w]);
                    } else {
                        g0.lemma_idx_bounds(sv[id as int].head());
                        assert(self.cells.cells@[g0.idx(sv[id as int].body[0])] is Snake);
                    }
                }
            }
            o = o + 1;
        }
        let ghost sg = st.grid;
        proof {
            assert forall|p: Coord| g0.in_range(p) && #[trigger] source(self.cells.cells@, g0, sv, p)
                implies closed_dirs(self.cells.cells@, g0, sg, p, 4) || pending(queue@, g0, p) by {
                g0.lemma_idx_bounds(p);
                let i = choose|i: int| 0 <= i < sv.len() && sv[i].alive() && #[trigger] g0.idx(sv[i].head()) == g0.idx(p);
                assert(ordered_ids@.contains(i as usize));
                let t = choose|t: int| 0 <= t < ordered_ids@.len() && ordered_ids@[t] == i as usize;
                assert(pending(queue@, g0, sv[ordered_ids@[t] as int].head()));
                let w = choose|w: int| 0 <= w < queue@.len() && #[trigger] g0.idx(queue@[w].pos) == g0.idx(sv[ordered_ids@[t] as int].head());
                assert(g0.idx(queue@[w].pos) == g0.idx(p));
            }
        }
        proof {
            assert(queue_cells_ok(self.cells.cells@, g0, queue@));
        }
        loop
            invariant
                st == self.state,
                sv == st.sv(),
                self.flood_wf(),
                self.state == old(self).state,
                queue_ok(queue@, self.cells, sv),
                same_dims(self.cells, g0),
                g0.wf(),
                queue_walks(queue@, g0, init, sv),
                owned_walks(self.cells.cells@, g0, init, sv),
                claims_respect(self.cells.cells@, init),
                draw_walks(self.cells.cells@, g0, init, sv, false),
                bodies_kept(self.cells.cells@, init),
                forall|j: int| 0 <= j < self.dead_ends@.len() && !(#[trigger] sv[j]).alive() ==> self.dead_ends@[j] == old(self).dead_ends@[j],
                forall|j: int| 0 <= j < self.dead_ends@.len() && #[trigger] self.dead_ends@[j] ==> old(self).dead_ends@[j],
                sg == st.grid,
                expanded(self.cells.cells@, g0, sg, sv, queue@),
                queue_cells_ok(self.cells.cells@, g0, queue@),
            ensures
                self.flood_wf(),
                self.state == old(self).state,
                same_dims(self.cells, g0),
                owned_walks(self.cells.cells@, g0, init, sv),
                claims_respect(self.cells.cells@, init),
                draw_walks(self.cells.cells@, g0, init, sv, false),
                bodies_kept(self.cells.cells@, init),
                forall|j: int| 0 <= j < self.dead_ends@.len() && !(#[trigger] sv[j]).alive() ==> self.dead_ends@[j] == old(self).dead_ends@[j],
                forall|j: int| 0 <= j < self.dead_ends@.len() && #[trigger] self.dead_ends@[j] ==> old(self).dead_ends@[j],
                expanded(self.cells.cells@, g0, sg, sv, queue@),
                queue@.len() == 0,
            decreases total_weight(self.cells.cells@) + queue@.len(),
        {
            let ghost measure = total_weight(self.cells.cells@) + queue@.len();
            let ghost q0 = queue@;
            let elem = match queue.pop_front() {
                Some(e) => e,
                std::option::Option::None => break,
            };
            assert(elem == q0[0]);
            assert(queue_ok(queue@, self.cells, sv));
            assert(elem.step < u32::MAX ==> walk(g0, init, sv[elem.id as int].head(), elem.pos, elem.step as int));
            proof {
                assert(match self.cells.cells@[g0.idx(q0[0].pos)] {
                    CellFlood::Owned { id, .. } => id == q0[0].id,
                    CellFlood::Free => false,
                    _ => true,
                });
                assert forall|w: int| 0 <= w < queue@.len() implies match #[trigger] self.cells.cells@[g0.idx(queue@[w].pos)] {
                    CellFlood::Owned { id, .. } => id == queue@[w].id,
                    CellFlood::Free => false,
                    _ => true,
                } by {
                    assert(queue@[w] == q0[w + 1]);
                }
                assert forall|p: Coord| g0.in_range(p) && #[trigger] source(self.cells.cells@, g0, sv, p) && p != elem.pos
                    implies closed_dirs(self.cells.cells@, g0, sg, p, 4) || pending(queue@, g0, p) by {
                    if !closed_dirs(self.cells.cells@, g0, sg, p, 4) {
                        let w = choose|w: int| 0 <= w < q0.len() && #[trigger] g0.idx(q0[w].pos) == g0.idx(p);
                        if w == 0 {
                            lemma_in_range_injective(g0, p, elem.pos);
                        } else {
                            assert(queue@[w - 1] == q0[w]);
                        }
                    }
                }
            }
            let here = *self.cells.get(elem.pos);
            if here == CellFlood::Draw {
                self.dead_ends[elem.id as usize] = false;
                proof {
                    assert forall|p: Coord| g0.in_range(p) && #[trigger] source(self.cells.cells@, g0, sv, p)
                        implies closed_dirs(self.cells.cells@, g0, sg, p, 4) || pending(queue@, g0, p) by {
                        if p == elem.pos {
                            assert(self.cells.cells@[g0.idx(p)] == CellFlood::Draw);
                        }
                    }
                }
                continue;
            }
            if let CellFlood::Owned { id, .. } = here {
                if id != elem.id {
                    self.dead_ends[elem.id as usize] = false;
                    continue;
                }
            }
            let ns = elem.get_neighbours();
            let mut d: usize = 0;
            while d < 4
                invariant
                    st == self.state,
                    sv == st.sv(),
                    self.flood_wf(),
                    self.state == old(self).state,
                    queue_ok(queue@, self.cells, sv),
                    same_dims(self.cells, g0),
                    g0.wf(),
                    queue_walks(queue@, g0, init, sv),
                    owned_walks(self.cells.cells@, g0, init, sv),
                claims_respect(self.cells.cells@, init),
                draw_walks(self.cells.cells@, g0, init, sv, false),
                bodies_kept(self.cells.cells@, init),
                forall|j: int| 0 <= j < self.dead_ends@.len() && !(#[trigger] sv[j]).alive() ==> self.dead_ends@[j] == old(self).dead_ends@[j],
                forall|j: int| 0 <= j < self.dead_ends@.len() && #[trigger] self.dead_ends@[j] ==> old(self).dead_ends@[j],
                    d <= 4,
                    elem.id < sv.len() && sv[elem.id as int].alive(),
                    self.cells.in_range(elem.pos),
                    forall|i: int| 0 <= i < 4 ==> (#[trigger] ns@[i]).id == elem.id && ns@[i].pos == step_spec(elem.pos, alive_actions()[i]),
                    total_weight(self.cells.cells@) + queue@.len() < measure,
                    elem.step < u32::MAX ==> walk(g0, init, sv[elem.id as int].head(), elem.pos, elem.step as int),
                    forall|i: int| 0 <= i < 4 ==> (#[trigger] ns@[i]).step == sat_inc(elem.step),
                    sg == st.grid,
                    closed_dirs(self.cells.cells@, g0, sg, elem.pos, d as int),
                    forall|p: Coord| g0.in_range(p) && #[trigger] source(self.cells.cells@, g0, sv, p) && p != elem.pos
                        ==> closed_dirs(self.cells.cells@, g0, sg, p, 4) || pending(queue@, g0, p),
                    queue_cells_ok(self.cells.cells@, g0, queue@),
                decreases 4 - d,
            {
                let mut nb = ns[d];
                let ghost dd = alive_actions()[d as int];
                let ghost cs_before = self.cells.cells@;
                let ghost q_before = queue@;
                assert(nb.pos == step_spec(elem.pos, dd) && dir_index(dd) < 4);
                if self.cells.wrapped {
                    self.cells.wrap_around(&mut nb.pos);
                    proof {
                        lemma_wrap_step(g0, elem.pos, dd, nb.pos);
                    }
                }
                if self.cells.contains(nb.pos) {
                    proof {
                        lemma_neighbour_walk(g0, init, sv[elem.id as int].head(), elem, nb, dd);
                    }
                    let cell = *self.cells.get(nb.pos);
                    let k = self.cells.index_of(nb.pos);
                    let ghost before_cells = self.cells.cells@;
                    match cell {
                        CellFlood::Free => {
                            let v = nb.to_cell(false);
                            self.cells.set(nb.pos, v);
                            proof { lemma_weight_update(before_cells, k as int, v); }
                            queue.push_back(nb);
                        },
                        CellFlood::Snake { .. } => {},
                        CellFlood::Owned { id, .. } => {
                            if id != elem.id {
                                self.dead_ends[elem.id as usize] = false;
                            }
                            if id != nb.id {
                                self.cells.set(nb.pos, CellFlood::Draw);
                                proof { lemma_weight_update(before_cells, k as int, CellFlood::Draw); }
                            }
                        },
                        CellFlood::Draw => {
                            self.dead_ends[elem.id as usize] = false;
                        },
                    }
                    assert forall|q: int| 0 <= q < self.cells.cells@.len() implies match #[trigger] self.cells.cells@[q] {
                        CellFlood::Owned { id, .. } => id < sv.len() && sv[id as int].alive(),
                        CellFlood::Snake { id, .. } => id < sv.len() && sv[id as int].alive(),
                        _ => true,
                    } by {
                        if q != k {
                            assert(self.cells.cells@[q] == before_cells[q]);
                        }
                    }
                    assert forall|q: int| 0 <= q < self.cells.cells@.len() implies match #[trigger] self.cells.cells@[q] {
                        CellFlood::Owned { id, step, .. } => step < u32::MAX ==> exists|c: Coord|
                            g0.in_range(c) && #[trigger] g0.idx(c) == q && walk(g0, init, sv[id as int].head(), c, step as int),
                        _ => true,
                    } by {
                        if q != k || self.cells.cells@[q] == before_cells[q] {
                            assert(self.cells.cells@[q] == before_cells[q]);
                        } else if self.cells.cells@[q] is Owned {
                            assert(g0.in_range(nb.pos) && g0.idx(nb.pos) == q);
                            assert(passable(init, q, nb.step as int));
                        }
                    }
                    assert forall|q: int| 0 <= q < self.cells.cells@.len() && (#[trigger] self.cells.cells@[q]) is Draw implies exists|i: int, j: int, si: int, sj: int|
                        0 <= i < sv.len() && 0 <= j < sv.len() && i != j && (false ==> si == sj) && #[trigger] reached(g0, init, sv, i, q, si)
                            && #[trigger] reached(g0, init, sv, j, q, sj) by {
                        if q != k || self.cells.cells@[q] == before_cells[q] {
                            assert(self.cells.cells@[q] == before_cells[q]);
                        } else {
                            let oid = before_cells[q]->Owned_id;
                            let ostep = before_cells[q]->Owned_step;
                            assert(g0.in_range(nb.pos) && g0.idx(nb.pos) == q);
                            assert(reached(g0, init, sv, oid as int, q, ostep as int));
                            assert(passable(init, q, nb.step as int));
                            assert(reached(g0, init, sv, nb.id as int, q, nb.step as int));
                        }
                    }
                    assert forall|q: int| 0 <= q < self.cells.cells@.len() implies match #[trigger] self.cells.cells@[q] {
                        CellFlood::Owned { step, .. } => passable(init, q, step as int),
                        _ => true,
                    } by {
                        if q != k || self.cells.cells@[q] == before_cells[q] {
                            assert(self.cells.cells@[q] == before_cells[q]);
                        }
                    }
                    assert forall|q: int| 0 <= q < self.cells.cells@.len() && (#[trigger] init[q]) is Snake implies !(self.cells.cells@[q] is Free) by {
                        if q != k {
                            assert(self.cells.cells@[q] == before_cells[q]);
                        }
                    }
                    assert forall|q: int| 0 <= q < self.cells.cells@.len() && (#[trigger] init[q]) is Snake implies self.cells.cells@[q] == init[q] by {
                        if q != k {
                            assert(self.cells.cells@[q] == before_cells[q]);
                        }
                    }
                    assert forall|q: int| 0 <= q < self.cells.cells@.len() && (#[trigger] self.cells.cells@[q]) is Snake implies self.cells.cells@[q] == init[q] by {
                        if q != k || self.cells.cells@[q] == before_cells[q] {
                            assert(self.cells.cells@[q] == before_cells[q]);
                        }
                    }
                }
                proof {
                    assert forall|w: int| 0 <= w < queue@.len() implies match #[trigger] self.cells.cells@[g0.idx(queue@[w].pos)] {
                        CellFlood::Owned { id, .. } => id == queue@[w].id,
                        CellFlood::Free => false,
                        _ => true,
                    } by {
                        if w < q_before.len() {
                            assert(queue@[w] == q_before[w]);
                            g0.lemma_idx_bounds(q_before[w].pos);
                            assert(match cs_before[g0.idx(q_before[w].pos)] {
                                CellFlood::Owned { id, .. } => id == q_before[w].id,
                                CellFlood::Free => false,
                                _ => true,
                            });
                        }
                    }
                }
                proof {
                    assert forall|k: int| 0 <= k < cs_before.len() && !(cs_before[k] is Free) implies !(#[trigger] self.cells.cells@[k] is Free) by {}
                    let sp = step_spec(elem.pos, dd);
                    assert(g0.idx(nb.pos) == g0.idx(sp));
                    lemma_closed_mono(cs_before, self.cells.cells@, g0, sg, elem.pos, d as int);
                    assert forall|j: int|
                        0 <= j < d + 1 && g0.contains_spec(#[trigger] step_spec(elem.pos, alive_actions()[j])) && !(sg.at(
                            step_spec(elem.pos, alive_actions()[j]),
                        ).cell is Snake) implies !(self.cells.cells@[g0.idx(step_spec(elem.pos, alive_actions()[j]))] is Free) by {
                        if j == d {
                            g0.lemma_idx_bounds(sp);
                        }
                    }
                    assert forall|p: Coord| g0.in_range(p) && #[trigger] source(self.cells.cells@, g0, sv, p) && p != elem.pos
                        implies closed_dirs(self.cells.cells@, g0, sg, p, 4) || pending(queue@, g0, p) by {
                        g0.lemma_idx_bounds(p);
                        if source(cs_before, g0, sv, p) {
                            if closed_dirs(cs_before, g0, sg, p, 4) {
                                lemma_closed_mono(cs_before, self.cells.cells@, g0, sg, p, 4);
                            } else {
                                let w = choose|w: int| 0 <= w < q_before.len() && #[trigger] g0.idx(q_before[w].pos) == g0.idx(p);
                                assert(queue@[w] == q_before[w]);
                            }
                        } else {
                            assert(g0.idx(queue@[queue@.len() - 1].pos) == g0.idx(p));
                        }
                    }
                }
                d = d + 1;
            }
            proof {
                assert forall|p: Coord| g0.in_range(p) && #[trigger] source(self.cells.cells@, g0, sv, p)
                    implies closed_dirs(self.cells.cells@, g0, sg, p, 4) || pending(queue@, g0, p) by {}
            }
        }
        proof {
            lemma_owned_walks_dims(self.cells.cells@, g0, self.cells, init, sv);
            assert forall|p: Coord| g0.in_range(p) && #[trigger] source(self.cells.cells@, g0, sv, p)
                implies closed_dirs(self.cells.cells@, g0, sg, p, 4) by {}
        }
    }
}


/// Cell `c` is claimed by snake `id`, from a vacated body segment or not.
pub open spec fn owned_as(c: CellFlood, id: u8, was: bool) -> bool {
    match c {
        CellFlood::Owned { id: i, was_snake, .. } => i == id && was_snake == was,
        _ => false,
    }
}

/// Cells among the first `n` claimed by snake `id` with the given `was_snake`.
pub open spec fn count_owned_as(cs: Seq<CellFlood>, n: int, id: u8, was: bool) -> nat
    decreases n,
{
    if n <= 0 {
        0
    } else {
        count_owned_as(cs, n - 1, id, was) + if owned_as(cs[n - 1], id, was) { 1nat } else { 0nat }
    }
}

/// Cell `c` is claimed by snake 0 (`ours`) or by another snake (`!ours`).
pub open spec fn owned_side(c: CellFlood, ours: bool, was: bool) -> bool {
    match c {
        CellFlood::Owned { id, was_snake, .. } => (id == 0) == ours && was_snake == was,
        _ => false,
    }
}

pub open spec fn count_side(cs: Seq<CellFlood>, n: int, ours: bool, was: bool) -> nat
    decreases n,
{
    if n <= 0 {
        0
    } else {
        count_side(cs, n - 1, ours, was) + if owned_side(cs[n - 1], ours, was) { 1nat } else { 0nat }
    }
}

/// Cells among the first `n` claimed by snake `id`.
pub open spec fn count_id(cs: Seq<CellFlood>, n: int, id: int) -> nat
    decreases n,
{
    if n <= 0 {
        0
    } else {
        count_id(cs, n - 1, id) + match cs[n - 1] {
            CellFlood::Owned { id: i, .. } => if i == id { 1nat } else { 0nat },
            _ => 0nat,
        }
    }
}

/// Cells among the first `n` claimed by snake `id` with the given
/// `was_snake`, on a cell of the board with (`haz`) or without hazard.
pub open spec fn count_royale(cs: Seq<CellFlood>, gs: Seq<CellGame>, n: int, id: u8, was: bool, haz: bool) -> nat
    decreases n,
{
    if n <= 0 {
        0
    } else {
        count_royale(cs, gs, n - 1, id, was, haz) + if owned_as(cs[n - 1], id, was) && (gs[n - 1].hazard > 0) == haz {
            1nat
        } else {
            0nat
        }
    }
}

impl<'a> Floodfill<'a> {
    /// For our snake (id 0) and all others together: cells claimed free, and
    /// cells claimed from vacated body segments.
    pub fn count_duels(&self) -> (r: (usize, usize, usize, usize))
        ensures
            r.0 == count_side(self.cells.cells@, self.cells.cells@.len() as int, true, false),
            r.1 == count_side(self.cells.cells@, self.cells.cells@.len() as int, true, true),
            r.2 == count_side(self.cells.cells@, self.cells.cells@.len() as int, false, false),
            r.3 == count_side(self.cells.cells@, self.cells.cells@.len() as int, false, true),
    {
        let ghost cs = self.cells.cells@;
        let mut our_cells: usize = 0;
        let mut our_s_cells: usize = 0;
        let mut e_cells: usize = 0;
        let mut e_s_cells: usize = 0;
        let mut i: usize = 0;
        while i < self.cells.cells.len()
            invariant
                cs == self.cells.cells@,
                i <= cs.len(),
                our_cells == count_side(cs, i as int, true, false),
                our_s_cells == count_side(cs, i as int, true, true),
                e_cells == count_side(cs, i as int, false, false),
                e_s_cells == count_side(cs, i as int, false, true),
                our_cells + our_s_cells + e_cells + e_s_cells <= i,
            decreases cs.len() - i,
        {
            if let CellFlood::Owned { id, was_snake, .. } = self.cells.cells[i] {
                if id == 0 {
                    if was_snake {
                        our_s_cells = our_s_cells + 1;
                    } else {
                        our_cells = our_cells + 1;
                    }
                } else if was_snake {
                    e_s_cells = e_s_cells + 1;
                } else {
                    e_cells = e_cells + 1;
                }
            }
            i = i + 1;
        }
        (our_cells, our_s_cells, e_cells, e_s_cells)
    }

    /// Cells claimed by snake `snake_id`: free ones, and vacated body segments.
    pub fn count_owned(&self, snake_id: u8) -> (r: (usize, usize))
        ensures
            r.0 == count_owned_as(self.cells.cells@, self.cells.cells@.len() as int, snake_id, false),
            r.1 == count_owned_as(self.cells.cells@, self.cells.cells@.len() as int, snake_id, true),
    {
        let ghost cs = self.cells.cells@;
        let mut owned: usize = 0;
        let mut owned_snake: usize = 0;
        let mut i: usize = 0;
        while i < self.cells.cells.len()
            invariant
                cs == self.cells.cells@,
                i <= cs.len(),
                owned == count_owned_as(cs, i as int, snake_id, false),
                owned_snake == count_owned_as(cs, i as int, snake_id, true),
                owned + owned_snake <= i,
            decreases cs.len() - i,
        {
            if let CellFlood::Owned { id, was_snake, .. } = self.cells.cells[i] {
                if id == snake_id {
                    if was_snake {
                        owned_snake = owned_snake + 1;
                    } else {
                        owned = owned + 1;
                    }
                }
            }
            i = i + 1;
        }
        (owned, owned_snake)
    }

    /// The number of cells each snake claimed, by snake index.
    pub fn count_owned_all(&self) -> (r: Vec<i32>)
        requires
            self.flood_wf(),
            self.cells.cells@.len() <= i32::MAX,
        ensures
            r@.len() == self.state.snakes@.len(),
            forall|id: int| 0 <= id < r@.len() ==> #[trigger] r@[id] == count_id(self.cells.cells@, self.cells.cells@.len() as int, id),
    {
        let ghost cs = self.cells.cells@;
        let n = self.state.snakes.len();
        let mut owned: Vec<i32> = Vec::new();
        let mut j: usize = 0;
        while j < n
            invariant
                j <= n,
                owned@.len() == j,
                forall|id: int| 0 <= id < j ==> #[trigger] owned@[id] == 0,
            decreases n - j,
        {
            owned.push(0);
            j = j + 1;
        }
        let mut i: usize = 0;
        while i < self.cells.cells.len()
            invariant
                cs == self.cells.cells@,
                self.flood_wf(),
                n == self.state.snakes@.len(),
                cs.len() <= i32::MAX,
                i <= cs.len(),
                owned@.len() == n,
                forall|id: int| 0 <= id < n ==> #[trigger] owned@[id] == count_id(cs, i as int, id),
                forall|id: int| 0 <= id < n ==> count_id(cs, i as int, id) <= i,
            decreases cs.len() - i,
        {
            if let CellFlood::Owned { id, .. } = self.cells.cells[i] {
                assert(id < self.state.sv().len());
                let v = owned[id as usize];
                owned[id as usize] = v + 1;
            }
            i = i + 1;
            assert forall|id: int| 0 <= id < n implies count_id(cs, i as int, id) <= i by {
                assert(count_id(cs, i - 1, id) <= i - 1);
            }
        }
        owned
    }

    /// Cells claimed by snake `snake_id`, split four ways: free or vacated
    /// segment, and with or without hazard on the board.
    pub fn count_owned_royale(&self, snake_id: u8) -> (r: (usize, usize, usize, usize))
        requires
            self.flood_wf(),
        ensures
            r.0 == count_royale(self.cells.cells@, self.state.grid.cells@, self.cells.cells@.len() as int, snake_id, false, false),
            r.1 == count_royale(self.cells.cells@, self.state.grid.cells@, self.cells.cells@.len() as int, snake_id, false, true),
            r.2 == count_royale(self.cells.cells@, self.state.grid.cells@, self.cells.cells@.len() as int, snake_id, true, false),
            r.3 == count_royale(self.cells.cells@, self.state.grid.cells@, self.cells.cells@.len() as int, snake_id, true, true),
    {
        let ghost cs = self.cells.cells@;
        let ghost gs = self.state.grid.cells@;
        assert(gs.len() == cs.len());
        let mut owned: usize = 0;
        let mut owned_hazards: usize = 0;
        let mut owned_snakes: usize = 0;
        let mut owned_snake_hazards: usize = 0;
        let mut i: usize = 0;
        while i < self.cells.cells.len()
            invariant
                cs == self.cells.cells@,
                gs == self.state.grid.cells@,
                gs.len() == cs.len(),
                i <= cs.len(),
                owned == count_royale(cs, gs, i as int, snake_id, false, false),
                owned_hazards == count_royale(cs, gs, i as int, snake_id, false, true),
                owned_snakes == count_royale(cs, gs, i as int, snake_id, true, false),
                owned_snake_hazards == count_royale(cs, gs, i as int, snake_id, true, true),
                owned + owned_hazards + owned_snakes + owned_snake_hazards <= i,
            decreases cs.len() - i,
        {
            if let CellFlood::Owned { id, was_snake, .. } = self.cells.cells[i] {
                if id == snake_id {
                    let hz = self.state.grid.cells[i].hazard > 0;
                    if was_snake {
                        if hz {
                            owned_snake_hazards = owned_snake_hazards + 1;
                        } else {
                            owned_snakes = owned_snakes + 1;
                        }
                    } else if hz {
                        owned_hazards = owned_hazards + 1;
                    } else {
                        owned = owned + 1;
                    }
                }
            }
            i = i + 1;
        }
        (owned, owned_hazards, owned_snakes, owned_snake_hazards)
    }
}

} // verus!
