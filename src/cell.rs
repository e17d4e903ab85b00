//! The cells of the game board and how the board is built from the snakes,
//! the food and the hazards.

use vstd::prelude::*;
use crate::game::Coord;
use crate::grid::{Blank, Grid};
use crate::snake::{Snake, SnakeView};

verus! {

/// What occupies a board cell. `Tail` marks a snake's last segment that
/// moves away next turn, so it can be entered; `Snake` cannot.
#[derive(Debug, PartialEq, Eq, Structural, Clone, Copy)]
pub enum CellType {
    Free,
    Food,
    Snake(u8),
    Tail(u8),
}

/// A board cell: its occupant and the number of hazards stacked on it.
#[derive(Debug, PartialEq, Eq, Structural, Clone, Copy)]
pub struct CellGame {
    pub cell: CellType,
    pub hazard: u8,
}

impl Default for CellGame {
    fn default() -> (r: CellGame)
        ensures
            r == (CellGame { cell: CellType::Free, hazard: 0 }),
    {
        CellGame { cell: CellType::Free, hazard: 0 }
    }
}

impl Blank for CellGame {
    open spec fn blank_spec() -> CellGame {
        CellGame { cell: CellType::Free, hazard: 0 }
    }

    fn blank() -> (r: CellGame) {
        CellGame { cell: CellType::Free, hazard: 0 }
    }
}

impl CellGame {
    pub fn new(cell: CellType) -> (r: CellGame)
        ensures
            r == (CellGame { cell, hazard: 0 }),
    {
        CellGame { cell, hazard: 0 }
    }
}

pub open spec fn views(s: Seq<Snake>) -> Seq<SnakeView> {
    s.map_values(|x: Snake| x@)
}

/// Every segment of every living snake lies on the board.
pub open spec fn snakes_on_board<T>(g: Grid<T>, snakes: Seq<SnakeView>) -> bool {
    forall|i: int, p: int|
        0 <= i < snakes.len() && snakes[i].alive() && 0 <= p < snakes[i].body.len()
            ==> g.contains_spec(#[trigger] snakes[i].body[p])
}

pub open spec fn coords_on_board<T>(g: Grid<T>, cs: Seq<Coord>) -> bool {
    forall|j: int| 0 <= j < cs.len() ==> g.contains_spec(#[trigger] cs[j])
}

/// Some segment other than the last of snake `s` lies on cell `k`.
pub open spec fn covers_body<T>(g: Grid<T>, s: SnakeView, k: int) -> bool {
    exists|p: int| 0 <= p < s.body.len() - 1 && #[trigger] g.idx(s.body[p]) == k
}

/// The mark that living snake number `i` leaves on cell `k`, if any: its
/// moving tail as `Tail`, its other segments as `Snake`.
pub open spec fn snake_mark<T>(g: Grid<T>, s: SnakeView, i: int, k: int) -> Option<CellType> {
    if !s.alive() {
        Option::None
    } else if s.tail_moves() && g.idx(s.tail()) == k {
        Option::Some(CellType::Tail(i as u8))
    } else if covers_body(g, s, k) {
        Option::Some(CellType::Snake(i as u8))
    } else {
        Option::None
    }
}

/// The mark on cell `k` left by the first `n` snakes; a later snake's mark
/// covers an earlier one's.
pub open spec fn marks<T>(g: Grid<T>, snakes: Seq<SnakeView>, n: int, k: int) -> Option<CellType>
    decreases n,
{
    if n <= 0 {
        Option::None
    } else {
        match snake_mark(g, snakes[n - 1], n - 1, k) {
            Option::Some(c) => Option::Some(c),
            Option::None => marks(g, snakes, n - 1, k),
        }
    }
}

pub open spec fn food_on<T>(g: Grid<T>, food: Seq<Coord>, k: int) -> bool {
    exists|f: int| 0 <= f < food.len() && #[trigger] g.idx(food[f]) == k
}

/// How many of the hazards that lie on the board fall on cell `k`.
pub open spec fn hazard_count<T>(g: Grid<T>, hz: Seq<Coord>, k: int) -> nat
    decreases hz.len(),
{
    if hz.len() == 0 {
        0
    } else {
        hazard_count(g, hz.drop_last(), k) + if g.contains_spec(hz.last()) && g.idx(hz.last())
            == k {
            1nat
        } else {
            0nat
        }
    }
}

/// Cell `k` after the snakes' marks are written over `g`.
pub open spec fn marked_cell(g: Grid<CellGame>, snakes: Seq<SnakeView>, n: int, k: int) -> CellGame {
    match marks(g, snakes, n, k) {
        Option::Some(c) => CellGame { cell: c, hazard: 0 },
        Option::None => g.cells@[k],
    }
}

/// Cell `k` once snakes and food are written over `g`, before hazards are
/// added: food covers snakes, and each written cell starts without hazard.
pub open spec fn filled_base(
    g: Grid<CellGame>,
    snakes: Seq<SnakeView>,
    food: Seq<Coord>,
    k: int,
) -> CellGame {
    if food_on(g, food, k) {
        CellGame { cell: CellType::Food, hazard: 0 }
    } else {
        marked_cell(g, snakes, snakes.len() as int, k)
    }
}

/// The board `g` after `fill`: each cell's occupant, and its hazard count
/// raised by the hazards on it.
pub open spec fn is_filled(
    r: Grid<CellGame>,
    g: Grid<CellGame>,
    snakes: Seq<SnakeView>,
    food: Seq<Coord>,
    hazards: Seq<Coord>,
) -> bool {
    &&& r.width == g.width
    &&& r.height == g.height
    &&& r.wrapped == g.wrapped
    &&& r.cells@.len() == g.cells@.len()
    &&& forall|k: int|
        0 <= k < r.cells@.len() ==> (#[trigger] r.cells@[k]).cell == filled_base(
            g,
            snakes,
            food,
            k,
        ).cell && r.cells@[k].hazard == filled_base(g, snakes, food, k).hazard + hazard_count(
            g,
            hazards,
            k,
        )
}

/// Cell `k` of a board built from scratch with the same marks as `fill`
/// writes, before hazards are added.
pub open spec fn fresh_base(
    r: Grid<CellGame>,
    snakes: Seq<SnakeView>,
    food: Seq<Coord>,
    k: int,
) -> CellGame {
    if food_on(r, food, k) {
        CellGame { cell: CellType::Food, hazard: 0 }
    } else {
        match marks(r, snakes, snakes.len() as int, k) {
            Option::Some(c) => CellGame { cell: c, hazard: 0 },
            Option::None => CellGame::blank_spec(),
        }
    }
}

/// `r` is the board that filling a blank board of its size yields.
pub open spec fn built(
    r: Grid<CellGame>,
    snakes: Seq<SnakeView>,
    food: Seq<Coord>,
    hazards: Seq<Coord>,
) -> bool {
    forall|k: int|
        0 <= k < r.cells@.len() ==> (#[trigger] r.cells@[k]).cell == fresh_base(r, snakes, food, k).cell
            && r.cells@[k].hazard == hazard_count(r, hazards, k)
}

pub open spec fn same_dims<A, B>(a: Grid<A>, b: Grid<B>) -> bool {
    a.width == b.width && a.height == b.height && a.wrapped == b.wrapped
}

pub proof fn lemma_marks_dims<A, B>(a: Grid<A>, b: Grid<B>, ss: Seq<SnakeView>, n: int, k: int)
    requires
        same_dims(a, b),
    ensures
        marks(a, ss, n, k) == marks(b, ss, n, k),
    decreases n,
{
    if n > 0 {
        lemma_marks_dims(a, b, ss, n - 1, k);
        let s = ss[n - 1];
        if covers_body(a, s, k) {
            let p = choose|p: int| 0 <= p < s.body.len() - 1 && #[trigger] a.idx(s.body[p]) == k;
            assert(b.idx(s.body[p]) == k);
        }
        if covers_body(b, s, k) {
            let p = choose|p: int| 0 <= p < s.body.len() - 1 && #[trigger] b.idx(s.body[p]) == k;
            assert(a.idx(s.body[p]) == k);
        }
    }
}

pub proof fn lemma_food_dims<A, B>(a: Grid<A>, b: Grid<B>, food: Seq<Coord>, k: int)
    requires
        same_dims(a, b),
    ensures
        food_on(a, food, k) == food_on(b, food, k),
{
    if food_on(a, food, k) {
        let f = choose|f: int| 0 <= f < food.len() && #[trigger] a.idx(food[f]) == k;
        assert(b.idx(food[f]) == k);
    }
    if food_on(b, food, k) {
        let f = choose|f: int| 0 <= f < food.len() && #[trigger] b.idx(food[f]) == k;
        assert(a.idx(food[f]) == k);
    }
}

pub proof fn lemma_hazard_dims<A, B>(a: Grid<A>, b: Grid<B>, hz: Seq<Coord>, k: int)
    requires
        same_dims(a, b),
    ensures
        hazard_count(a, hz, k) == hazard_count(b, hz, k),
    decreases hz.len(),
{
    if hz.len() > 0 {
        lemma_hazard_dims(a, b, hz.drop_last(), k);
    }
}

/// Filling a blank board builds it from scratch.
pub proof fn lemma_fill_blank(
    r: Grid<CellGame>,
    g: Grid<CellGame>,
    snakes: Seq<SnakeView>,
    food: Seq<Coord>,
    hazards: Seq<Coord>,
)
    requires
        is_filled(r, g, snakes, food, hazards),
        forall|k: int| 0 <= k < g.cells@.len() ==> g.cells@[k] == CellGame::blank_spec(),
    ensures
        built(r, snakes, food, hazards),
{
    assert forall|k: int| 0 <= k < r.cells@.len() implies (#[trigger] r.cells@[k]).cell == fresh_base(
        r,
        snakes,
        food,
        k,
    ).cell && r.cells@[k].hazard == hazard_count(r, hazards, k) by {
        lemma_marks_dims(r, g, snakes, snakes.len() as int, k);
        lemma_food_dims(r, g, food, k);
        lemma_hazard_dims(r, g, hazards, k);
    }
}

pub proof fn lemma_hazard_count_prefix<T>(g: Grid<T>, hz: Seq<Coord>, j: int, k: int)
    requires
        0 <= j <= hz.len(),
    ensures
        hazard_count(g, hz.subrange(0, j), k) <= hazard_count(g, hz, k),
    decreases hz.len(),
{
    if j < hz.len() {
        assert(hz.drop_last().subrange(0, j) =~= hz.subrange(0, j));
        lemma_hazard_count_prefix(g, hz.drop_last(), j, k);
    } else {
        assert(hz.subrange(0, j) =~= hz);
    }
}

impl Grid<CellGame> {
    /// Marks the living snakes' segments, then the food, then adds the hazards
    /// that lie on the board.
    pub fn fill(&mut self, snakes: &[Snake], food: &[Coord], hazards: &[Coord])
        requires
            old(self).wf(),
            snakes@.len() <= 256,
            forall|i: int| 0 <= i < snakes@.len() ==> (#[trigger] snakes@[i]).body@.len() >= 1,
            snakes_on_board(*old(self), views(snakes@)),
            coords_on_board(*old(self), food@),
            forall|k: int|
                0 <= k < old(self).cells@.len() ==> old(self).cells@[k].hazard + hazard_count(
                    *old(self),
                    hazards@,
                    k,
                ) <= u8::MAX,
        ensures
            final(self).wf(),
            is_filled(*final(self), *old(self), views(snakes@), food@, hazards@),
    {
        let ghost g = *old(self);
        let ghost sv = views(snakes@);
        let n = snakes.len();
        assert(sv.len() == n);
        let mut i: usize = 0;
        while i < n
            invariant
                g == *old(self),
                sv == views(snakes@),
                n == snakes@.len(),
                sv.len() == n,
                n <= 256,
                i <= n,
                self.wf(),
                self.width == g.width && self.height == g.height && self.wrapped == g.wrapped,
                g.wf(),
                self.cells@.len() == g.cells@.len(),
                forall|j: int| 0 <= j < snakes@.len() ==> (#[trigger] snakes@[j]).body@.len() >= 1,
                snakes_on_board(g, sv),
                forall|k: int|
                    0 <= k < self.cells@.len() ==> #[trigger] self.cells@[k] == marked_cell(
                        g,
                        sv,
                        i as int,
                        k,
                    ),
            decreases n - i,
        {
            let snake = &snakes[i];
            let ghost s = sv[i as int];
            assert(s == snake@);
            if snake.is_alive() {
                let last = snake.body.len() - 1;
                let mut p: usize = 0;
                while p < last
                    invariant
                        g == *old(self),
                        sv == views(snakes@),
                        sv.len() == n,
                        s == sv[i as int],
                        s == snake@,
                        s.alive(),
                        i < n,
                        n <= 256,
                        last == s.body.len() - 1,
                        p <= last,
                        self.wf(),
                        self.width == g.width && self.height == g.height && self.wrapped
                            == g.wrapped,
                        g.wf(),
                        self.cells@.len() == g.cells@.len(),
                        snakes_on_board(g, sv),
                        forall|k: int|
                            0 <= k < self.cells@.len() ==> #[trigger] self.cells@[k] == if exists|
                                q: int,
                            |
                                0 <= q < p && #[trigger] g.idx(s.body[q]) == k {
                                CellGame { cell: CellType::Snake(i as u8), hazard: 0 }
                            } else {
                                marked_cell(g, sv, i as int, k)
                            },
                    decreases last - p,
                {
                    let pos = snake.body[p];
                    assert(g.contains_spec(sv[i as int].body[p as int]));
                    self.set(pos, CellGame::new(CellType::Snake(i as u8)));
                    p = p + 1;
                    assert forall|k: int| 0 <= k < self.cells@.len() implies
                    #[trigger] self.cells@[k] == if exists|q: int|
                        0 <= q < p && #[trigger] g.idx(s.body[q]) == k {
                        CellGame { cell: CellType::Snake(i as u8), hazard: 0 }
                    } else {
                        marked_cell(g, sv, i as int, k)
                    } by {
                        if g.idx(s.body[p - 1]) == k {
                            assert(0 <= p - 1 < p && g.idx(s.body[p - 1]) == k);
                        } else {
                            if exists|q: int| 0 <= q < p && #[trigger] g.idx(s.body[q]) == k {
                                let q = choose|q: int| 0 <= q < p && #[trigger] g.idx(s.body[q]) == k;
                                assert(q < p - 1);
                            }
                        }
                    }
                }
                let t = *snake.tail();
                let moves = snake.len() == 1 || t != snake.body[snake.body.len() - 2];
                if moves {
                    assert(g.contains_spec(sv[i as int].body[last as int]));
                    self.set(t, CellGame::new(CellType::Tail(i as u8)));
                }
                assert forall|k: int| 0 <= k < self.cells@.len() implies
                #[trigger] self.cells@[k] == marked_cell(g, sv, i + 1, k) by {
                    assert(sv[(i + 1) - 1] == s);
                    assert(s.tail_moves() == moves);
                    assert(s.tail() == t);
                    if moves && g.idx(t) == k {
                        assert(snake_mark(g, s, i as int, k) == Option::Some(CellType::Tail(i as u8)));
                    } else if covers_body(g, s, k) {
                        let q = choose|q: int| 0 <= q < s.body.len() - 1 && #[trigger] g.idx(s.body[q]) == k;
                        assert(0 <= q < last && g.idx(s.body[q]) == k);
                    }
                }
            } else {
                assert forall|k: int| 0 <= k < self.cells@.len() implies
                #[trigger] self.cells@[k] == marked_cell(g, sv, i + 1, k) by {
                    assert(sv[(i + 1) - 1] == s);
                }
            }
            i = i + 1;
        }
        let mut f: usize = 0;
        while f < food.len()
            invariant
                g == *old(self),
                sv == views(snakes@),
                f <= food@.len(),
                self.wf(),
                self.width == g.width && self.height == g.height && self.wrapped == g.wrapped,
                g.wf(),
                self.cells@.len() == g.cells@.len(),
                coords_on_board(g, food@),
                forall|k: int|
                    0 <= k < self.cells@.len() ==> #[trigger] self.cells@[k] == if exists|
                        q: int,
                    |
                        0 <= q < f && #[trigger] g.idx(food@[q]) == k {
                        CellGame { cell: CellType::Food, hazard: 0 }
                    } else {
                        marked_cell(g, sv, sv.len() as int, k)
                    },
            decreases food@.len() - f,
        {
            let pos = food[f];
            assert(g.contains_spec(food@[f as int]));
            self.set(pos, CellGame::new(CellType::Food));
            f = f + 1;
            assert forall|k: int| 0 <= k < self.cells@.len() implies
            #[trigger] self.cells@[k] == if exists|q: int|
                0 <= q < f && #[trigger] g.idx(food@[q]) == k {
                CellGame { cell: CellType::Food, hazard: 0 }
            } else {
                marked_cell(g, sv, sv.len() as int, k)
            } by {
                if g.idx(food@[f - 1]) == k {
                    assert(0 <= f - 1 < f && g.idx(food@[f - 1]) == k);
                } else {
                    if exists|q: int| 0 <= q < f && #[trigger] g.idx(food@[q]) == k {
                        let q = choose|q: int| 0 <= q < f && #[trigger] g.idx(food@[q]) == k;
                        assert(q < f - 1);
                    }
                }
            }
        }
        assert(food@.subrange(0, food@.len() as int) =~= food@);
        let mut j: usize = 0;
        while j < hazards.len()
            invariant
                g == *old(self),
                sv == views(snakes@),
                j <= hazards@.len(),
                self.wf(),
                self.width == g.width && self.height == g.height && self.wrapped == g.wrapped,
                g.wf(),
                self.cells@.len() == g.cells@.len(),
                forall|k: int|
                    0 <= k < g.cells@.len() ==> g.cells@[k].hazard + hazard_count(g, hazards@, k)
                        <= u8::MAX,
                forall|k: int|
                    0 <= k < self.cells@.len() ==> (#[trigger] self.cells@[k]).cell == filled_base(
                        g,
                        sv,
                        food@,
                        k,
                    ).cell && self.cells@[k].hazard == filled_base(g, sv, food@, k).hazard + hazard_count(
                        g,
                        hazards@.subrange(0, j as int),
                        k,
                    ),
            decreases hazards@.len() - j,
        {
            let pos = hazards[j];
            let ghost pre = hazards@.subrange(0, j as int);
            let ghost post = hazards@.subrange(0, j + 1);
            assert(post.drop_last() =~= pre);
            assert(post.last() == pos);
            if self.contains(pos) {
                let ghost k0 = g.idx(pos);
                proof {
                    g.lemma_idx_bounds(pos);
                    lemma_hazard_count_prefix(g, hazards@, j + 1, k0);
                }
                let i = self.index_of(pos);
                let mut c = self.cells[i];
                c.hazard = c.hazard + 1;
                self.cells[i] = c;
            }
            j = j + 1;
        }
        assert(hazards@.subrange(0, hazards@.len() as int) =~= hazards@);
    }

    pub fn is_food(&self, pos: Coord) -> (r: bool)
        requires
            self.wf(),
            self.contains_spec(pos),
        ensures
            r == (self.at(pos).cell == CellType::Food),
    {
        self.get(pos).cell == CellType::Food
    }

    /// Whether a snake segment other than a moving tail is on the cell.
    pub fn is_snake(&self, pos: Coord) -> (r: bool)
        requires
            self.wf(),
            self.contains_spec(pos),
        ensures
            r == (self.at(pos).cell is Snake),
    {
        match self.get(pos).cell {
            CellType::Snake(_) => true,
            _ => false,
        }
    }

    pub fn is_hazard(&self, pos: Coord) -> (r: bool)
        requires
            self.wf(),
            self.contains_spec(pos),
        ensures
            r == (self.at(pos).hazard > 0),
    {
        self.get(pos).hazard > 0
    }

    /// On the board and not blocked by a snake (a moving tail does not block).
    pub fn is_valid_pos(&self, pos: Coord) -> (r: bool)
        requires
            self.wf(),
        ensures
            r == (self.contains_spec(pos) && !(self.at(pos).cell is Snake)),
    {
        self.contains(pos) && !self.is_snake(pos)
    }
}


/// The snakes only ever mark a cell as `Snake` or `Tail`.
pub proof fn lemma_marks_kind<T>(g: Grid<T>, ss: Seq<SnakeView>, n: int, k: int)
    ensures
        marks(g, ss, n, k) matches Option::Some(c) ==> (c is Snake || c is Tail),
    decreases n,
{
    if n > 0 {
        lemma_marks_kind(g, ss, n - 1, k);
    }
}

/// Some living snake has a segment on cell `k`.
pub open spec fn body_on(g: Grid<CellGame>, snakes: Seq<SnakeView>, k: int) -> bool {
    exists|i: int, p: int|
        0 <= i < snakes.len() && snakes[i].alive() && 0 <= p < snakes[i].body.len() && #[trigger] g.idx(
            snakes[i].body[p],
        ) == k
}

/// No two living snakes share a cell, and no food lies under a snake.
pub open spec fn apart(g: Grid<CellGame>, snakes: Seq<SnakeView>, food: Seq<Coord>) -> bool {
    &&& forall|i: int, j: int, p: int, q: int|
        0 <= i < snakes.len() && 0 <= j < snakes.len() && i != j && snakes[i].alive() && snakes[j].alive()
            && 0 <= p < snakes[i].body.len() && 0 <= q < snakes[j].body.len() ==> g.idx(
            #[trigger] snakes[i].body[p],
        ) != g.idx(#[trigger] snakes[j].body[q])
    &&& forall|f: int, i: int, p: int|
        0 <= f < food.len() && 0 <= i < snakes.len() && snakes[i].alive() && 0 <= p < snakes[i].body.len()
            ==> g.idx(#[trigger] food[f]) != g.idx(#[trigger] snakes[i].body[p])
}

proof fn lemma_marks_none(g: Grid<CellGame>, ss: Seq<SnakeView>, n: int, k: int)
    requires
        n <= ss.len(),
        forall|j: int| 0 <= j < n ==> #[trigger] snake_mark(g, ss[j], j, k) == Option::<CellType>::None,
    ensures
        marks(g, ss, n, k) == Option::<CellType>::None,
    decreases n,
{
    if n > 0 {
        assert(snake_mark(g, ss[n - 1], n - 1, k) == Option::<CellType>::None);
        lemma_marks_none(g, ss, n - 1, k);
    }
}

proof fn lemma_marks_last(g: Grid<CellGame>, ss: Seq<SnakeView>, n: int, i: int, k: int)
    requires
        0 <= i < n <= ss.len(),
        snake_mark(g, ss[i], i, k) is Some,
        forall|j: int| i < j < n ==> #[trigger] snake_mark(g, ss[j], j, k) == Option::<CellType>::None,
    ensures
        marks(g, ss, n, k) == snake_mark(g, ss[i], i, k),
    decreases n,
{
    if n - 1 > i {
        assert(snake_mark(g, ss[n - 1], n - 1, k) == Option::<CellType>::None);
        lemma_marks_last(g, ss, n - 1, i, k);
    }
}

/// After filling a blank board, every food cell reads `Food`, and a cell
/// that holds neither food nor a segment of a living snake reads `Free`.
pub proof fn lemma_fill_food_and_free(
    r: Grid<CellGame>,
    g: Grid<CellGame>,
    snakes: Seq<SnakeView>,
    food: Seq<Coord>,
    hazards: Seq<Coord>,
)
    requires
        g.wf(),
        is_filled(r, g, snakes, food, hazards),
        forall|k: int| 0 <= k < g.cells@.len() ==> g.cells@[k] == CellGame::blank_spec(),
        coords_on_board(g, food),
        forall|i: int| 0 <= i < snakes.len() ==> (#[trigger] snakes[i]).body.len() >= 1,
    ensures
        forall|f: int| 0 <= f < food.len() ==> (#[trigger] r.cells@[g.idx(food[f])]).cell == CellType::Food,
        forall|k: int|
            0 <= k < r.cells@.len() && !food_on(g, food, k) && !body_on(g, snakes, k) ==> (
            #[trigger] r.cells@[k]).cell == CellType::Free,
{
    assert forall|f: int| 0 <= f < food.len() implies (#[trigger] r.cells@[g.idx(food[f])]).cell == CellType::Food by {
        g.lemma_idx_bounds(food[f]);
        assert(food_on(g, food, g.idx(food[f])));
    }
    assert forall|k: int|
        0 <= k < r.cells@.len() && !food_on(g, food, k) && !body_on(g, snakes, k) implies (
        #[trigger] r.cells@[k]).cell == CellType::Free by {
        assert forall|j: int| 0 <= j < snakes.len() implies #[trigger] snake_mark(g, snakes[j], j, k) == Option::<CellType>::None by {
            if snakes[j].alive() {
                if snakes[j].tail_moves() && g.idx(snakes[j].tail()) == k {
                    assert(g.idx(snakes[j].body[snakes[j].body.len() - 1]) == k);
                }
                if covers_body(g, snakes[j], k) {
                    let p = choose|p: int| 0 <= p < snakes[j].body.len() - 1 && #[trigger] g.idx(snakes[j].body[p]) == k;
                    assert(g.idx(snakes[j].body[p]) == k);
                }
            }
        }
        lemma_marks_none(g, snakes, snakes.len() as int, k);
    }
}

/// After filling a blank board on which living snakes and food do not
/// overlap, every segment of a living snake reads `Snake` or `Tail` of that
/// snake.
pub proof fn lemma_fill_bodies(
    r: Grid<CellGame>,
    g: Grid<CellGame>,
    snakes: Seq<SnakeView>,
    food: Seq<Coord>,
    hazards: Seq<Coord>,
)
    requires
        g.wf(),
        snakes.len() <= 256,
        is_filled(r, g, snakes, food, hazards),
        snakes_on_board(g, snakes),
        apart(g, snakes, food),
        forall|i: int| 0 <= i < snakes.len() ==> (#[trigger] snakes[i]).body.len() >= 1,
    ensures
        forall|i: int, p: int|
            0 <= i < snakes.len() && snakes[i].alive() && 0 <= p < snakes[i].body.len() ==> (
            #[trigger] r.cells@[g.idx(snakes[i].body[p])]).cell == CellType::Snake(i as u8) || r.cells@[g.idx(
                snakes[i].body[p],
            )].cell == CellType::Tail(i as u8),
{
    assert forall|i: int, p: int|
        0 <= i < snakes.len() && snakes[i].alive() && 0 <= p < snakes[i].body.len() implies (
        #[trigger] r.cells@[g.idx(snakes[i].body[p])]).cell == CellType::Snake(i as u8) || r.cells@[g.idx(
            snakes[i].body[p],
        )].cell == CellType::Tail(i as u8) by {
        let s = snakes[i];
        let k = g.idx(s.body[p]);
        g.lemma_idx_bounds(s.body[p]);
        if food_on(g, food, k) {
            let f = choose|f: int| 0 <= f < food.len() && #[trigger] g.idx(food[f]) == k;
            assert(g.idx(food[f]) != g.idx(snakes[i].body[p]));
        }
        if p < s.body.len() - 1 {
            assert(covers_body(g, s, k));
        } else if !(s.tail_moves() && g.idx(s.tail()) == k) {
            assert(s.body.len() >= 2);
            assert(g.idx(s.body[s.body.len() - 2]) == k);
            assert(covers_body(g, s, k));
        }
        assert forall|j: int| i < j < snakes.len() implies #[trigger] snake_mark(g, snakes[j], j, k) == Option::<CellType>::None by {
            if snakes[j].alive() {
                if snakes[j].tail_moves() && g.idx(snakes[j].tail()) == k {
                    assert(g.idx(snakes[j].body[snakes[j].body.len() - 1]) == k);
                    assert(g.idx(snakes[j].body[snakes[j].body.len() - 1]) != g.idx(snakes[i].body[p]));
                }
                if covers_body(g, snakes[j], k) {
                    let q = choose|q: int| 0 <= q < snakes[j].body.len() - 1 && #[trigger] g.idx(snakes[j].body[q]) == k;
                    assert(g.idx(snakes[j].body[q]) != g.idx(snakes[i].body[p]));
                }
            }
        }
        lemma_marks_last(g, snakes, snakes.len() as int, i, k);
    }
}

/// After filling a blank board on which living snakes and food do not
/// overlap and no tail shares a cell with another segment of its snake (but
/// the one before it), every segment but the last reads `Snake` of its snake,
/// and the last reads `Tail` when it moves away next turn, else `Snake`.
pub proof fn lemma_fill_bodies_exact(
    r: Grid<CellGame>,
    g: Grid<CellGame>,
    snakes: Seq<SnakeView>,
    food: Seq<Coord>,
    hazards: Seq<Coord>,
)
    requires
        g.wf(),
        snakes.len() <= 256,
        is_filled(r, g, snakes, food, hazards),
        snakes_on_board(g, snakes),
        apart(g, snakes, food),
        forall|i: int| 0 <= i < snakes.len() ==> (#[trigger] snakes[i]).body.len() >= 1,
        forall|i: int, p: int|
            0 <= i < snakes.len() && snakes[i].alive() && 0 <= p < snakes[i].body.len() - 1 && #[trigger] g.idx(snakes[i].body[p])
                == g.idx(snakes[i].tail()) ==> snakes[i].body[p] == snakes[i].tail() && p == snakes[i].body.len() - 2,
    ensures
        forall|i: int, p: int|
            0 <= i < snakes.len() && snakes[i].alive() && 0 <= p < snakes[i].body.len() ==> (
            #[trigger] r.cells@[g.idx(snakes[i].body[p])]).cell == if p == snakes[i].body.len() - 1 && snakes[i].tail_moves() {
                CellType::Tail(i as u8)
            } else {
                CellType::Snake(i as u8)
            },
{
    assert forall|i: int, p: int|
        0 <= i < snakes.len() && snakes[i].alive() && 0 <= p < snakes[i].body.len() implies (
        #[trigger] r.cells@[g.idx(snakes[i].body[p])]).cell == if p == snakes[i].body.len() - 1 && snakes[i].tail_moves() {
            CellType::Tail(i as u8)
        } else {
            CellType::Snake(i as u8)
        } by {
        let s = snakes[i];
        let k = g.idx(s.body[p]);
        g.lemma_idx_bounds(s.body[p]);
        if food_on(g, food, k) {
            let f = choose|f: int| 0 <= f < food.len() && #[trigger] g.idx(food[f]) == k;
            assert(g.idx(food[f]) != g.idx(snakes[i].body[p]));
        }
        if p < s.body.len() - 1 {
            assert(covers_body(g, s, k));
            if s.tail_moves() && g.idx(s.tail()) == k {
                assert(s.body[p] == s.tail() && p == s.body.len() - 2);
            }
        } else if !(s.tail_moves() && g.idx(s.tail()) == k) {
            assert(s.body.len() >= 2);
            assert(g.idx(s.body[s.body.len() - 2]) == k);
            assert(covers_body(g, s, k));
        }
        assert forall|j: int| i < j < snakes.len() implies #[trigger] snake_mark(g, snakes[j], j, k) == Option::<CellType>::None by {
            if snakes[j].alive() {
                if snakes[j].tail_moves() && g.idx(snakes[j].tail()) == k {
                    assert(g.idx(snakes[j].body[snakes[j].body.len() - 1]) == k);
                    assert(g.idx(snakes[j].body[snakes[j].body.len() - 1]) != g.idx(snakes[i].body[p]));
                }
                if covers_body(g, snakes[j], k) {
                    let q = choose|q: int| 0 <= q < snakes[j].body.len() - 1 && #[trigger] g.idx(snakes[j].body[q]) == k;
                    assert(g.idx(snakes[j].body[q]) != g.idx(snakes[i].body[p]));
                }
            }
        }
        lemma_marks_last(g, snakes, snakes.len() as int, i, k);
    }
}

} // verus!
