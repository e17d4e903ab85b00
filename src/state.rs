//! The game state and the rules that take it from one turn to the next.

use vstd::prelude::*;
use crate::game::{Coord, Direction, can_step, step_spec, alive_actions};
use crate::grid::Grid;
use crate::cell::{
    CellGame, CellType, views, snakes_on_board, coords_on_board, is_filled, hazard_count, built,
    lemma_fill_blank, lemma_hazard_dims, same_dims, fresh_base,
};
use crate::snake::{Snake, SnakeView, LossType};

verus! {

/// Health lost per hazard on the cell a snake's head enters.
pub const HAZARD_DAMAGE: i16 = 14;

/// The rule variant being played.
#[derive(Debug, Clone, Copy, PartialEq, Eq, Structural)]
pub enum Mode {
    Standard,
    Duels,
    Royale,
    Constrictor,
    Snail,
}

/// A game position. `snakes[0]` is the controlled snake. `grid` is derived
/// from the snakes, the food and the hazards.
#[derive(Debug, Clone)]
pub struct State {
    pub turn: u32,
    pub snakes: Vec<Snake>,
    pub food: Vec<Coord>,
    pub hazards: Vec<Coord>,
    pub grid: Grid<CellGame>,
    pub mode: Mode,
}

/// Number of living snakes among the first `n`.
pub open spec fn alive_count(ss: Seq<SnakeView>, n: int) -> nat
    decreases n,
{
    if n <= 0 {
        0
    } else {
        alive_count(ss, n - 1) + if ss[n - 1].alive() {
            1nat
        } else {
            0nat
        }
    }
}

/// A cell a snake may move to: on the board and not a body segment.
pub open spec fn is_valid_spec(g: Grid<CellGame>, c: Coord) -> bool {
    g.contains_spec(c) && !(g.at(c).cell is Snake)
}

/// A move is open to a snake when it is not its previous move and leads to a
/// valid cell.
pub open spec fn open_move(g: Grid<CellGame>, s: SnakeView, d: Direction) -> bool {
    d != s.last_action && is_valid_spec(g, step_spec(s.head(), d))
}

/// The open moves among the first `j` of Down, Left, Right, Up, in that order.
pub open spec fn open_moves(g: Grid<CellGame>, s: SnakeView, j: int) -> Seq<Direction>
    decreases j,
{
    if j <= 0 {
        Seq::<Direction>::empty()
    } else if open_move(g, s, alive_actions()[j - 1]) {
        open_moves(g, s, j - 1).push(alive_actions()[j - 1])
    } else {
        open_moves(g, s, j - 1)
    }
}

/// The snakes that are alive among the first `n`, in order.
pub open spec fn living(ss: Seq<SnakeView>, n: int) -> Seq<SnakeView>
    decreases n,
{
    if n <= 0 {
        Seq::<SnakeView>::empty()
    } else if ss[n - 1].alive() {
        living(ss, n - 1).push(ss[n - 1])
    } else {
        living(ss, n - 1)
    }
}

/// A snake without health left starves.
pub open spec fn starve_of(s: SnakeView) -> SnakeView {
    if s.health == 0 {
        s.killed(LossType::Starvation)
    } else {
        s
    }
}

/// Every living snake makes its move; dead snakes stay as they are.
pub open spec fn moved_all(ss: Seq<SnakeView>, actions: Seq<Direction>, constrictor: bool) -> Seq<
    SnakeView,
> {
    Seq::new(
        ss.len(),
        |i: int|
            if !ss[i].alive() {
                ss[i]
            } else if constrictor {
                ss[i].moved_constrictor(actions[i])
            } else {
                ss[i].moved(actions[i])
            },
    )
}

/// Snake `i` meets a living snake head-on that is at least as long.
pub open spec fn loses_head_on(ss: Seq<SnakeView>, i: int) -> bool {
    ss[i].alive() && exists|j: int|
        0 <= j < ss.len() && j != i && (#[trigger] ss[j]).alive() && ss[j].head() == ss[i].head()
            && ss[j].body.len() >= ss[i].body.len()
}

/// Head-to-head collisions: the shorter snake dies, equal lengths both die.
pub open spec fn after_head_collisions(ss: Seq<SnakeView>) -> Seq<SnakeView> {
    Seq::new(
        ss.len(),
        |i: int|
            if loses_head_on(ss, i) {
                ss[i].killed(LossType::HeadCollision)
            } else {
                ss[i]
            },
    )
}

/// Body and wall collisions of snake `i` against the previous board. A snake
/// whose head did not move is not checked.
pub open spec fn collision_of(g: Grid<CellGame>, s: SnakeView, i: int) -> SnakeView {
    if !s.alive() || s.body[0] == s.body[1] {
        s
    } else if !g.contains_spec(s.head()) || g.at(s.head()).cell == CellType::Snake(i as u8) {
        s.killed(LossType::OwnOrWallCollision)
    } else if g.at(s.head()).cell is Snake {
        s.killed(LossType::SnakeCollision)
    } else {
        s
    }
}

pub open spec fn after_collisions(g: Grid<CellGame>, ss: Seq<SnakeView>) -> Seq<SnakeView> {
    Seq::new(ss.len(), |i: int| collision_of(g, ss[i], i))
}

/// A living snake whose head is on food.
pub open spec fn eats(g: Grid<CellGame>, s: SnakeView) -> bool {
    s.alive() && g.at(s.head()).cell == CellType::Food
}

/// Hazard damage, then food, then death when health fell below zero.
pub open spec fn feed_of(g: Grid<CellGame>, s: SnakeView) -> SnakeView {
    if !s.alive() {
        s
    } else {
        let hurt = SnakeView {
            health: s.health - HAZARD_DAMAGE * g.at(s.head()).hazard,
            ..s
        };
        let after = if g.at(s.head()).cell == CellType::Food {
            hurt.fed()
        } else {
            hurt
        };
        if after.health < 0 {
            after.killed(LossType::Starvation)
        } else {
            after
        }
    }
}

/// The heads of the snakes among the first `n` that eat, in order.
pub open spec fn eaten_heads(g: Grid<CellGame>, ss: Seq<SnakeView>, n: int) -> Seq<Coord>
    decreases n,
{
    if n <= 0 {
        Seq::<Coord>::empty()
    } else if eats(g, ss[n - 1]) {
        eaten_heads(g, ss, n - 1).push(ss[n - 1].head())
    } else {
        eaten_heads(g, ss, n - 1)
    }
}

/// The first `n` food coordinates that no eating snake's head is on.
pub open spec fn kept_food(food: Seq<Coord>, eaten: Seq<Coord>, n: int) -> Seq<Coord>
    decreases n,
{
    if n <= 0 {
        Seq::<Coord>::empty()
    } else if eaten.contains(food[n - 1]) {
        kept_food(food, eaten, n - 1)
    } else {
        kept_food(food, eaten, n - 1).push(food[n - 1])
    }
}

/// The moves offered to a snake: none for a dead or frozen snake; else its
/// previous move first if still open, then the other open moves, and `Up`
/// when nothing is open.
pub open spec fn valid_actions_spec(g: Grid<CellGame>, s: SnakeView) -> Seq<Direction> {
    if !s.should_simulate || !s.alive() {
        seq![Direction::Stay]
    } else {
        let first = if s.last_action != Direction::Stay && is_valid_spec(
            g,
            step_spec(s.head(), s.last_action),
        ) {
            seq![s.last_action]
        } else {
            Seq::<Direction>::empty()
        };
        let rest = open_moves(g, s, 4);
        if first.len() + rest.len() == 0 {
            seq![Direction::Up]
        } else {
            first + rest
        }
    }
}

/// The snakes after movement, head-to-head and body collisions.
pub open spec fn collided(st: State, actions: Seq<Direction>) -> Seq<SnakeView> {
    after_collisions(
        st.grid,
        after_head_collisions(moved_all(st.sv(), actions, st.mode == Mode::Constrictor)),
    )
}

/// The snakes one turn later.
pub open spec fn stepped_snakes(st: State, actions: Seq<Direction>) -> Seq<SnakeView> {
    let c = collided(st, actions);
    if st.mode == Mode::Constrictor {
        c
    } else {
        Seq::new(c.len(), |i: int| starve_of(feed_of(st.grid, c[i])))
    }
}

/// The food one turn later: what was eaten is gone.
pub open spec fn stepped_food(st: State, actions: Seq<Direction>) -> Seq<Coord> {
    if st.mode == Mode::Constrictor {
        Seq::<Coord>::empty()
    } else {
        let c = collided(st, actions);
        kept_food(st.food@, eaten_heads(st.grid, c, c.len() as int), st.food@.len() as int)
    }
}

/// A hazard count one turn older: counts above one drop by one, the rest vanish.
pub open spec fn decayed(h: u8) -> u8 {
    if h > 1 {
        (h - 1) as u8
    } else {
        0
    }
}

/// The hazard left on cell `k` by the first `n` snakes of the previous turn:
/// a living snake whose tail moved leaves its length where the tail was; a
/// later snake's deposit covers an earlier one's.
pub open spec fn deposit(g: Grid<CellGame>, olds: Seq<SnakeView>, n: int, k: int) -> Option<u8>
    decreases n,
{
    if n <= 0 {
        Option::None
    } else {
        let s = olds[n - 1];
        if s.alive() && s.tail_moves() && g.idx(s.tail()) == k {
            Option::Some(s.body.len() as u8)
        } else {
            deposit(g, olds, n - 1, k)
        }
    }
}

/// The board of a snail-mode turn: cells built from the snakes and the food;
/// hazards decayed from the previous board `prev`, and deposited by the
/// previous snakes `olds` on every cell that holds no body segment.
pub open spec fn snail_built(
    r: Grid<CellGame>,
    snakes: Seq<SnakeView>,
    food: Seq<Coord>,
    prev: Grid<CellGame>,
    olds: Seq<SnakeView>,
) -> bool {
    forall|k: int|
        0 <= k < r.cells@.len() ==> (#[trigger] r.cells@[k]).cell == fresh_base(r, snakes, food, k).cell
            && r.cells@[k].hazard == if r.cells@[k].cell is Snake {
            decayed(prev.cells@[k].hazard)
        } else {
            match deposit(r, olds, olds.len() as int, k) {
                Option::Some(v) => v,
                Option::None => decayed(prev.cells@[k].hazard),
            }
        }
}

impl State {
    /// What `step` needs: a well-formed state, one action per snake, bodies
    /// of at least two segments, and room for the counters to move.
    pub open spec fn step_ready(&self, actions: Seq<Direction>) -> bool {
        &&& self.wf()
        &&& actions.len() == self.snakes@.len()
        &&& self.turn < u32::MAX
        &&& forall|i: int| 0 <= i < self.snakes@.len() ==> (#[trigger] self.snakes@[i]).body@.len() >= 2
        &&& self.heads_can_step()
        &&& forall|i: int|
            0 <= i < self.sv().len() && (#[trigger] self.sv()[i]).alive() ==> self.sv()[i].health
                > i16::MIN + HAZARD_DAMAGE * 255
        &&& forall|k: int| 0 <= k < self.grid.cells@.len() ==> hazard_count(self.grid, self.hazards@, k) <= u8::MAX
    }

    /// The successor of `self` under `actions`, as `step` builds it.
    pub open spec fn step_post(&self, actions: Seq<Direction>, r: State) -> bool {
        &&& r.wf()
        &&& r.turn == self.turn + 1
        &&& r.mode == self.mode
        &&& same_dims(r.grid, self.grid)
        &&& r.sv() == stepped_snakes(*self, actions)
        &&& r.food@ == stepped_food(*self, actions)
        &&& r.hazards@ == if self.mode == Mode::Constrictor || self.mode == Mode::Snail {
            Seq::<Coord>::empty()
        } else {
            self.hazards@
        }
        &&& if self.mode == Mode::Snail {
            snail_built(r.grid, r.sv(), r.food@, self.grid, self.sv())
        } else {
            built(r.grid, r.sv(), r.food@, r.hazards@)
        }
    }

    pub open spec fn sv(&self) -> Seq<SnakeView> {
        views(self.snakes@)
    }

    /// The board has valid dimensions, snake ids fit a cell, every snake has
    /// a body, and living snakes and food lie on the board.
    pub open spec fn wf(&self) -> bool {
        &&& self.grid.wf()
        &&& self.snakes@.len() <= 256
        &&& forall|i: int| 0 <= i < self.snakes@.len() ==> (#[trigger] self.snakes@[i]).body@.len() >= 1
        &&& snakes_on_board(self.grid, self.sv())
        &&& coords_on_board(self.grid, self.food@)
    }

    /// Every living snake's head can move one cell without overflow.
    pub open spec fn heads_can_step(&self) -> bool {
        forall|i: int| 0 <= i < self.sv().len() && (#[trigger] self.sv()[i]).alive() ==> can_step(self.sv()[i].head())
    }

    pub fn new(
        turn: u32,
        snakes: Vec<Snake>,
        food: Vec<Coord>,
        hazards: Vec<Coord>,
        width: usize,
        height: usize,
        wrapped: bool,
        mode: Mode,
    ) -> (r: State)
        requires
            0 < width <= i32::MAX,
            0 < height <= i32::MAX,
            width * height <= usize::MAX,
        ensures
            r.turn == turn,
            r.snakes@ == snakes@,
            r.food@ == food@,
            r.hazards@ == hazards@,
            r.mode == mode,
            r.grid.wf(),
            r.grid.width == width,
            r.grid.height == height,
            r.grid.wrapped == wrapped,
            forall|k: int| 0 <= k < r.grid.cells@.len() ==> r.grid.cells@[k] == (CellGame { cell: CellType::Free, hazard: 0 }),
    {
        let grid = Grid::new(width, height, wrapped);
        State { turn, snakes, food, hazards, grid, mode }
    }

    /// Rebuilds the board from the snakes, the food and the hazards.
    pub fn fill_grid(&mut self)
        requires
            old(self).wf(),
            forall|k: int|
                0 <= k < old(self).grid.cells@.len() ==> old(self).grid.cells@[k].hazard
                    + hazard_count(old(self).grid, old(self).hazards@, k) <= u8::MAX,
        ensures
            final(self).wf(),
            final(self).turn == old(self).turn,
            final(self).snakes@ == old(self).snakes@,
            final(self).food@ == old(self).food@,
            final(self).hazards@ == old(self).hazards@,
            final(self).mode == old(self).mode,
            is_filled(final(self).grid, old(self).grid, old(self).sv(), old(self).food@, old(self).hazards@),
    {
        self.grid.fill(self.snakes.as_slice(), self.food.as_slice(), self.hazards.as_slice());
    }

    /// The living snakes, in order.
    pub fn alive_snakes(&self) -> (r: Vec<&Snake>)
        ensures
            r@.map_values(|x: &Snake| x@) == living(self.sv(), self.sv().len() as int),
    {
        let mut r: Vec<&Snake> = Vec::new();
        let mut i: usize = 0;
        while i < self.snakes.len()
            invariant
                i <= self.snakes@.len(),
                r@.map_values(|x: &Snake| x@) == living(self.sv(), i as int),
            decreases self.snakes@.len() - i,
        {
            let s = &self.snakes[i];
            if s.is_alive() {
                r.push(s);
            }
            i = i + 1;
            assert(r@.map_values(|x: &Snake| x@) =~= living(self.sv(), i as int));
        }
        r
    }

    fn count_alive(&self) -> (r: usize)
        ensures
            r == alive_count(self.sv(), self.sv().len() as int),
    {
        let mut c: usize = 0;
        let mut i: usize = 0;
        while i < self.snakes.len()
            invariant
                i <= self.snakes@.len(),
                c == alive_count(self.sv(), i as int),
                c <= i,
            decreases self.snakes@.len() - i,
        {
            if self.snakes[i].is_alive() {
                c = c + 1;
            }
            i = i + 1;
        }
        c
    }

    /// At most one snake is alive.
    pub fn is_end_state(&self) -> (r: bool)
        ensures
            r == (alive_count(self.sv(), self.sv().len() as int) <= 1),
    {
        self.count_alive() <= 1
    }

    /// The index of the first living snake (the sole one in an end state),
    /// or -1 when none is alive.
    pub fn get_winner(&self) -> (r: i8)
        requires
            self.snakes@.len() <= 128,
        ensures
            r >= -1,
            r == -1 <==> forall|j: int| 0 <= j < self.sv().len() ==> !(#[trigger] self.sv()[j]).alive(),
            r >= 0 ==> r < self.sv().len() && self.sv()[r as int].alive() && forall|j: int|
                0 <= j < r ==> !(#[trigger] self.sv()[j]).alive(),
    {
        let mut i: usize = 0;
        while i < self.snakes.len()
            invariant
                i <= self.snakes@.len() <= 128,
                forall|j: int| 0 <= j < i ==> !(#[trigger] self.sv()[j]).alive(),
            decreases self.snakes@.len() - i,
        {
            if self.snakes[i].is_alive() {
                assert(self.sv()[i as int].alive());
                return i as i8;
            }
            i = i + 1;
        }
        -1
    }

    /// Every snake whose health is exactly zero dies of starvation.
    pub fn kill_starved(&mut self)
        ensures
            final(self).sv() == Seq::new(old(self).sv().len(), |i: int| starve_of(old(self).sv()[i])),
            final(self).turn == old(self).turn,
            final(self).food@ == old(self).food@,
            final(self).hazards@ == old(self).hazards@,
            final(self).grid == old(self).grid,
            final(self).mode == old(self).mode,
    {
        let mut new_snakes: Vec<Snake> = Vec::with_capacity(self.snakes.len());
        let mut i: usize = 0;
        while i < self.snakes.len()
            invariant
                i <= self.snakes@.len(),
                self.snakes@ == old(self).snakes@,
                new_snakes@.len() == i,
                views(new_snakes@) == Seq::new(i as nat, |j: int| starve_of(old(self).sv()[j])),
            decreases self.snakes@.len() - i,
        {
            let mut s = self.snakes[i].duplicate();
            assert(old(self).sv()[i as int] == self.snakes@[i as int]@);
            let ghost prev = new_snakes@;
            if s.health == 0 {
                s.die(LossType::Starvation);
            }
            new_snakes.push(s);
            i = i + 1;
            assert forall|j: int| 0 <= j < i implies #[trigger] views(new_snakes@)[j] == starve_of(old(self).sv()[j]) by {
                if j < i - 1 {
                    assert(views(prev)[j] == starve_of(old(self).sv()[j]));
                    assert(new_snakes@[j] == prev[j]);
                }
            }
            assert(views(new_snakes@) =~= Seq::new(i as nat, |j: int| starve_of(old(self).sv()[j])));
        }
        self.snakes = new_snakes;
        assert(self.sv() =~= Seq::new(old(self).sv().len(), |i: int| starve_of(old(self).sv()[i])));
    }

    /// The moves worth searching for snake `snake_i`; never empty.
    pub fn get_valid_actions(&self, snake_i: usize) -> (r: Vec<Direction>)
        requires
            self.wf(),
            self.heads_can_step(),
            snake_i < self.snakes@.len(),
        ensures
            r@ == valid_actions_spec(self.grid, self.sv()[snake_i as int]),
            r@.len() >= 1,
    {
        let snake = &self.snakes[snake_i];
        let ghost s = self.sv()[snake_i as int];
        assert(s == snake@);
        if !snake.should_simulate || !snake.is_alive() {
            return vec![Direction::Stay];
        }
        let head = snake.head();
        let mut valid_actions: Vec<Direction> = Vec::with_capacity(4);
        if snake.last_action != Direction::Stay && self.grid.is_valid_pos(head.step(snake.last_action)) {
            valid_actions.push(snake.last_action);
        }
        let ghost first = valid_actions@;
        let acts = Direction::get_alive_actions();
        let mut j: usize = 0;
        while j < 4
            invariant
                j <= 4,
                acts@ == alive_actions(),
                s == snake@,
                s.alive(),
                can_step(head),
                head == s.head(),
                self.wf(),
                valid_actions@ == first + open_moves(self.grid, s, j as int),
            decreases 4 - j,
        {
            let d = acts[j];
            if d != snake.last_action && self.grid.is_valid_pos(head.step(d)) {
                valid_actions.push(d);
            }
            j = j + 1;
            assert(valid_actions@ =~= first + open_moves(self.grid, s, j as int));
        }
        if valid_actions.len() == 0 {
            valid_actions.push(Direction::Up);
        }
        proof {
            if valid_actions@.len() == 1 && first.len() + open_moves(self.grid, s, 4).len() == 0 {
                assert(valid_actions@ =~= seq![Direction::Up]);
            }
        }
        valid_actions
    }
}


/// Copies a list of coordinates.
pub(crate) fn copy_coords(v: &Vec<Coord>) -> (r: Vec<Coord>)
    ensures
        r@ == v@,
{
    let mut r: Vec<Coord> = Vec::with_capacity(v.len());
    let mut i: usize = 0;
    while i < v.len()
        invariant
            i <= v@.len(),
            r@ == v@.subrange(0, i as int),
        decreases v@.len() - i,
    {
        r.push(v[i]);
        i = i + 1;
        assert(r@ =~= v@.subrange(0, i as int));
    }
    assert(v@.subrange(0, v@.len() as int) =~= v@);
    r
}

/// Kills every snake that loses a head-to-head collision.
fn check_head_collisions(ss: &Vec<Snake>) -> (r: Vec<Snake>)
    requires
        forall|i: int| 0 <= i < ss@.len() ==> (#[trigger] ss@[i]).body@.len() >= 1,
    ensures
        views(r@) == after_head_collisions(views(ss@)),
{
    let ghost sv = views(ss@);
    let n = ss.len();
    let mut r: Vec<Snake> = Vec::with_capacity(n);
    let mut i: usize = 0;
    while i < n
        invariant
            n == ss@.len(),
            sv == views(ss@),
            sv.len() == n,
            i <= n,
            r@.len() == i,
            forall|j: int| 0 <= j < ss@.len() ==> (#[trigger] ss@[j]).body@.len() >= 1,
            forall|j: int| 0 <= j < i ==> #[trigger] views(r@)[j] == after_head_collisions(sv)[j],
        decreases n - i,
    {
        let mut lost = false;
        if ss[i].is_alive() {
            let head = ss[i].head();
            let len = ss[i].len();
            let mut j: usize = 0;
            while j < n
                invariant
                    n == ss@.len(),
                    sv == views(ss@),
                    sv.len() == n,
                    i < n,
                    j <= n,
                    head == sv[i as int].head(),
                    len == sv[i as int].body.len(),
                    forall|q: int| 0 <= q < ss@.len() ==> (#[trigger] ss@[q]).body@.len() >= 1,
                    lost == exists|q: int|
                        0 <= q < j && q != i && (#[trigger] sv[q]).alive() && sv[q].head() == sv[i as int].head()
                            && sv[q].body.len() >= sv[i as int].body.len(),
                decreases n - j,
            {
                assert(sv[j as int] == ss@[j as int]@);
                if j != i && ss[j].is_alive() && ss[j].head() == head && ss[j].len() >= len {
                    lost = true;
                }
                j = j + 1;
            }
        }
        assert(sv[i as int] == ss@[i as int]@);
        let ghost prev = r@;
        let mut s = ss[i].duplicate();
        if lost {
            s.die(LossType::HeadCollision);
        }
        r.push(s);
        i = i + 1;
        assert forall|j: int| 0 <= j < i implies #[trigger] views(r@)[j] == after_head_collisions(sv)[j] by {
            if j < i - 1 {
                assert(views(prev)[j] == after_head_collisions(sv)[j]);
                assert(r@[j] == prev[j]);
            }
        }
    }
    assert(views(r@) =~= after_head_collisions(sv));
    r
}

impl State {
    /// Moves every living snake by its action.
    fn move_snakes(&self, actions: &Vec<Direction>, constrictor: bool) -> (r: Vec<Snake>)
        requires
            self.wf(),
            self.heads_can_step(),
            actions@.len() == self.snakes@.len(),
            forall|i: int| 0 <= i < self.sv().len() && (#[trigger] self.sv()[i]).alive() ==> self.sv()[i].health > i16::MIN,
        ensures
            views(r@) == moved_all(self.sv(), actions@, constrictor),
    {
        let ghost sv = self.sv();
        let n = self.snakes.len();
        let mut r: Vec<Snake> = Vec::with_capacity(n);
        let mut i: usize = 0;
        while i < n
            invariant
                n == self.snakes@.len(),
                sv == self.sv(),
                sv.len() == n,
                i <= n,
                r@.len() == i,
                self.wf(),
                self.heads_can_step(),
                actions@.len() == n,
                forall|j: int| 0 <= j < sv.len() && (#[trigger] sv[j]).alive() ==> sv[j].health > i16::MIN,
                forall|j: int| 0 <= j < i ==> #[trigger] views(r@)[j] == moved_all(sv, actions@, constrictor)[j],
            decreases n - i,
        {
            let snake = &self.snakes[i];
            assert(sv[i as int] == snake@);
            let ghost prev = r@;
            let s = if snake.is_alive() {
                if constrictor {
                    snake.step_constrictor(actions[i])
                } else {
                    snake.step(actions[i])
                }
            } else {
                snake.duplicate()
            };
            r.push(s);
            i = i + 1;
            assert forall|j: int| 0 <= j < i implies #[trigger] views(r@)[j] == moved_all(sv, actions@, constrictor)[j] by {
                if j < i - 1 {
                    assert(views(prev)[j] == moved_all(sv, actions@, constrictor)[j]);
                    assert(r@[j] == prev[j]);
                }
            }
        }
        assert(views(r@) =~= moved_all(sv, actions@, constrictor));
        r
    }

    /// Kills every snake that ran into a wall, into itself or into another
    /// snake's body, judged on the board before the move.
    fn check_collisions(&self, ss: &Vec<Snake>) -> (r: Vec<Snake>)
        requires
            self.grid.wf(),
            ss@.len() <= 256,
            forall|i: int| 0 <= i < ss@.len() ==> (#[trigger] ss@[i]).body@.len() >= 2,
        ensures
            views(r@) == after_collisions(self.grid, views(ss@)),
    {
        let ghost sv = views(ss@);
        let n = ss.len();
        let mut r: Vec<Snake> = Vec::with_capacity(n);
        let mut i: usize = 0;
        while i < n
            invariant
                n == ss@.len(),
                n <= 256,
                sv == views(ss@),
                sv.len() == n,
                i <= n,
                r@.len() == i,
                self.grid.wf(),
                forall|j: int| 0 <= j < ss@.len() ==> (#[trigger] ss@[j]).body@.len() >= 2,
                forall|j: int| 0 <= j < i ==> #[trigger] views(r@)[j] == after_collisions(self.grid, sv)[j],
            decreases n - i,
        {
            let snake = &ss[i];
            assert(sv[i as int] == snake@);
            let ghost prev = r@;
            let mut s = snake.duplicate();
            if !(snake.body[0] == snake.body[1] || !snake.is_alive()) {
                let head = snake.head();
                if !self.grid.contains(head) {
                    s.die(LossType::OwnOrWallCollision);
                } else {
                    let cell = self.grid.get(head).cell;
                    if cell == CellType::Snake(i as u8) {
                        s.die(LossType::OwnOrWallCollision);
                    } else if self.grid.is_snake(head) {
                        s.die(LossType::SnakeCollision);
                    }
                }
            }
            r.push(s);
            i = i + 1;
            assert forall|j: int| 0 <= j < i implies #[trigger] views(r@)[j] == after_collisions(self.grid, sv)[j] by {
                if j < i - 1 {
                    assert(views(prev)[j] == after_collisions(self.grid, sv)[j]);
                    assert(r@[j] == prev[j]);
                }
            }
        }
        assert(views(r@) =~= after_collisions(self.grid, sv));
        r
    }

    /// Hazard damage, eating and starvation below zero health; also returns
    /// the heads of the snakes that ate.
    fn feed_snakes(&self, ss: &Vec<Snake>) -> (r: (Vec<Snake>, Vec<Coord>))
        requires
            self.grid.wf(),
            forall|i: int| 0 <= i < ss@.len() ==> (#[trigger] ss@[i]).body@.len() >= 1,
            forall|i: int|
                0 <= i < ss@.len() && (#[trigger] ss@[i]).loss_reason == LossType::Alive
                    ==> self.grid.contains_spec(ss@[i]@.head()) && ss@[i].health >= i16::MIN
                    + HAZARD_DAMAGE * 255,
        ensures
            views(r.0@) == Seq::new(ss@.len(), |i: int| feed_of(self.grid, views(ss@)[i])),
            r.1@ == eaten_heads(self.grid, views(ss@), ss@.len() as int),
    {
        let ghost sv = views(ss@);
        let n = ss.len();
        let mut r: Vec<Snake> = Vec::with_capacity(n);
        let mut eaten: Vec<Coord> = Vec::new();
        let mut i: usize = 0;
        while i < n
            invariant
                n == ss@.len(),
                sv == views(ss@),
                sv.len() == n,
                i <= n,
                r@.len() == i,
                self.grid.wf(),
                forall|j: int| 0 <= j < ss@.len() ==> (#[trigger] ss@[j]).body@.len() >= 1,
                forall|j: int|
                    0 <= j < ss@.len() && (#[trigger] ss@[j]).loss_reason == LossType::Alive
                        ==> self.grid.contains_spec(ss@[j]@.head()) && ss@[j].health >= i16::MIN
                        + HAZARD_DAMAGE * 255,
                forall|j: int| 0 <= j < i ==> #[trigger] views(r@)[j] == feed_of(self.grid, sv[j]),
                eaten@ == eaten_heads(self.grid, sv, i as int),
            decreases n - i,
        {
            let snake = &ss[i];
            assert(sv[i as int] == snake@);
            let ghost prev = r@;
            let mut s = snake.duplicate();
            if s.is_alive() {
                let head = s.head();
                let cell = *self.grid.get(head);
                s.health = s.health - HAZARD_DAMAGE * (cell.hazard as i16);
                if cell.cell == CellType::Food {
                    s.eat();
                    eaten.push(head);
                }
                if s.health < 0 {
                    s.die(LossType::Starvation);
                }
            }
            r.push(s);
            i = i + 1;
            assert forall|j: int| 0 <= j < i implies #[trigger] views(r@)[j] == feed_of(self.grid, sv[j]) by {
                if j < i - 1 {
                    assert(views(prev)[j] == feed_of(self.grid, sv[j]));
                    assert(r@[j] == prev[j]);
                }
            }
        }
        assert(views(r@) =~= Seq::new(ss@.len(), |i: int| feed_of(self.grid, views(ss@)[i])));
        (r, eaten)
    }
}

/// The food that no eating snake's head is on.
fn remaining_food(food: &Vec<Coord>, eaten: &Vec<Coord>) -> (r: Vec<Coord>)
    ensures
        r@ == kept_food(food@, eaten@, food@.len() as int),
{
    let mut r: Vec<Coord> = Vec::new();
    let mut i: usize = 0;
    while i < food.len()
        invariant
            i <= food@.len(),
            r@ == kept_food(food@, eaten@, i as int),
        decreases food@.len() - i,
    {
        let f = food[i];
        let mut hit = false;
        let mut j: usize = 0;
        while j < eaten.len()
            invariant
                j <= eaten@.len(),
                f == food@[i as int],
                hit == exists|q: int| 0 <= q < j && eaten@[q] == f,
            decreases eaten@.len() - j,
        {
            if eaten[j] == f {
                hit = true;
            }
            j = j + 1;
        }
        proof {
            if hit {
                let q = choose|q: int| 0 <= q < j && eaten@[q] == f;
                assert(eaten@.contains(f));
            } else {
                if eaten@.contains(f) {
                    let q = choose|q: int| 0 <= q < eaten@.len() && eaten@[q] == f;
                    assert(false);
                }
            }
        }
        if !hit {
            r.push(f);
        }
        i = i + 1;
    }
    r
}


pub proof fn lemma_kept_on_board(g: Grid<CellGame>, food: Seq<Coord>, eaten: Seq<Coord>, n: int)
    requires
        coords_on_board(g, food),
        n <= food.len(),
    ensures
        coords_on_board(g, kept_food(food, eaten, n)),
    decreases n,
{
    if n > 0 {
        lemma_kept_on_board(g, food, eaten, n - 1);
        let prev = kept_food(food, eaten, n - 1);
        assert(g.contains_spec(food[n - 1]));
        if !eaten.contains(food[n - 1]) {
            assert forall|j: int| 0 <= j < prev.push(food[n - 1]).len() implies g.contains_spec(
                #[trigger] prev.push(food[n - 1])[j],
            ) by {
                if j < prev.len() {
                    assert(g.contains_spec(prev[j]));
                }
            }
        }
    }
}

/// After a turn every living snake still lies on the board.
pub proof fn lemma_stepped_on_board(st: State, actions: Seq<Direction>)
    requires
        st.step_ready(actions),
    ensures
        snakes_on_board(st.grid, stepped_snakes(st, actions)),
        forall|i: int|
            0 <= i < stepped_snakes(st, actions).len() ==> (#[trigger] stepped_snakes(
                st,
                actions,
            )[i]).body.len() >= 1,
        stepped_snakes(st, actions).len() == st.snakes@.len(),
{
    let sv = st.sv();
    let cons = st.mode == Mode::Constrictor;
    let m = moved_all(sv, actions, cons);
    let h = after_head_collisions(m);
    let c = after_collisions(st.grid, h);
    let f = stepped_snakes(st, actions);
    assert forall|i: int| 0 <= i < f.len() implies (#[trigger] f[i]).body.len() >= 1 by {
        assert(st.snakes@[i].body@.len() >= 2);
        assert(sv[i] == st.snakes@[i]@);
    }
    assert forall|i: int, p: int|
        0 <= i < f.len() && f[i].alive() && 0 <= p < f[i].body.len() implies st.grid.contains_spec(
        #[trigger] f[i].body[p],
    ) by {
        assert(st.snakes@[i].body@.len() >= 2);
        assert(sv[i] == st.snakes@[i]@);
        assert(c[i].alive());
        assert(sv[i].alive());
        assert(st.grid.contains_spec(sv[i].body[0]));
        assert(st.grid.contains_spec(m[i].body[0]));
        if p > 0 {
            if cons {
                assert(f[i].body[p] == sv[i].body[p - 1]);
            } else if p < m[i].body.len() {
                assert(f[i].body[p] == sv[i].body[p - 1]);
            } else {
                assert(f[i].body[p] == m[i].body.last());
                assert(m[i].body.last() == sv[i].body[m[i].body.len() - 2]);
            }
        }
    }
}

impl State {
    /// Snail mode: the hazard list is dropped, old hazards decay, and each
    /// snake whose tail moved leaves a hazard of its length behind.
    fn apply_snail_mode(&mut self, old_state: &State)
        requires
            old(self).wf(),
            old_state.wf(),
            same_dims(old(self).grid, old_state.grid),
            forall|i: int| 0 <= i < old_state.snakes@.len() ==> (#[trigger] old_state.snakes@[i]).body@.len() >= 2,
            forall|k: int| 0 <= k < old(self).grid.cells@.len() ==> old(self).grid.cells@[k] == (CellGame { cell: CellType::Free, hazard: 0 }),
        ensures
            final(self).wf(),
            final(self).turn == old(self).turn,
            final(self).snakes@ == old(self).snakes@,
            final(self).food@ == old(self).food@,
            final(self).hazards@ == Seq::<Coord>::empty(),
            final(self).mode == old(self).mode,
            same_dims(final(self).grid, old(self).grid),
            snail_built(final(self).grid, old(self).sv(), old(self).food@, old_state.grid, old_state.sv()),
    {
        self.hazards.clear();
        let ghost g0 = self.grid;
        proof {
            assert forall|k: int| 0 <= k < g0.cells@.len() implies g0.cells@[k].hazard + hazard_count(g0, self.hazards@, k) <= u8::MAX by {
                assert(self.hazards@.len() == 0);
            }
        }
        self.fill_grid();
        proof {
            lemma_fill_blank(self.grid, g0, self.sv(), self.food@, self.hazards@);
        }
        let ghost g1 = self.grid;
        let ghost sv1 = self.sv();
        let ghost food1 = self.food@;
        assert(built(g1, sv1, food1, Seq::<Coord>::empty()));
        let n = self.grid.cells.len();
        assert(old_state.grid.cells@.len() == n);
        let mut k: usize = 0;
        while k < n
            invariant
                n == self.grid.cells@.len(),
                old_state.grid.cells@.len() == n,
                k <= n,
                self.turn == old(self).turn,
                self.snakes@ == old(self).snakes@,
                self.food@ == old(self).food@,
                self.hazards@ == Seq::<Coord>::empty(),
                self.mode == old(self).mode,
                sv1 == old(self).sv(),
                food1 == old(self).food@,
                built(g1, sv1, food1, Seq::<Coord>::empty()),
                same_dims(g1, old(self).grid),
                self.wf(),
                same_dims(self.grid, g1),
                self.grid.wf(),
                forall|q: int| 0 <= q < n ==> (#[trigger] self.grid.cells@[q]).cell == g1.cells@[q].cell,
                forall|q: int| 0 <= q < k ==> (#[trigger] self.grid.cells@[q]).hazard == decayed(old_state.grid.cells@[q].hazard),
                forall|q: int| k <= q < n ==> (#[trigger] self.grid.cells@[q]).hazard == 0,
            decreases n - k,
        {
            let h = old_state.grid.cells[k].hazard;
            if h > 1 {
                let mut c = self.grid.cells[k];
                c.hazard = h - 1;
                self.grid.cells[k] = c;
            }
            k = k + 1;
        }
        let ghost g2 = self.grid;
        let ghost olds = old_state.sv();
        let m = old_state.snakes.len();
        assert(olds.len() == m);
        let mut i: usize = 0;
        while i < m
            invariant
                m == old_state.snakes@.len(),
                olds == old_state.sv(),
                olds.len() == m,
                i <= m,
                self.turn == old(self).turn,
                self.snakes@ == old(self).snakes@,
                self.food@ == old(self).food@,
                self.hazards@ == Seq::<Coord>::empty(),
                self.mode == old(self).mode,
                sv1 == old(self).sv(),
                food1 == old(self).food@,
                built(g1, sv1, food1, Seq::<Coord>::empty()),
                same_dims(g1, old(self).grid),
                self.wf(),
                n == self.grid.cells@.len(),
                same_dims(self.grid, g1),
                same_dims(g1, old_state.grid),
                self.grid.wf(),
                old_state.wf(),
                forall|j: int| 0 <= j < old_state.snakes@.len() ==> (#[trigger] old_state.snakes@[j]).body@.len() >= 2,
                forall|q: int| 0 <= q < n ==> (#[trigger] self.grid.cells@[q]).cell == g1.cells@[q].cell,
                forall|q: int| 0 <= q < n ==> (#[trigger] self.grid.cells@[q]).hazard == if g1.cells@[q].cell is Snake {
                    decayed(old_state.grid.cells@[q].hazard)
                } else {
                    match deposit(g1, olds, i as int, q) {
                        Option::Some(v) => v,
                        Option::None => decayed(old_state.grid.cells@[q].hazard),
                    }
                },
            decreases m - i,
        {
            let old_snake = &old_state.snakes[i];
            assert(olds[i as int] == old_snake@);
            let len = old_snake.len();
            let tail = *old_snake.tail();
            if old_snake.is_alive() && tail != old_snake.body[len - 2] {
                assert(old_state.grid.contains_spec(olds[i as int].body[len - 1]));
                let q = self.grid.index_of(tail);
                let mut c = self.grid.cells[q];
                let is_body = match c.cell {
                    CellType::Snake(_) => true,
                    _ => false,
                };
                if !is_body {
                    c.hazard = #[verifier::truncate] (len as u8);
                    self.grid.cells[q] = c;
                }
            }
            i = i + 1;
        }
        proof {
            assert forall|k: int| 0 <= k < self.grid.cells@.len() implies (#[trigger] self.grid.cells@[k]).cell == fresh_base(self.grid, self.sv(), self.food@, k).cell by {
                crate::cell::lemma_marks_dims(self.grid, g1, self.sv(), self.sv().len() as int, k);
                crate::cell::lemma_food_dims(self.grid, g1, self.food@, k);
            }
            assert forall|k: int| 0 <= k < self.grid.cells@.len() implies deposit(g1, olds, olds.len() as int, k) == deposit(self.grid, olds, olds.len() as int, k) by {
                lemma_deposit_dims(g1, self.grid, olds, olds.len() as int, k);
            }
        }
    }
}

pub proof fn lemma_deposit_dims(a: Grid<CellGame>, b: Grid<CellGame>, olds: Seq<SnakeView>, n: int, k: int)
    requires
        same_dims(a, b),
    ensures
        deposit(a, olds, n, k) == deposit(b, olds, n, k),
    decreases n,
{
    if n > 0 {
        lemma_deposit_dims(a, b, olds, n - 1, k);
    }
}


impl State {
    /// The successor state after every snake makes its move in `actions`.
    pub fn step(&self, actions: &Vec<Direction>) -> (r: State)
        requires
            self.step_ready(actions@),
        ensures
            self.step_post(actions@, r),
    {
        if self.mode == Mode::Constrictor {
            return self.step_constrictor(actions);
        }
        proof {
            lemma_stepped_on_board(*self, actions@);
        }
        let moved = self.move_snakes(actions, false);
        let ghost m = views(moved@);
        assert forall|i: int| 0 <= i < moved@.len() implies (#[trigger] moved@[i]).body@.len() >= 2 by {
            assert(self.snakes@[i].body@.len() >= 2);
            assert(self.sv()[i] == self.snakes@[i]@);
            assert(m[i] == moved@[i]@);
        }
        let heads = check_head_collisions(&moved);
        let ghost h = views(heads@);
        assert forall|i: int| 0 <= i < heads@.len() implies (#[trigger] heads@[i]).body@.len() >= 2 by {
            assert(moved@[i].body@.len() >= 2);
            assert(m[i] == moved@[i]@);
            assert(h[i] == heads@[i]@);
        }
        let collided_snakes = self.check_collisions(&heads);
        let ghost c = views(collided_snakes@);
        assert(c == collided(*self, actions@));
        assert forall|i: int|
            0 <= i < collided_snakes@.len() && (#[trigger] collided_snakes@[i]).loss_reason == LossType::Alive
                implies self.grid.contains_spec(collided_snakes@[i]@.head()) && collided_snakes@[i].health
                >= i16::MIN + HAZARD_DAMAGE * 255 by {
            assert(c[i] == collided_snakes@[i]@);
            assert(heads@[i].body@.len() >= 2);
            assert(h[i] == heads@[i]@);
            assert(self.snakes@[i].body@.len() >= 2);
            assert(self.sv()[i] == self.snakes@[i]@);
            assert(self.sv()[i].alive());
            assert(self.grid.contains_spec(self.sv()[i].body[0]));
        }
        assert forall|i: int| 0 <= i < collided_snakes@.len() implies (#[trigger] collided_snakes@[i]).body@.len() >= 1 by {
            assert(heads@[i].body@.len() >= 2);
            assert(h[i] == heads@[i]@);
            assert(c[i] == collided_snakes@[i]@);
        }
        let (fed, eaten) = self.feed_snakes(&collided_snakes);
        let new_food = remaining_food(&self.food, &eaten);
        let ncells = self.grid.cells.len();
        assert(self.grid.width * self.grid.height == ncells);
        let mut new_state = State::new(
            self.turn + 1,
            fed,
            new_food,
            copy_coords(&self.hazards),
            self.grid.width,
            self.grid.height,
            self.grid.wrapped,
            self.mode,
        );
        new_state.kill_starved();
        let ghost g0 = new_state.grid;
        proof {
            assert(new_state.sv() =~= stepped_snakes(*self, actions@));
            lemma_kept_on_board(self.grid, self.food@, eaten@, self.food@.len() as int);
            assert forall|i: int| 0 <= i < new_state.snakes@.len() implies (#[trigger] new_state.snakes@[i]).body@.len() >= 1 by {
                assert(new_state.sv()[i] == new_state.snakes@[i]@);
            }
            assert forall|k: int| 0 <= k < g0.cells@.len() implies g0.cells@[k].hazard + hazard_count(g0, new_state.hazards@, k) <= u8::MAX by {
                lemma_hazard_dims(g0, self.grid, self.hazards@, k);
            }
        }
        if new_state.mode == Mode::Snail {
            new_state.apply_snail_mode(self);
        } else {
            new_state.fill_grid();
            proof {
                lemma_fill_blank(new_state.grid, g0, new_state.sv(), new_state.food@, new_state.hazards@);
            }
        }
        new_state
    }

    /// The constrictor turn: snakes grow every move, keep full health, and
    /// there is no food and no hazard.
    fn step_constrictor(&self, actions: &Vec<Direction>) -> (r: State)
        requires
            self.step_ready(actions@),
            self.mode == Mode::Constrictor,
        ensures
            self.step_post(actions@, r),
    {
        proof {
            lemma_stepped_on_board(*self, actions@);
        }
        let moved = self.move_snakes(actions, true);
        let ghost m = views(moved@);
        assert forall|i: int| 0 <= i < moved@.len() implies (#[trigger] moved@[i]).body@.len() >= 2 by {
            assert(self.snakes@[i].body@.len() >= 2);
            assert(self.sv()[i] == self.snakes@[i]@);
            assert(m[i] == moved@[i]@);
        }
        let heads = check_head_collisions(&moved);
        let ghost h = views(heads@);
        assert forall|i: int| 0 <= i < heads@.len() implies (#[trigger] heads@[i]).body@.len() >= 2 by {
            assert(moved@[i].body@.len() >= 2);
            assert(m[i] == moved@[i]@);
            assert(h[i] == heads@[i]@);
        }
        let collided_snakes = self.check_collisions(&heads);
        let ncells = self.grid.cells.len();
        assert(self.grid.width * self.grid.height == ncells);
        let mut new_state = State::new(
            self.turn + 1,
            collided_snakes,
            Vec::new(),
            Vec::new(),
            self.grid.width,
            self.grid.height,
            self.grid.wrapped,
            self.mode,
        );
        let ghost g0 = new_state.grid;
        proof {
            assert(new_state.sv() =~= stepped_snakes(*self, actions@));
            assert forall|i: int| 0 <= i < new_state.snakes@.len() implies (#[trigger] new_state.snakes@[i]).body@.len() >= 1 by {
                assert(new_state.sv()[i] == new_state.snakes@[i]@);
            }
            assert forall|k: int| 0 <= k < g0.cells@.len() implies g0.cells@[k].hazard + hazard_count(g0, new_state.hazards@, k) <= u8::MAX by {
                assert(new_state.hazards@.len() == 0);
            }
        }
        new_state.fill_grid();
        proof {
            lemma_fill_blank(new_state.grid, g0, new_state.sv(), new_state.food@, new_state.hazards@);
        }
        new_state
    }
}


proof fn lemma_alive_count_mono(a: Seq<SnakeView>, b: Seq<SnakeView>, n: int)
    requires
        0 <= n <= a.len(),
        n <= b.len(),
        forall|i: int| 0 <= i < n && (#[trigger] a[i]).alive() ==> b[i].alive(),
    ensures
        alive_count(a, n) <= alive_count(b, n),
    decreases n,
{
    if n > 0 {
        lemma_alive_count_mono(a, b, n - 1);
    }
}

/// A turn never brings a snake back: the number of living snakes does not grow.
pub proof fn lemma_alive_not_increasing(st: State, actions: Seq<Direction>, r: State)
    requires
        st.step_ready(actions),
        st.step_post(actions, r),
    ensures
        alive_count(r.sv(), r.sv().len() as int) <= alive_count(st.sv(), st.sv().len() as int),
{
    let n = st.sv().len() as int;
    assert forall|i: int| 0 <= i < n && (#[trigger] r.sv()[i]).alive() implies st.sv()[i].alive() by {
        assert(st.snakes@[i].body@.len() >= 2);
        assert(st.sv()[i] == st.snakes@[i]@);
    }
    lemma_alive_count_mono(r.sv(), st.sv(), n);
}

proof fn lemma_kept_len(food: Seq<Coord>, eaten: Seq<Coord>, n: int)
    requires
        0 <= n <= food.len(),
    ensures
        kept_food(food, eaten, n).len() <= n,
    decreases n,
{
    if n > 0 {
        lemma_kept_len(food, eaten, n - 1);
    }
}

/// A turn never adds food, and what it keeps is exactly the food that no
/// snake ate, in order.
pub proof fn lemma_food_not_increasing(st: State, actions: Seq<Direction>, r: State)
    requires
        st.step_ready(actions),
        st.step_post(actions, r),
    ensures
        r.food@.len() <= st.food@.len(),
        st.mode != Mode::Constrictor ==> r.food@ == kept_food(
            st.food@,
            eaten_heads(st.grid, collided(st, actions), st.snakes@.len() as int),
            st.food@.len() as int,
        ),
{
    let c = collided(st, actions);
    lemma_kept_len(st.food@, eaten_heads(st.grid, c, c.len() as int), st.food@.len() as int);
}

/// Stepping is deterministic: two successors of one state under one joint
/// move agree in every field, board cells included.
pub proof fn lemma_step_deterministic(st: State, actions: Seq<Direction>, r1: State, r2: State)
    requires
        st.step_ready(actions),
        st.step_post(actions, r1),
        st.step_post(actions, r2),
    ensures
        r1.turn == r2.turn,
        r1.mode == r2.mode,
        r1.sv() == r2.sv(),
        r1.food@ == r2.food@,
        r1.hazards@ == r2.hazards@,
        same_dims(r1.grid, r2.grid),
        r1.grid.cells@ == r2.grid.cells@,
{
    let g1 = r1.grid;
    let g2 = r2.grid;
    assert(g1.cells@.len() == g2.cells@.len());
    assert forall|k: int| 0 <= k < g1.cells@.len() implies g1.cells@[k] == g2.cells@[k] by {
        crate::cell::lemma_marks_dims(g1, g2, r1.sv(), r1.sv().len() as int, k);
        crate::cell::lemma_food_dims(g1, g2, r1.food@, k);
        lemma_hazard_dims(g1, g2, r1.hazards@, k);
        lemma_deposit_dims(g1, g2, st.sv(), st.sv().len() as int, k);
        assert(g1.cells@[k].cell == g2.cells@[k].cell);
        assert(g1.cells@[k].hazard == g2.cells@[k].hazard);
    }
    assert(g1.cells@ =~= g2.cells@);
}


/// The first `n` food coordinates that some eating snake's head is on.
pub open spec fn removed_food(food: Seq<Coord>, eaten: Seq<Coord>, n: int) -> Seq<Coord>
    decreases n,
{
    if n <= 0 {
        Seq::<Coord>::empty()
    } else if eaten.contains(food[n - 1]) {
        removed_food(food, eaten, n - 1).push(food[n - 1])
    } else {
        removed_food(food, eaten, n - 1)
    }
}

proof fn lemma_split_food(food: Seq<Coord>, eaten: Seq<Coord>, n: int)
    requires
        0 <= n <= food.len(),
        forall|a: int, b: int| 0 <= a < b < food.len() ==> food[a] != food[b],
    ensures
        kept_food(food, eaten, n).len() + removed_food(food, eaten, n).len() == n,
        removed_food(food, eaten, n).no_duplicates(),
        forall|x: Coord| #[trigger] removed_food(food, eaten, n).contains(x) <==> (eaten.contains(x) && exists|q: int| 0 <= q < n && food[q] == x),
    decreases n,
{
    if n > 0 {
        lemma_split_food(food, eaten, n - 1);
        let prev = removed_food(food, eaten, n - 1);
        let x = food[n - 1];
        if eaten.contains(x) {
            assert(!prev.contains(x)) by {
                if prev.contains(x) {
                    let q = choose|q: int| 0 <= q < n - 1 && food[q] == x;
                    assert(food[q] != food[n - 1]);
                }
            }
            assert forall|a: int, b: int| 0 <= a < b < prev.push(x).len() implies prev.push(x)[a] != prev.push(x)[b] by {
                if b == prev.len() {
                    assert(prev.contains(prev[a]));
                }
            }
        }
        assert forall|y: Coord| #[trigger] removed_food(food, eaten, n).contains(y) <==> (eaten.contains(y) && exists|q: int| 0 <= q < n && food[q] == y) by {
            if removed_food(food, eaten, n).contains(y) {
                if prev.contains(y) {
                    let q = choose|q: int| 0 <= q < n - 1 && food[q] == y;
                    assert(0 <= q < n && food[q] == y);
                } else {
                    let k = choose|k: int| 0 <= k < removed_food(food, eaten, n).len() && removed_food(food, eaten, n)[k] == y;
                    if k < prev.len() {
                        assert(prev.contains(y));
                    }
                    assert(food[n - 1] == y);
                }
            }
            if eaten.contains(y) && exists|q: int| 0 <= q < n && food[q] == y {
                let q = choose|q: int| 0 <= q < n && food[q] == y;
                if q < n - 1 {
                    assert(prev.contains(y));
                    let k = choose|k: int| 0 <= k < prev.len() && prev[k] == y;
                    if eaten.contains(x) {
                        assert(removed_food(food, eaten, n)[k] == y);
                    }
                } else {
                    assert(removed_food(food, eaten, n)[prev.len() as int] == y);
                }
            }
        }
    }
}

proof fn lemma_heads_apart(st: State, actions: Seq<Direction>, i: int, j: int)
    requires
        st.step_ready(actions),
        0 <= i < st.snakes@.len(),
        0 <= j < st.snakes@.len(),
        i != j,
        collided(st, actions)[i].alive(),
        collided(st, actions)[j].alive(),
    ensures
        collided(st, actions)[i].head() != collided(st, actions)[j].head(),
{
    let m = moved_all(st.sv(), actions, st.mode == Mode::Constrictor);
    let h = after_head_collisions(m);
    assert(st.snakes@[i].body@.len() >= 2);
    assert(st.snakes@[j].body@.len() >= 2);
    assert(st.sv()[i] == st.snakes@[i]@);
    assert(st.sv()[j] == st.snakes@[j]@);
    assert(h[i].alive() && h[j].alive());
    if m[i].head() == m[j].head() {
        if m[j].body.len() >= m[i].body.len() {
            assert(loses_head_on(m, i));
        } else {
            assert(loses_head_on(m, j));
        }
    }
}

proof fn lemma_eaten_heads(st: State, actions: Seq<Direction>, n: int)
    requires
        st.step_ready(actions),
        0 <= n <= st.snakes@.len(),
    ensures
        eaten_heads(st.grid, collided(st, actions), n).no_duplicates(),
        forall|a: int| #![trigger eaten_heads(st.grid, collided(st, actions), n)[a]] 0 <= a < eaten_heads(st.grid, collided(st, actions), n).len() ==> exists|i: int|
            0 <= i < n && eats(st.grid, #[trigger] collided(st, actions)[i]) && collided(st, actions)[i].head()
                == eaten_heads(st.grid, collided(st, actions), n)[a],
    decreases n,
{
    let c = collided(st, actions);
    if n > 0 {
        lemma_eaten_heads(st, actions, n - 1);
        let prev = eaten_heads(st.grid, c, n - 1);
        if eats(st.grid, c[n - 1]) {
            let x = c[n - 1].head();
            assert forall|a: int, b: int| 0 <= a < b < prev.push(x).len() implies prev.push(x)[a] != prev.push(x)[b] by {
                if b == prev.len() {
                    let i = choose|i: int| 0 <= i < n - 1 && eats(st.grid, #[trigger] c[i]) && c[i].head() == prev[a];
                    lemma_heads_apart(st, actions, i, n - 1);
                }
            }
        }
        let cur = eaten_heads(st.grid, c, n);
        assert forall|a: int| #![trigger cur[a]] 0 <= a < cur.len() implies exists|i: int|
            0 <= i < n && eats(st.grid, #[trigger] c[i]) && c[i].head() == cur[a] by {
            if eats(st.grid, c[n - 1]) {
                assert(cur == prev.push(c[n - 1].head()));
                if a < prev.len() {
                    assert(cur[a] == prev[a]);
                    let i = choose|i: int| 0 <= i < n - 1 && eats(st.grid, #[trigger] c[i]) && c[i].head() == prev[a];
                    assert(0 <= i < n && eats(st.grid, c[i]) && c[i].head() == cur[a]);
                } else {
                    assert(eats(st.grid, c[n - 1]) && c[n - 1].head() == cur[a]);
                }
            } else {
                assert(cur == prev);
                let i = choose|i: int| 0 <= i < n - 1 && eats(st.grid, #[trigger] c[i]) && c[i].head() == prev[a];
                assert(0 <= i < n && eats(st.grid, c[i]) && c[i].head() == cur[a]);
            }
        }
    }
}

/// On a plain board whose cells show its food list, with no food listed
/// twice, a turn removes exactly as many food items as snakes ate, and
/// every snake that ate is alive afterwards.
pub proof fn lemma_food_conservation(st: State, actions: Seq<Direction>, r: State)
    requires
        st.step_ready(actions),
        st.step_post(actions, r),
        st.mode != Mode::Constrictor,
        !st.grid.wrapped,
        built(st.grid, st.sv(), st.food@, st.hazards@),
        forall|a: int, b: int| 0 <= a < b < st.food@.len() ==> st.food@[a] != st.food@[b],
    ensures
        st.food@.len() - r.food@.len() == eaten_heads(st.grid, collided(st, actions), st.snakes@.len() as int).len(),
        forall|i: int| 0 <= i < st.snakes@.len() && eats(st.grid, #[trigger] collided(st, actions)[i]) ==> r.sv()[i].alive(),
{
    let g = st.grid;
    let c = collided(st, actions);
    let n = st.snakes@.len() as int;
    let e = eaten_heads(g, c, n);
    let food = st.food@;
    lemma_stepped_on_board(st, actions);
    lemma_eaten_heads(st, actions, n);
    lemma_split_food(food, e, food.len() as int);
    let rm = removed_food(food, e, food.len() as int);
    assert forall|a: int| #![trigger e[a]] 0 <= a < e.len() implies exists|q: int| 0 <= q < food.len() && food[q] == e[a] by {
        let i = choose|i: int| 0 <= i < n && eats(g, #[trigger] c[i]) && c[i].head() == e[a];
        let f = stepped_snakes(st, actions);
        assert(f[i].alive());
        assert(f[i].body[0] == c[i].head());
        assert(g.contains_spec(f[i].body[0]));
        let p = c[i].head();
        g.lemma_idx_bounds(p);
        let k = g.idx(p);
        assert(g.cells@[k].cell == CellType::Food);
        crate::cell::lemma_marks_kind(g, st.sv(), st.sv().len() as int, k);
        assert(crate::cell::food_on(g, food, k));
        let q = choose|q: int| 0 <= q < food.len() && #[trigger] g.idx(food[q]) == k;
        assert(g.contains_spec(food[q]));
        g.lemma_idx_bounds(food[q]);
        let w = g.width as int;
        let (x1, y1, x2, y2) = (p.x as int, p.y as int, food[q].x as int, food[q].y as int);
        assert(y1 * w + x1 == y2 * w + x2);
        assert(y1 == y2 && x1 == x2) by (nonlinear_arith)
            requires
                y1 * w + x1 == y2 * w + x2,
                0 <= x1 < w,
                0 <= x2 < w,
                0 <= y1,
                0 <= y2,
        ;
        assert(food[q] == p);
    }
    assert(rm.to_set() =~= e.to_set()) by {
        assert forall|x: Coord| rm.to_set().contains(x) <==> e.to_set().contains(x) by {
            if e.contains(x) {
                let a = choose|a: int| 0 <= a < e.len() && e[a] == x;
                assert(exists|q: int| 0 <= q < food.len() && food[q] == e[a]);
                assert(rm.contains(x));
            }
        }
    }
    rm.unique_seq_to_set();
    e.unique_seq_to_set();
    assert forall|i: int| 0 <= i < n && eats(g, #[trigger] c[i]) implies r.sv()[i].alive() by {
        assert(st.snakes@[i].body@.len() >= 2);
        assert(st.sv()[i] == st.snakes@[i]@);
    }
}


/// Everything a state's behaviour depends on, as mathematical values.
pub struct StateKey {
    pub turn: u32,
    pub snakes: Seq<SnakeView>,
    pub food: Seq<Coord>,
    pub hazards: Seq<Coord>,
    pub width: usize,
    pub height: usize,
    pub wrapped: bool,
    pub cells: Seq<CellGame>,
    pub mode: Mode,
}

pub open spec fn key(st: State) -> StateKey {
    StateKey {
        turn: st.turn,
        snakes: st.sv(),
        food: st.food@,
        hazards: st.hazards@,
        width: st.grid.width,
        height: st.grid.height,
        wrapped: st.grid.wrapped,
        cells: st.grid.cells@,
        mode: st.mode,
    }
}

/// Some state with the given key.
pub open spec fn rep(k: StateKey) -> State {
    choose|s: State| key(s) == k
}

/// The key of the state one turn after the states with key `k`, under `actions`.
pub open spec fn next_key(k: StateKey, actions: Seq<Direction>) -> StateKey {
    key(choose|r: State| rep(k).step_post(actions, r))
}

proof fn lemma_open_moves_same(a: State, b: State, s: SnakeView, j: int)
    requires
        key(a) == key(b),
    ensures
        open_moves(a.grid, s, j) == open_moves(b.grid, s, j),
    decreases j,
{
    if j > 0 {
        lemma_open_moves_same(a, b, s, j - 1);
    }
}

/// States with one key offer the same moves.
pub proof fn lemma_valid_actions_same(a: State, b: State, i: int)
    requires
        key(a) == key(b),
    ensures
        valid_actions_spec(a.grid, a.sv()[i]) == valid_actions_spec(b.grid, b.sv()[i]),
{
    lemma_open_moves_same(a, b, a.sv()[i], 4);
}

proof fn lemma_eaten_heads_same(a: Grid<CellGame>, b: Grid<CellGame>, c: Seq<SnakeView>, n: int)
    requires
        same_dims(a, b),
        a.cells@ == b.cells@,
    ensures
        eaten_heads(a, c, n) == eaten_heads(b, c, n),
    decreases n,
{
    if n > 0 {
        lemma_eaten_heads_same(a, b, c, n - 1);
    }
}

/// Readiness and successors depend on a state's key alone.
pub proof fn lemma_step_same(a: State, b: State, actions: Seq<Direction>, r: State)
    requires
        key(a) == key(b),
        a.step_ready(actions),
        a.step_post(actions, r),
    ensures
        b.step_ready(actions),
        b.step_post(actions, r),
{
    assert(a.sv() == b.sv());
    assert forall|i: int| 0 <= i < b.snakes@.len() implies (#[trigger] b.snakes@[i]).body@.len() >= 2 by {
        assert(a.snakes@[i].body@.len() >= 2);
        assert(a.sv()[i] == a.snakes@[i]@);
        assert(b.sv()[i] == b.snakes@[i]@);
    }
    assert forall|i: int| 0 <= i < b.snakes@.len() implies (#[trigger] b.snakes@[i]).body@.len() >= 1 by {
        assert(b.snakes@[i].body@.len() >= 2);
    }
    assert forall|k: int| 0 <= k < b.grid.cells@.len() implies hazard_count(b.grid, b.hazards@, k) <= u8::MAX by {
        lemma_hazard_dims(a.grid, b.grid, a.hazards@, k);
    }
    assert(b.step_ready(actions));
    let ca = collided(a, actions);
    let cb = collided(b, actions);
    assert(ca =~= cb);
    assert(stepped_snakes(a, actions) =~= stepped_snakes(b, actions));
    lemma_eaten_heads_same(a.grid, b.grid, ca, ca.len() as int);
    assert(stepped_food(a, actions) == stepped_food(b, actions));
    if a.mode == Mode::Snail {
        assert forall|k: int| 0 <= k < r.grid.cells@.len() implies deposit(r.grid, a.sv(), a.sv().len() as int, k) == deposit(r.grid, b.sv(), b.sv().len() as int, k) by {}
    }
}

/// The successor of a state has the key `next_key` names.
pub proof fn lemma_next_key(st: State, actions: Seq<Direction>, r: State)
    requires
        st.step_ready(actions),
        st.step_post(actions, r),
    ensures
        key(r) == next_key(key(st), actions),
{
    let k = key(st);
    assert(key(st) == k);
    let p = rep(k);
    assert(key(p) == k);
    lemma_step_same(st, p, actions, r);
    let r2 = choose|r2: State| p.step_post(actions, r2);
    assert(p.step_post(actions, r2));
    lemma_step_same(p, st, actions, r2);
    lemma_step_deterministic(st, actions, r, r2);
    assert(r.sv() == r2.sv());
    assert(key(r) == key(r2));
}


/// The first `n` eaten heads that are listed as food.
pub open spec fn listed_heads(eaten: Seq<Coord>, food: Seq<Coord>, n: int) -> Seq<Coord>
    decreases n,
{
    if n <= 0 {
        Seq::<Coord>::empty()
    } else if food.contains(eaten[n - 1]) {
        listed_heads(eaten, food, n - 1).push(eaten[n - 1])
    } else {
        listed_heads(eaten, food, n - 1)
    }
}

proof fn lemma_listed_heads(eaten: Seq<Coord>, food: Seq<Coord>, n: int)
    requires
        0 <= n <= eaten.len(),
        eaten.no_duplicates(),
    ensures
        listed_heads(eaten, food, n).no_duplicates(),
        forall|x: Coord| #[trigger] listed_heads(eaten, food, n).contains(x) <==> (food.contains(x) && exists|q: int| 0 <= q < n && eaten[q] == x),
    decreases n,
{
    if n > 0 {
        lemma_listed_heads(eaten, food, n - 1);
        let prev = listed_heads(eaten, food, n - 1);
        let x = eaten[n - 1];
        if food.contains(x) {
            assert(!prev.contains(x)) by {
                if prev.contains(x) {
                    let q = choose|q: int| 0 <= q < n - 1 && eaten[q] == x;
                    assert(eaten[q] != eaten[n - 1]);
                }
            }
            assert forall|a: int, b: int| 0 <= a < b < prev.push(x).len() implies prev.push(x)[a] != prev.push(x)[b] by {
                if b == prev.len() {
                    assert(prev.contains(prev[a]));
                }
            }
        }
        assert forall|y: Coord| #[trigger] listed_heads(eaten, food, n).contains(y) <==> (food.contains(y) && exists|q: int| 0 <= q < n && eaten[q] == y) by {
            if listed_heads(eaten, food, n).contains(y) {
                if prev.contains(y) {
                    let q = choose|q: int| 0 <= q < n - 1 && eaten[q] == y;
                    assert(0 <= q < n && eaten[q] == y);
                } else {
                    let k = choose|k: int| 0 <= k < listed_heads(eaten, food, n).len() && listed_heads(eaten, food, n)[k] == y;
                    if k < prev.len() {
                        assert(prev.contains(y));
                    }
                    assert(eaten[n - 1] == y);
                }
            }
            if food.contains(y) && exists|q: int| 0 <= q < n && eaten[q] == y {
                let q = choose|q: int| 0 <= q < n && eaten[q] == y;
                if q < n - 1 {
                    assert(prev.contains(y));
                    let k = choose|k: int| 0 <= k < prev.len() && prev[k] == y;
                    if food.contains(x) {
                        assert(listed_heads(eaten, food, n)[k] == y);
                    }
                } else {
                    assert(listed_heads(eaten, food, n)[prev.len() as int] == y);
                }
            }
        }
    }
}

/// On any board, with no food listed twice, a turn removes exactly as many
/// food items as there are snakes that ate on a cell whose coordinate is
/// listed as food (on a wrapped board a head may name a food cell by another
/// coordinate; that food stays listed).
pub proof fn lemma_food_removed_per_listed_head(st: State, actions: Seq<Direction>, r: State)
    requires
        st.step_ready(actions),
        st.step_post(actions, r),
        st.mode != Mode::Constrictor,
        forall|a: int, b: int| 0 <= a < b < st.food@.len() ==> st.food@[a] != st.food@[b],
    ensures
        ({
            let e = eaten_heads(st.grid, collided(st, actions), st.snakes@.len() as int);
            st.food@.len() - r.food@.len() == listed_heads(e, st.food@, e.len() as int).len()
        }),
{
    let g = st.grid;
    let c = collided(st, actions);
    let n = st.snakes@.len() as int;
    let e = eaten_heads(g, c, n);
    let food = st.food@;
    lemma_eaten_heads(st, actions, n);
    lemma_split_food(food, e, food.len() as int);
    lemma_listed_heads(e, food, e.len() as int);
    let rm = removed_food(food, e, food.len() as int);
    let lh = listed_heads(e, food, e.len() as int);
    assert(rm.to_set() =~= lh.to_set()) by {
        assert forall|x: Coord| rm.to_set().contains(x) <==> lh.to_set().contains(x) by {
            if lh.contains(x) {
                let q = choose|q: int| 0 <= q < e.len() && e[q] == x;
                assert(e.contains(x));
                let f = choose|f: int| 0 <= f < food.len() && food[f] == x;
                assert(exists|f2: int| 0 <= f2 < food.len() && food[f2] == x);
                assert(rm.contains(x));
            }
            if rm.contains(x) {
                assert(e.contains(x));
                let q = choose|q: int| 0 <= q < e.len() && e[q] == x;
                let f = choose|f: int| 0 <= f < food.len() && food[f] == x;
                assert(food.contains(x));
                assert(lh.contains(x));
            }
        }
    }
    rm.unique_seq_to_set();
    lh.unique_seq_to_set();
}


proof fn lemma_listed_prefix(e: Seq<Coord>, x: Coord, food: Seq<Coord>, m: int)
    requires
        0 <= m <= e.len(),
    ensures
        listed_heads(e.push(x), food, m) == listed_heads(e, food, m),
    decreases m,
{
    if m > 0 {
        lemma_listed_prefix(e, x, food, m - 1);
        assert(e.push(x)[m - 1] == e[m - 1]);
    }
}

/// Snakes among the first `n` that were alive, are alive after the turn, and
/// have their new head on a coordinate listed as food.
pub open spec fn fed_listed(st: State, r: State, n: int) -> nat
    decreases n,
{
    if n <= 0 {
        0
    } else {
        fed_listed(st, r, n - 1) + if st.sv()[n - 1].alive() && r.sv()[n - 1].alive() && st.food@.contains(r.sv()[n - 1].head()) {
            1nat
        } else {
            0nat
        }
    }
}

proof fn lemma_listed_count(st: State, actions: Seq<Direction>, r: State, n: int)
    requires
        st.step_ready(actions),
        st.step_post(actions, r),
        st.mode != Mode::Constrictor,
        built(st.grid, st.sv(), st.food@, st.hazards@),
        0 <= n <= st.snakes@.len(),
    ensures
        ({
            let e = eaten_heads(st.grid, collided(st, actions), n);
            listed_heads(e, st.food@, e.len() as int).len() == fed_listed(st, r, n)
        }),
    decreases n,
{
    let g = st.grid;
    let c = collided(st, actions);
    let food = st.food@;
    if n > 0 {
        lemma_listed_count(st, actions, r, n - 1);
        lemma_stepped_on_board(st, actions);
        let e = eaten_heads(g, c, n - 1);
        let i = n - 1;
        assert(st.snakes@[i].body@.len() >= 2);
        assert(st.sv()[i] == st.snakes@[i]@);
        let f = stepped_snakes(st, actions);
        assert(r.sv()[i] == f[i]);
        assert(f[i].body[0] == c[i].head());
        let cond = st.sv()[i].alive() && r.sv()[i].alive() && food.contains(r.sv()[i].head());
        if eats(g, c[i]) {
            lemma_listed_prefix(e, c[i].head(), food, e.len() as int);
            assert(eaten_heads(g, c, n) == e.push(c[i].head()));
            assert(r.sv()[i].alive());
            assert(cond == food.contains(c[i].head()));
        } else {
            assert(eaten_heads(g, c, n) == e);
            if cond {
                let h = c[i].head();
                assert(g.contains_spec(f[i].body[0]));
                g.lemma_idx_bounds(h);
                let fi = choose|fi: int| 0 <= fi < food.len() && food[fi] == h;
                assert(crate::cell::food_on(g, food, g.idx(h))) by {
                    assert(g.idx(food[fi]) == g.idx(h));
                }
                assert(g.cells@[g.idx(h)].cell == CellType::Food);
                assert(false);
            }
        }
    }
}

/// A turn removes exactly one food item per snake that was alive, is alive
/// after the turn, and has its new head on a coordinate listed as food —
/// on any board whose cells show its lists, with no food listed twice.
pub proof fn lemma_food_removed_per_snake(st: State, actions: Seq<Direction>, r: State)
    requires
        st.step_ready(actions),
        st.step_post(actions, r),
        st.mode != Mode::Constrictor,
        built(st.grid, st.sv(), st.food@, st.hazards@),
        forall|a: int, b: int| 0 <= a < b < st.food@.len() ==> st.food@[a] != st.food@[b],
    ensures
        st.food@.len() - r.food@.len() == fed_listed(st, r, st.snakes@.len() as int),
{
    lemma_food_removed_per_listed_head(st, actions, r);
    lemma_listed_count(st, actions, r, st.snakes@.len() as int);
}

} // verus!
