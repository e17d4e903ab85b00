//! A snake: health, body (head first) and how it lost, if it did.

use vstd::prelude::*;
use crate::game::{Coord, Direction, can_step, step_spec};

verus! {

/// Why a snake lost; `Alive` while it has not.
#[derive(Debug, Clone, Copy, PartialEq, Eq, Structural)]
pub enum LossType {
    OwnOrWallCollision,
    Starvation,
    SnakeCollision,
    HeadCollision,
    Alive,
}

impl Default for LossType {
    fn default() -> (r: LossType)
        ensures
            r == LossType::OwnOrWallCollision,
    {
        LossType::OwnOrWallCollision
    }
}

/// Health every snake is restored to by eating.
pub const FULL_HEALTH: i16 = 100;

#[derive(Debug, Clone)]
pub struct Snake {
    pub health: i16,
    pub body: Vec<Coord>,
    pub last_action: Direction,
    pub should_simulate: bool,
    pub loss_reason: LossType,
}

/// The mathematical value of a snake.
pub struct SnakeView {
    pub health: int,
    pub body: Seq<Coord>,
    pub last_action: Direction,
    pub should_simulate: bool,
    pub loss_reason: LossType,
}

impl View for Snake {
    type V = SnakeView;

    open spec fn view(&self) -> SnakeView {
        SnakeView {
            health: self.health as int,
            body: self.body@,
            last_action: self.last_action,
            should_simulate: self.should_simulate,
            loss_reason: self.loss_reason,
        }
    }
}

impl SnakeView {
    pub open spec fn alive(self) -> bool {
        self.loss_reason == LossType::Alive
    }

    pub open spec fn head(self) -> Coord {
        self.body[0]
    }

    pub open spec fn tail(self) -> Coord {
        self.body.last()
    }

    /// The tail cell is left free next turn: the snake did not just eat.
    pub open spec fn tail_moves(self) -> bool {
        self.body.len() == 1 || self.body.last() != self.body[self.body.len() - 2]
    }

    pub open spec fn killed(self, reason: LossType) -> SnakeView {
        SnakeView { loss_reason: reason, ..self }
    }

    pub open spec fn fed(self) -> SnakeView {
        SnakeView { health: FULL_HEALTH as int, body: self.body.push(self.body.last()), ..self }
    }

    /// One move: a new head in front, the tail dropped, one health spent.
    pub open spec fn moved(self, action: Direction) -> SnakeView {
        SnakeView {
            health: self.health - 1,
            body: seq![step_spec(self.head(), action)] + self.body.drop_last(),
            last_action: action,
            ..self
        }
    }

    /// One constrictor move: a new head in front, nothing dropped, full health.
    pub open spec fn moved_constrictor(self, action: Direction) -> SnakeView {
        SnakeView {
            health: FULL_HEALTH as int,
            body: seq![step_spec(self.head(), action)] + self.body,
            last_action: action,
            ..self
        }
    }
}

impl Snake {
    pub fn new(health: i16, body: Vec<Coord>, last_action: Direction) -> (r: Snake)
        ensures
            r@ == (SnakeView {
                health: health as int,
                body: body@,
                last_action,
                should_simulate: true,
                loss_reason: LossType::Alive,
            }),
    {
        Snake { health, body, last_action, should_simulate: true, loss_reason: LossType::Alive }
    }

    /// A copy with equal contents.
    pub fn duplicate(&self) -> (r: Snake)
        ensures
            r@ == self@,
    {
        let mut body: Vec<Coord> = Vec::with_capacity(self.body.len());
        let mut i: usize = 0;
        while i < self.body.len()
            invariant
                i <= self.body@.len(),
                body@ == self.body@.subrange(0, i as int),
            decreases self.body@.len() - i,
        {
            body.push(self.body[i]);
            i = i + 1;
            assert(body@ =~= self.body@.subrange(0, i as int));
        }
        assert(body@ =~= self.body@);
        Snake {
            health: self.health,
            body,
            last_action: self.last_action,
            should_simulate: self.should_simulate,
            loss_reason: self.loss_reason,
        }
    }

    pub fn head(&self) -> (r: Coord)
        requires
            self.body@.len() >= 1,
        ensures
            r == self@.head(),
    {
        self.body[0]
    }

    pub fn tail(&self) -> (r: &Coord)
        requires
            self.body@.len() >= 1,
        ensures
            *r == self@.tail(),
    {
        &self.body[self.body.len() - 1]
    }

    pub fn is_alive(&self) -> (r: bool)
        ensures
            r == self@.alive(),
    {
        self.loss_reason == LossType::Alive
    }

    pub fn die(&mut self, reason: LossType)
        ensures
            final(self)@ == old(self)@.killed(reason),
    {
        self.loss_reason = reason;
    }

    /// Full health, and the tail held for one more turn.
    pub fn eat(&mut self)
        requires
            old(self).body@.len() >= 1,
        ensures
            final(self)@ == old(self)@.fed(),
    {
        self.health = FULL_HEALTH;
        let t = *self.tail();
        self.body.push(t);
    }

    pub fn len(&self) -> (r: usize)
        ensures
            r == self.body@.len(),
    {
        self.body.len()
    }

    pub fn step(&self, action: Direction) -> (r: Snake)
        requires
            self.body@.len() >= 1,
            can_step(self@.head()),
            self.health > i16::MIN,
        ensures
            r@ == self@.moved(action),
    {
        let new_head = self.head().step(action);
        let used_body_len = self.body.len() - 1;
        let mut new_body: Vec<Coord> = Vec::with_capacity(self.body.len());
        new_body.push(new_head);
        let mut i: usize = 0;
        while i < used_body_len
            invariant
                used_body_len == self.body@.len() - 1,
                i <= used_body_len,
                new_body@ == seq![new_head] + self.body@.subrange(0, i as int),
            decreases used_body_len - i,
        {
            new_body.push(self.body[i]);
            i = i + 1;
            assert(new_body@ =~= seq![new_head] + self.body@.subrange(0, i as int));
        }
        assert(self.body@.drop_last() =~= self.body@.subrange(0, used_body_len as int));
        Snake {
            health: self.health - 1,
            body: new_body,
            last_action: action,
            should_simulate: self.should_simulate,
            loss_reason: self.loss_reason,
        }
    }

    pub fn step_constrictor(&self, action: Direction) -> (r: Snake)
        requires
            self.body@.len() >= 1,
            can_step(self@.head()),
        ensures
            r@ == self@.moved_constrictor(action),
    {
        let new_head = self.head().step(action);
        let mut new_body: Vec<Coord> = Vec::with_capacity(self.body.len());
        new_body.push(new_head);
        let mut i: usize = 0;
        while i < self.body.len()
            invariant
                i <= self.body@.len(),
                new_body@ == seq![new_head] + self.body@.subrange(0, i as int),
            decreases self.body@.len() - i,
        {
            new_body.push(self.body[i]);
            i = i + 1;
            assert(new_body@ =~= seq![new_head] + self.body@.subrange(0, i as int));
        }
        assert(self.body@ =~= self.body@.subrange(0, self.body@.len() as int));
        Snake {
            health: FULL_HEALTH,
            body: new_body,
            last_action: action,
            should_simulate: self.should_simulate,
            loss_reason: self.loss_reason,
        }
    }
}

} // verus!
