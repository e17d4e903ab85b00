//! Leaf values of the search and their ordering.

use vstd::prelude::*;
use crate::snake::LossType;

verus! {

/// Value of a searched position. `Heuristic` and `Win` carry thousandths
/// of a point: a heuristic estimate, and a tie-break between wins.
#[derive(Debug, Clone, Copy, PartialEq, Eq, Structural)]
pub enum Outcome {
    Loss(LossType),
    Draw,
    Heuristic(i64),
    Win(i64),
}

/// One point, in the units of `Outcome` payloads and scores.
pub const POINT: i128 = 1000;

/// Rank of a loss type: worse losses rank lower, `Alive` highest.
pub open spec fn loss_rank(l: LossType) -> int {
    match l {
        LossType::OwnOrWallCollision => 0,
        LossType::Starvation => 1,
        LossType::SnakeCollision => 2,
        LossType::HeadCollision => 3,
        LossType::Alive => 4,
    }
}

pub open spec fn variant_rank(o: Outcome) -> int {
    match o {
        Outcome::Loss(_) => 0,
        Outcome::Draw => 1,
        Outcome::Heuristic(_) => 2,
        Outcome::Win(_) => 3,
    }
}

/// The order of outcomes: by variant (Loss < Draw < Heuristic < Win), then
/// by loss rank or by payload.
pub open spec fn outcome_lt(a: Outcome, b: Outcome) -> bool {
    if variant_rank(a) != variant_rank(b) {
        variant_rank(a) < variant_rank(b)
    } else {
        match (a, b) {
            (Outcome::Loss(x), Outcome::Loss(y)) => loss_rank(x) < loss_rank(y),
            (Outcome::Heuristic(x), Outcome::Heuristic(y)) => x < y,
            (Outcome::Win(x), Outcome::Win(y)) => x < y,
            _ => false,
        }
    }
}

/// The numeric score of an outcome, in thousandths of a point. A loss of a
/// snake that is alive is no outcome of a game; it is given a score only so
/// that the function is total.
pub open spec fn score(o: Outcome) -> int {
    match o {
        Outcome::Win(t) => 1_000_000 * POINT + t,
        Outcome::Loss(reason) => match reason {
            LossType::OwnOrWallCollision => -1_000_010 * POINT,
            LossType::Starvation => -1_000_008 * POINT,
            LossType::SnakeCollision => -1_000_006 * POINT,
            LossType::HeadCollision => -1_000_004 * POINT,
            LossType::Alive => -1_000_002 * POINT,
        },
        Outcome::Draw => -1000 * POINT,
        Outcome::Heuristic(v) => v as int,
    }
}

impl LossType {
    pub fn rank(&self) -> (r: u8)
        ensures
            r == loss_rank(*self),
    {
        match self {
            LossType::OwnOrWallCollision => 0,
            LossType::Starvation => 1,
            LossType::SnakeCollision => 2,
            LossType::HeadCollision => 3,
            LossType::Alive => 4,
        }
    }
}

impl Outcome {
    /// The numeric score: wins above a million points, losses below minus a
    /// million (worse kinds lower), a draw at minus a thousand points.
    pub fn get_score(&self) -> (r: i128)
        requires
            *self != Outcome::Loss(LossType::Alive),
        ensures
            r == score(*self),
    {
        match self {
            Outcome::Win(t) => 1_000_000 * POINT + *t as i128,
            Outcome::Loss(reason) => match reason {
                LossType::OwnOrWallCollision => -1_000_010 * POINT,
                LossType::Starvation => -1_000_008 * POINT,
                LossType::SnakeCollision => -1_000_006 * POINT,
                LossType::HeadCollision => -1_000_004 * POINT,
                LossType::Alive => -1_000_002 * POINT,
            },
            Outcome::Draw => -1000 * POINT,
            Outcome::Heuristic(v) => *v as i128,
        }
    }

    fn variant(&self) -> (r: u8)
        ensures
            r == variant_rank(*self),
    {
        match self {
            Outcome::Loss(_) => 0,
            Outcome::Draw => 1,
            Outcome::Heuristic(_) => 2,
            Outcome::Win(_) => 3,
        }
    }

    /// Whether `self` comes strictly before `other` in the outcome order.
    pub fn is_worse_than(&self, other: &Outcome) -> (r: bool)
        ensures
            r == outcome_lt(*self, *other),
    {
        let a = self.variant();
        let b = other.variant();
        if a != b {
            return a < b;
        }
        match (self, other) {
            (Outcome::Loss(x), Outcome::Loss(y)) => x.rank() < y.rank(),
            (Outcome::Heuristic(x), Outcome::Heuristic(y)) => *x < *y,
            (Outcome::Win(x), Outcome::Win(y)) => *x < *y,
            _ => false,
        }
    }
}

/// Heuristic values and win tie-breaks inside this band keep every terminal
/// outcome apart from every estimate.
pub const SCORE_BAND: i64 = 500_000_000;

/// Every loss scores below every heuristic estimate, every win above it, and
/// a draw lies above every loss and below every estimate that is not negative.
pub proof fn lemma_outcome_ordering(l: LossType, h: i64, t: i64)
    requires
        l != LossType::Alive,
        -SCORE_BAND < h < SCORE_BAND,
        -SCORE_BAND < t < SCORE_BAND,
    ensures
        score(Outcome::Loss(l)) < score(Outcome::Heuristic(h)),
        score(Outcome::Heuristic(h)) < score(Outcome::Win(t)),
        score(Outcome::Loss(l)) < score(Outcome::Draw),
        h >= 0 ==> score(Outcome::Draw) < score(Outcome::Heuristic(h)),
{
}

} // verus!
