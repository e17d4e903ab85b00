//! Request handling that the library can decide on its own.

use vstd::prelude::*;
use vstd::string::StringExecFns;
use crate::game::{Battlesnake, GameState};
use crate::state::Mode;

verus! {

/// The leaf valuation used for a game.
#[derive(Debug, Clone, Copy, PartialEq, Eq, Structural)]
pub enum HeuristicKind {
    Constrictor,
    RoyaleDuels,
    Royale,
    Standard,
    Duels,
}

/// Constrictor games use the constrictor valuation; royale games the royale
/// duels one with two players and the royale one otherwise; standard games
/// the standard one; every other game the duels one.
pub open spec fn kind_spec(mode: Mode, player_count: nat) -> HeuristicKind {
    match mode {
        Mode::Constrictor => HeuristicKind::Constrictor,
        Mode::Royale => if player_count == 2 {
            HeuristicKind::RoyaleDuels
        } else {
            HeuristicKind::Royale
        },
        Mode::Standard => HeuristicKind::Standard,
        _ => HeuristicKind::Duels,
    }
}

/// The leaf valuation for a game of mode `mode` with `player_count` snakes on the board.
pub fn heuristic_kind(mode: Mode, player_count: usize) -> (r: HeuristicKind)
    ensures
        r == kind_spec(mode, player_count as nat),
{
    match mode {
        Mode::Constrictor => HeuristicKind::Constrictor,
        Mode::Royale => {
            if player_count == 2 {
                HeuristicKind::RoyaleDuels
            } else {
                HeuristicKind::Royale
            }
        },
        Mode::Standard => HeuristicKind::Standard,
        _ => HeuristicKind::Duels,
    }
}

/// The names of the first `n` snakes, separated by ", ".
pub open spec fn joined_names(bs: Seq<Battlesnake>, n: int) -> Seq<char>
    decreases n,
{
    if n <= 0 {
        Seq::<char>::empty()
    } else if n == 1 {
        bs[0].name@
    } else {
        joined_names(bs, n - 1) + ", "@ + bs[n - 1].name@
    }
}

/// The line announcing a new game: the board's snake names, separated by ", ".
pub fn handle_start(game_state: &GameState) -> (r: String)
    ensures
        r@ == joined_names(game_state.board.snakes@, game_state.board.snakes@.len() as int),
{
    let snakes = &game_state.board.snakes;
    let num_snakes = snakes.len();
    let mut names = String::new();
    let mut i: usize = 0;
    while i < num_snakes
        invariant
            num_snakes == snakes@.len(),
            i <= num_snakes,
            i < num_snakes ==> names@ == joined_names(snakes@, i as int) + (if i == 0 { Seq::<char>::empty() } else { ", "@ }),
            i == num_snakes ==> names@ == joined_names(snakes@, i as int),
        decreases num_snakes - i,
    {
        names.append(snakes[i].name.as_str());
        if i != num_snakes - 1 {
            names.append(", ");
        }
        i = i + 1;
        proof {
            if i == 1 {
                assert(joined_names(snakes@, 1) == snakes@[0].name@);
            }
        }
    }
    names
}

} // verus!
