//! Building a game state from the request payload.

use vstd::prelude::*;
use vstd::string::StringSliceAdditionalSpecFns;
use crate::game::{Battlesnake, Coord, Direction, GameState};
use crate::grid::Grid;
use crate::cell::{CellGame, views, hazard_count, built, lemma_fill_blank};
use crate::snake::{Snake, SnakeView, LossType};
use crate::state::{State, Mode, copy_coords};

verus! {

/// Why a payload cannot be turned into a game state.
#[derive(Debug, Clone, Copy, PartialEq, Eq, Structural)]
pub enum IngestError {
    /// A board side is zero or too large.
    BadBoard,
    /// More snakes than a cell can tell apart.
    TooManySnakes,
    /// A snake with fewer than two segments, which no turn can move.
    ShortBody,
    /// A segment or a food item lies off the board.
    OffBoard,
    /// More hazards stacked on one cell than it can count.
    HazardOverflow,
}

/// The rule variant a payload names, checked in this order: a ruleset name
/// that contains "constrictor", the snail map, the royale map, two snakes,
/// else standard.
pub open spec fn mode_spec(ruleset: Seq<char>, map: Seq<char>, n_snakes: nat) -> Mode {
    if has_part(vstd::utf8::encode_utf8(ruleset), "constrictor".spec_bytes()) {
        Mode::Constrictor
    } else if map == "snail_mode"@ {
        Mode::Snail
    } else if map == "royale"@ {
        Mode::Royale
    } else if n_snakes == 2 {
        Mode::Duels
    } else {
        Mode::Standard
    }
}

/// `needle` occurs in `hay`, byte for byte.
pub open spec fn has_part(hay: Seq<u8>, needle: Seq<u8>) -> bool {
    exists|i: int| 0 <= i && i + needle.len() <= hay.len() && #[trigger] hay.subrange(i, i + needle.len()) == needle
}

/// Whether the bytes of `needle` occur in `hay`.
pub fn contains_text(hay: &str, needle: &str) -> (r: bool)
    ensures
        r == has_part(hay.spec_bytes(), needle.spec_bytes()),
{
    let h = hay.as_bytes();
    let n = needle.as_bytes();
    let hl = h.len();
    let nl = n.len();
    if nl > hl {
        return false;
    }
    let mut i: usize = 0;
    while i <= hl - nl
        invariant
            hl == h@.len(),
            nl == n@.len(),
            h@ == hay.spec_bytes(),
            n@ == needle.spec_bytes(),
            n@.len() <= h@.len(),
            i <= h@.len() - n@.len() + 1,
            forall|q: int| 0 <= q < i ==> #[trigger] h@.subrange(q, q + n@.len()) != n@,
        decreases h@.len() - i,
    {
        let mut j: usize = 0;
        let mut same = true;
        while j < nl
            invariant
                hl == h@.len(),
                nl == n@.len(),
                h@ == hay.spec_bytes(),
                n@ == needle.spec_bytes(),
                i + n@.len() <= h@.len(),
                j <= n@.len(),
                same == forall|q: int| 0 <= q < j ==> h@[i + q] == n@[q],
            decreases n@.len() - j,
        {
            if h[i + j] != n[j] {
                same = false;
            }
            j = j + 1;
        }
        if same {
            assert(h@.subrange(i as int, i + n@.len()) =~= n@);
            return true;
        }
        assert(h@.subrange(i as int, i + n@.len()) != n@) by {
            let q = choose|q: int| 0 <= q < n@.len() && h@[i + q] != n@[q];
            assert(h@.subrange(i as int, i + n@.len())[q] == h@[i + q]);
        }
        i = i + 1;
    }
    false
}

/// The snake a payload entry describes: alive, simulated, no previous move.
pub open spec fn snake_of(b: Battlesnake) -> SnakeView {
    SnakeView {
        health: (b.health as i16) as int,
        body: b.body@,
        last_action: Direction::Stay,
        should_simulate: true,
        loss_reason: LossType::Alive,
    }
}

/// The snakes among the first `n` payload entries other than ours, in order.
pub open spec fn others(bs: Seq<Battlesnake>, you: Seq<char>, n: int) -> Seq<SnakeView>
    decreases n,
{
    if n <= 0 {
        Seq::<SnakeView>::empty()
    } else if bs[n - 1].id@ != you {
        others(bs, you, n - 1).push(snake_of(bs[n - 1]))
    } else {
        others(bs, you, n - 1)
    }
}

/// Our snake first, then every other snake of the board in order.
pub open spec fn snakes_of(gs: GameState) -> Seq<SnakeView> {
    seq![snake_of(gs.you)] + others(gs.board.snakes@, gs.you.id@, gs.board.snakes@.len() as int)
}

fn text(a: &String, b: &str) -> (r: bool)
    ensures
        r == (a@ == b@),
{
    *a == b.to_owned()
}

impl Snake {
    /// Our snake model of a payload entry.
    pub fn from_battlesnake(b: &Battlesnake) -> (r: Snake)
        ensures
            r@ == snake_of(*b),
    {
        let mut body: Vec<Coord> = Vec::with_capacity(b.body.len());
        let mut i: usize = 0;
        while i < b.body.len()
            invariant
                i <= b.body@.len(),
                body@ == b.body@.subrange(0, i as int),
            decreases b.body@.len() - i,
        {
            body.push(b.body[i]);
            i = i + 1;
            assert(body@ =~= b.body@.subrange(0, i as int));
        }
        assert(body@ =~= b.body@);
        Snake {
            health: #[verifier::truncate] (b.health as i16),
            body,
            last_action: Direction::Stay,
            should_simulate: true,
            loss_reason: LossType::Alive,
        }
    }
}

impl State {
    /// The rule variant of a payload.
    pub fn determine_mode(game_state: &GameState) -> (r: Mode)
        ensures
            r == mode_spec(game_state.game.ruleset.name@, game_state.game.map@, game_state.board.snakes@.len()),
    {
        if contains_text(game_state.game.ruleset.name.as_str(), "constrictor") {
            Mode::Constrictor
        } else if text(&game_state.game.map, "snail_mode") {
            Mode::Snail
        } else if text(&game_state.game.map, "royale") {
            Mode::Royale
        } else if game_state.board.snakes.len() == 2 {
            Mode::Duels
        } else {
            Mode::Standard
        }
    }
}


/// Whether a coordinate lies on a board of the given size.
pub open spec fn on_board(w: int, h: int, wrapped: bool, c: Coord) -> bool {
    wrapped || (0 <= c.x < w && 0 <= c.y < h)
}

/// How many of the hazards on a board of the given size fall on cell `k`.
pub open spec fn hazards_at(w: int, h: int, wrapped: bool, hz: Seq<Coord>, k: int) -> nat
    decreases hz.len(),
{
    if hz.len() == 0 {
        0
    } else {
        hazards_at(w, h, wrapped, hz.drop_last(), k) + if on_board(w, h, wrapped, hz.last()) && (if wrapped {
            (hz.last().y as int % h) * w + (hz.last().x as int % w)
        } else {
            hz.last().y * w + hz.last().x
        }) == k {
            1nat
        } else {
            0nat
        }
    }
}

proof fn lemma_hazards_at(g: Grid<CellGame>, hz: Seq<Coord>, k: int)
    ensures
        hazard_count(g, hz, k) == hazards_at(g.width as int, g.height as int, g.wrapped, hz, k),
    decreases hz.len(),
{
    if hz.len() > 0 {
        lemma_hazards_at(g, hz.drop_last(), k);
    }
}

pub open spec fn board_ok(gs: GameState) -> bool {
    0 < gs.board.width <= i32::MAX && 0 < gs.board.height <= i32::MAX && gs.board.width * gs.board.height
        <= usize::MAX
}

pub open spec fn wrapped_of(gs: GameState) -> bool {
    has_part(vstd::utf8::encode_utf8(gs.game.ruleset.name@), "wrapped".spec_bytes())
}

pub open spec fn all_on_board(gs: GameState) -> bool {
    let (w, h, wr) = (gs.board.width as int, gs.board.height as int, wrapped_of(gs));
    &&& forall|i: int, p: int|
        0 <= i < snakes_of(gs).len() && 0 <= p < snakes_of(gs)[i].body.len() ==> on_board(
            w,
            h,
            wr,
            #[trigger] snakes_of(gs)[i].body[p],
        )
    &&& forall|f: int| 0 <= f < gs.board.food@.len() ==> on_board(w, h, wr, #[trigger] gs.board.food@[f])
}

pub open spec fn hazards_fit(gs: GameState) -> bool {
    forall|k: int|
        0 <= k < gs.board.width * gs.board.height ==> #[trigger] hazards_at(
            gs.board.width as int,
            gs.board.height as int,
            wrapped_of(gs),
            gs.board.hazards@,
            k,
        ) <= u8::MAX
}

/// Which check a payload fails first, if any.
pub open spec fn ingest_error(gs: GameState) -> Option<IngestError> {
    if !board_ok(gs) {
        Some(IngestError::BadBoard)
    } else if snakes_of(gs).len() > 256 {
        Some(IngestError::TooManySnakes)
    } else if exists|i: int| 0 <= i < snakes_of(gs).len() && (#[trigger] snakes_of(gs)[i]).body.len() < 2 {
        Some(IngestError::ShortBody)
    } else if !all_on_board(gs) {
        Some(IngestError::OffBoard)
    } else if !hazards_fit(gs) {
        Some(IngestError::HazardOverflow)
    } else {
        None
    }
}

impl State {
    /// The game state a payload describes, with our snake at index 0 and the
    /// board built from the snakes, the food and the hazards.
    pub fn from_game_state(gs: &GameState) -> (r: Result<State, IngestError>)
        ensures
            ingest_error(*gs) is Some <==> r is Err,
            r is Err ==> r == Err::<State, IngestError>(ingest_error(*gs)->Some_0),
            r is Ok ==> ({
                let st = r->Ok_0;
                &&& st.wf()
                &&& st.turn == gs.turn
                &&& st.mode == mode_spec(gs.game.ruleset.name@, gs.game.map@, gs.board.snakes@.len())
                &&& st.grid.width == gs.board.width && st.grid.height == gs.board.height
                &&& st.grid.wrapped == wrapped_of(*gs)
                &&& st.sv() == snakes_of(*gs)
                &&& forall|i: int| 0 <= i < st.snakes@.len() ==> (#[trigger] st.snakes@[i]).body@.len() >= 2
                &&& st.food@ == gs.board.food@
                &&& st.hazards@ == gs.board.hazards@
                &&& built(st.grid, st.sv(), st.food@, st.hazards@)
            }),
    {
        let board = &gs.board;
        let wide = board.width as u64;
        let high = board.height as u64;
        if wide == 0 || high == 0 || wide > i32::MAX as u64 || high > i32::MAX as u64 {
            return Err(IngestError::BadBoard);
        }
        assert(wide * high <= 0x4000_0000_0000_0000) by (nonlinear_arith)
            requires wide <= i32::MAX, high <= i32::MAX;
        if wide * high > usize::MAX as u64 {
            return Err(IngestError::BadBoard);
        }
        assert(board_ok(*gs));
        let width = board.width as usize;
        let height = board.height as usize;
        let wrapped = contains_text(gs.game.ruleset.name.as_str(), "wrapped");
        let mut snakes: Vec<Snake> = Vec::new();
        snakes.push(Snake::from_battlesnake(&gs.you));
        let mut i: usize = 0;
        while i < board.snakes.len()
            invariant
                i <= board.snakes@.len(),
                views(snakes@) == seq![snake_of(gs.you)] + others(board.snakes@, gs.you.id@, i as int),
            decreases board.snakes@.len() - i,
        {
            let b = &board.snakes[i];
            let ghost prev = snakes@;
            if !(b.id == gs.you.id) {
                let ns = Snake::from_battlesnake(b);
                snakes.push(ns);
                assert(views(snakes@) =~= views(prev).push(ns@));
                assert(seq![snake_of(gs.you)] + others(board.snakes@, gs.you.id@, i as int).push(snake_of(*b))
                    =~= (seq![snake_of(gs.you)] + others(board.snakes@, gs.you.id@, i as int)).push(snake_of(*b)));
            }
            i = i + 1;
            assert(views(snakes@) =~= seq![snake_of(gs.you)] + others(board.snakes@, gs.you.id@, i as int));
        }
        let ghost sv = views(snakes@);
        assert(sv == snakes_of(*gs));
        if snakes.len() > 256 {
            return Err(IngestError::TooManySnakes);
        }
        let mut j: usize = 0;
        while j < snakes.len()
            invariant
                sv == views(snakes@),
                sv == snakes_of(*gs),
                board_ok(*gs),
                snakes@.len() <= 256,
                sv.len() == snakes@.len(),
                j <= snakes@.len(),
                forall|q: int| 0 <= q < j ==> (#[trigger] sv[q]).body.len() >= 2,
            decreases snakes@.len() - j,
        {
            assert(sv[j as int] == snakes@[j as int]@);
            if snakes[j].body.len() < 2 {
                assert(snakes_of(*gs)[j as int].body.len() < 2);
                return Err(IngestError::ShortBody);
            }
            j = j + 1;
        }
        let state0 = State::new(gs.turn, snakes, copy_coords(&board.food), copy_coords(&board.hazards), width, height, wrapped, Mode::Standard);
        let grid = &state0.grid;
        let mut a: usize = 0;
        while a < state0.snakes.len()
            invariant
                sv == state0.sv(),
                sv == snakes_of(*gs),
                board_ok(*gs),
                wrapped == wrapped_of(*gs),
                width == gs.board.width && height == gs.board.height,
                state0.snakes@.len() <= 256,
                forall|q: int| 0 <= q < sv.len() ==> (#[trigger] sv[q]).body.len() >= 2,
                grid == &state0.grid,
                grid.wf(),
                grid.width == width && grid.height == height && grid.wrapped == wrapped,
                a <= state0.snakes@.len(),
                forall|q: int, p: int| 0 <= q < a && 0 <= p < sv[q].body.len() ==> grid.contains_spec(#[trigger] sv[q].body[p]),
            decreases state0.snakes@.len() - a,
        {
            let s = &state0.snakes[a];
            assert(sv[a as int] == s@);
            let mut p: usize = 0;
            while p < s.body.len()
                invariant
                    sv == state0.sv(),
                    sv == snakes_of(*gs),
                    board_ok(*gs),
                    wrapped == wrapped_of(*gs),
                    width == gs.board.width && height == gs.board.height,
                    state0.snakes@.len() <= 256,
                    forall|q: int| 0 <= q < sv.len() ==> (#[trigger] sv[q]).body.len() >= 2,
                    grid == &state0.grid,
                    grid.wf(),
                    grid.width == width && grid.height == height && grid.wrapped == wrapped,
                    a < state0.snakes@.len(),
                    sv[a as int] == s@,
                    p <= s.body@.len(),
                    forall|q: int, pp: int| 0 <= q < a && 0 <= pp < sv[q].body.len() ==> grid.contains_spec(#[trigger] sv[q].body[pp]),
                    forall|pp: int| 0 <= pp < p ==> grid.contains_spec(#[trigger] sv[a as int].body[pp]),
                decreases s.body@.len() - p,
            {
                if !grid.contains(s.body[p]) {
                    assert(!on_board(width as int, height as int, wrapped_of(*gs), snakes_of(*gs)[a as int].body[p as int]));
                    return Err(IngestError::OffBoard);
                }
                p = p + 1;
            }
            a = a + 1;
        }
        let mut f: usize = 0;
        while f < state0.food.len()
            invariant
                sv == state0.sv(),
                sv == snakes_of(*gs),
                board_ok(*gs),
                wrapped == wrapped_of(*gs),
                width == gs.board.width && height == gs.board.height,
                state0.snakes@.len() <= 256,
                state0.food@ == gs.board.food@,
                forall|q: int| 0 <= q < sv.len() ==> (#[trigger] sv[q]).body.len() >= 2,
                forall|q: int, pp: int| 0 <= q < sv.len() && 0 <= pp < sv[q].body.len() ==> grid.contains_spec(#[trigger] sv[q].body[pp]),
                grid == &state0.grid,
                grid.wf(),
                grid.width == width && grid.height == height && grid.wrapped == wrapped,
                f <= state0.food@.len(),
                forall|q: int| 0 <= q < f ==> grid.contains_spec(#[trigger] state0.food@[q]),
            decreases state0.food@.len() - f,
        {
            if !grid.contains(state0.food[f]) {
                assert(!on_board(width as int, height as int, wrapped_of(*gs), gs.board.food@[f as int]));
                return Err(IngestError::OffBoard);
            }
            f = f + 1;
        }
        assert(all_on_board(*gs));
        let ncells = grid.cells.len();
        let mut counts: Vec<usize> = Vec::with_capacity(ncells);
        let mut c: usize = 0;
        while c < ncells
            invariant
                c <= ncells,
                counts@.len() == c,
                forall|k: int| 0 <= k < c ==> counts@[k] == 0,
            decreases ncells - c,
        {
            counts.push(0);
            c = c + 1;
        }
        let mut hzi: usize = 0;
        while hzi < state0.hazards.len()
            invariant
                grid == &state0.grid,
                grid.wf(),
                ncells == grid.cells@.len(),
                counts@.len() == ncells,
                hzi <= state0.hazards@.len(),
                forall|k: int| 0 <= k < ncells ==> #[trigger] counts@[k] == hazard_count(*grid, state0.hazards@.subrange(0, hzi as int), k),
                forall|k: int| 0 <= k < ncells ==> counts@[k] <= hzi,
            decreases state0.hazards@.len() - hzi,
        {
            let pos = state0.hazards[hzi];
            let ghost pre = state0.hazards@.subrange(0, hzi as int);
            let ghost post = state0.hazards@.subrange(0, hzi + 1);
            assert(post.drop_last() =~= pre);
            if grid.contains(pos) {
                let k = grid.index_of(pos);
                let v = counts[k];
                counts[k] = v + 1;
            }
            hzi = hzi + 1;
        }
        assert(state0.hazards@.subrange(0, state0.hazards@.len() as int) =~= state0.hazards@);
        let mut k: usize = 0;
        while k < ncells
            invariant
                sv == state0.sv(),
                sv == snakes_of(*gs),
                board_ok(*gs),
                all_on_board(*gs),
                wrapped == wrapped_of(*gs),
                width == gs.board.width && height == gs.board.height,
                state0.snakes@.len() <= 256,
                state0.hazards@ == gs.board.hazards@,
                grid.width == width && grid.height == height && grid.wrapped == wrapped,
                grid.wf(),
                forall|q: int| 0 <= q < sv.len() ==> (#[trigger] sv[q]).body.len() >= 2,
                grid == &state0.grid,
                ncells == grid.cells@.len(),
                counts@.len() == ncells,
                k <= ncells,
                forall|q: int| 0 <= q < ncells ==> #[trigger] counts@[q] == hazard_count(*grid, state0.hazards@, q),
                forall|q: int| 0 <= q < k ==> hazard_count(*grid, state0.hazards@, q) <= u8::MAX,
            decreases ncells - k,
        {
            if counts[k] > 255 {
                proof {
                    lemma_hazards_at(*grid, state0.hazards@, k as int);
                    assert(hazards_at(gs.board.width as int, gs.board.height as int, wrapped_of(*gs), gs.board.hazards@, k as int) > u8::MAX);
                    assert(!hazards_fit(*gs));
                }
                return Err(IngestError::HazardOverflow);
            }
            k = k + 1;
        }
        let mut st = state0;
        st.mode = State::determine_mode(gs);
        let ghost g0 = st.grid;
        assert forall|q: int| 0 <= q < st.snakes@.len() implies (#[trigger] st.snakes@[q]).body@.len() >= 2 by {
            assert(sv[q] == st.snakes@[q]@);
        }
        assert(st.wf());
        st.fill_grid();
        proof {
            lemma_fill_blank(st.grid, g0, st.sv(), st.food@, st.hazards@);
            assert forall|k: int| 0 <= k < gs.board.width * gs.board.height implies #[trigger] hazards_at(
                gs.board.width as int, gs.board.height as int, wrapped_of(*gs), gs.board.hazards@, k) <= u8::MAX by {
                lemma_hazards_at(g0, st.hazards@, k);
            }
        }
        Ok(st)
    }
}

} // verus!
