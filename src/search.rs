//! Paranoid alpha-beta search: our snake maximises, all other snakes
//! together minimise.

use vstd::prelude::*;
use itertools::Itertools;
use crate::game::{Direction, dir_index, alive_actions};
use crate::snake::LossType;
use crate::outcome::{Outcome, POINT, score, outcome_lt};
use crate::state::{State, StateKey, alive_count, valid_actions_spec, open_moves, key, rep, next_key, lemma_next_key, lemma_valid_actions_same};
use crate::node::{Node, lemma_ready_step};

verus! {

/// The search window: values at or below `alpha` are already secured for
/// us, values at or above `beta` are already refuted by the opponents.
#[derive(Debug, Clone, Copy)]
pub struct AlphaBeta {
    pub alpha: i128,
    pub beta: i128,
}

impl AlphaBeta {
    pub fn new(a: i128, b: i128) -> (r: AlphaBeta)
        ensures
            r.alpha == a,
            r.beta == b,
    {
        AlphaBeta { alpha: a, beta: b }
    }

    /// The window is empty.
    pub fn should_abort(&self) -> (r: bool)
        ensures
            r == (self.alpha >= self.beta),
    {
        self.alpha >= self.beta
    }
}

/// The search algorithms a caller can ask for.
#[derive(Debug, Clone, Copy, PartialEq, Eq, Structural)]
pub enum TreeAlgorithm {
    Minimax,
    MaxN,
    AlphaBeta,
    AlphabetaMultithread,
}

/// Every way to pick one entry from each list, the last list varying fastest.
pub open spec fn product(sets: Seq<Seq<Direction>>) -> Seq<Seq<Direction>>
    decreases sets.len(),
{
    if sets.len() == 0 {
        seq![Seq::<Direction>::empty()]
    } else {
        let rest = product(sets.drop_first());
        sets[0].map_values(|d: Direction| rest.map_values(|t: Seq<Direction>| seq![d] + t)).flatten()
    }
}

proof fn lemma_flatten_all(ss: Seq<Seq<Seq<Direction>>>, p: spec_fn(Seq<Direction>) -> bool)
    requires
        forall|i: int, j: int| 0 <= i < ss.len() && 0 <= j < ss[i].len() ==> p(#[trigger] ss[i][j]),
    ensures
        forall|k: int| 0 <= k < ss.flatten().len() ==> p(#[trigger] ss.flatten()[k]),
    decreases ss.len(),
{
    if ss.len() > 0 {
        let rest = ss.drop_first();
        assert forall|i: int, j: int| 0 <= i < rest.len() && 0 <= j < rest[i].len() implies p(#[trigger] rest[i][j]) by {
            assert(rest[i] == ss[i + 1]);
        }
        lemma_flatten_all(rest, p);
        assert(ss.flatten() == ss[0] + rest.flatten());
        assert forall|k: int| 0 <= k < ss.flatten().len() implies p(#[trigger] ss.flatten()[k]) by {
            if k < ss[0].len() {
                assert(ss.flatten()[k] == ss[0][k]);
            } else {
                assert(ss.flatten()[k] == rest.flatten()[k - ss[0].len()]);
            }
        }
    }
}

/// Every entry of every list is a real move.
pub open spec fn real_rows(sets: Seq<Seq<Direction>>) -> bool {
    forall|i: int, j: int| 0 <= i < sets.len() && 0 <= j < sets[i].len() ==> dir_index(#[trigger] sets[i][j]) < 4
}

/// Picking one entry of each list of real moves gives a joint move of real moves.
pub proof fn lemma_product_real(sets: Seq<Seq<Direction>>)
    requires
        real_rows(sets),
    ensures
        forall|k: int, i: int|
            0 <= k < product(sets).len() && 0 <= i < product(sets)[k].len() ==> dir_index(
                #[trigger] product(sets)[k][i],
            ) < 4,
    decreases sets.len(),
{
    if sets.len() > 0 {
        let rest_sets = sets.drop_first();
        assert(real_rows(rest_sets)) by {
            assert forall|i: int, j: int| 0 <= i < rest_sets.len() && 0 <= j < rest_sets[i].len() implies dir_index(
                #[trigger] rest_sets[i][j],
            ) < 4 by {
                assert(rest_sets[i] == sets[i + 1]);
            }
        }
        lemma_product_real(rest_sets);
        let rest = product(rest_sets);
        let ss = sets[0].map_values(|d: Direction| rest.map_values(|t: Seq<Direction>| seq![d] + t));
        let p = |t: Seq<Direction>| forall|i: int| 0 <= i < t.len() ==> dir_index(#[trigger] t[i]) < 4;
        assert forall|a: int, b: int| 0 <= a < ss.len() && 0 <= b < ss[a].len() implies p(#[trigger] ss[a][b]) by {
            let d = sets[0][a];
            assert(dir_index(sets[0][a]) < 4);
            assert(ss[a][b] == seq![d] + rest[b]);
            assert forall|i: int| 0 <= i < ss[a][b].len() implies dir_index(#[trigger] ss[a][b][i]) < 4 by {
                if i > 0 {
                    assert(ss[a][b][i] == rest[b][i - 1]);
                }
            }
        }
        lemma_flatten_all(ss, p);
        assert(product(sets) == ss.flatten());
        assert forall|k: int, i: int|
            0 <= k < product(sets).len() && 0 <= i < product(sets)[k].len() implies dir_index(
                #[trigger] product(sets)[k][i],
            ) < 4 by {
            assert(p(ss.flatten()[k]));
        }
    }
}

pub open spec fn vviews(v: Seq<Vec<Direction>>) -> Seq<Seq<Direction>> {
    v.map_values(|x: Vec<Direction>| x@)
}

/// Relies on itertools' `Itertools::multi_cartesian_product` (with
/// `collect`): every choice of one entry per list, in odometer order with the
/// last list varying fastest, each choice holding one entry per list; no
/// choice when some list is empty. With no lists at all the adaptor yields
/// nothing, unlike the product, so at least one list is required.
#[verifier::external_body]
pub(crate) fn joint_actions(sets: Vec<Vec<Direction>>) -> (r: Vec<Vec<Direction>>)
    requires
        sets@.len() >= 1,
    ensures
        vviews(r@) == product(vviews(sets@)),
        forall|i: int| 0 <= i < r@.len() ==> (#[trigger] r@[i])@.len() == sets@.len(),
{
    sets.into_iter().multi_cartesian_product().collect()
}

/// The index of the first outcome with the highest score.
pub open spec fn best_index(os: Seq<Outcome>) -> int {
    if score(os[0]) >= score(os[1]) && score(os[0]) >= score(os[2]) && score(os[0]) >= score(os[3]) {
        0
    } else if score(os[1]) >= score(os[2]) && score(os[1]) >= score(os[3]) {
        1
    } else if score(os[2]) >= score(os[3]) {
        2
    } else {
        3
    }
}

pub open spec fn valid_outcome(o: Outcome) -> bool {
    o != Outcome::Loss(LossType::Alive)
}

/// The move with the highest-scoring outcome, with its outcome; ties go to
/// the earlier move in the order Up, Right, Down, Left.
pub fn get_best_action(outcomes: [Outcome; 4]) -> (r: (Direction, Outcome))
    requires
        forall|i: int| 0 <= i < 4 ==> valid_outcome(#[trigger] outcomes@[i]),
    ensures
        dir_index(r.0) == best_index(outcomes@),
        r.1 == outcomes@[best_index(outcomes@)],
        forall|i: int| 0 <= i < 4 ==> score(#[trigger] outcomes@[i]) <= score(r.1),
        forall|i: int| 0 <= i < best_index(outcomes@) ==> score(#[trigger] outcomes@[i]) < score(r.1),
{
    let s0 = outcomes[0].get_score();
    let s1 = outcomes[1].get_score();
    let s2 = outcomes[2].get_score();
    let s3 = outcomes[3].get_score();
    let i: usize = if s0 >= s1 && s0 >= s2 && s0 >= s3 {
        0
    } else if s1 >= s2 && s1 >= s3 {
        1
    } else if s2 >= s3 {
        2
    } else {
        3
    };
    (Direction::from_index(i), outcomes[i])
}

/// The outcome of an end state for our snake: a draw when nobody is left,
/// a win when we are the survivor, its tie-break minus our length in
/// thousandths of a point (a shorter winner ranks higher), else a loss.
pub open spec fn end_outcome(st: State) -> Outcome {
    if forall|j: int| 0 <= j < st.sv().len() ==> !(#[trigger] st.sv()[j]).alive() {
        Outcome::Draw
    } else if st.sv()[0].alive() {
        Outcome::Win(-(st.sv()[0].body.len() * POINT) as i64)
    } else {
        Outcome::Loss(st.sv()[0].loss_reason)
    }
}

pub proof fn lemma_open_moves_real(g: crate::grid::Grid<crate::cell::CellGame>, s: crate::snake::SnakeView, j: int)
    requires
        0 <= j <= 4,
    ensures
        forall|i: int| 0 <= i < open_moves(g, s, j).len() ==> dir_index(#[trigger] open_moves(g, s, j)[i]) < 4,
    decreases j,
{
    if j > 0 {
        lemma_open_moves_real(g, s, j - 1);
        let prev = open_moves(g, s, j - 1);
        assert(dir_index(alive_actions()[j - 1]) < 4);
        assert forall|i: int| 0 <= i < open_moves(g, s, j).len() implies dir_index(#[trigger] open_moves(g, s, j)[i]) < 4 by {
            if i < prev.len() {
                assert(dir_index(prev[i]) < 4);
            }
        }
    }
}

/// A heuristic that values states with one key alike.
pub open spec fn det_heuristic<H: Fn(&State) -> i64>(h: H) -> bool {
    forall|s1: &State, s2: &State, v1: i64, v2: i64|
        key(*s1) == key(*s2) && #[trigger] h.ensures((s1,), v1) && #[trigger] h.ensures((s2,), v2) ==> v1 == v2
}

/// An abort check that always fires.
pub open spec fn always_aborts<A: Fn() -> bool>(a: A) -> bool {
    forall|b: bool| #[trigger] a.ensures((), b) ==> b
}

/// An abort check that never fires.
pub open spec fn never_aborts<A: Fn() -> bool>(a: A) -> bool {
    forall|b: bool| #[trigger] a.ensures((), b) ==> !b
}

/// The heuristic gives `v` to some state with key `k`.
pub open spec fn gives<H: Fn(&State) -> i64>(h: H, k: StateKey, v: i64) -> bool {
    exists|s: &State| key(*s) == k && #[trigger] h.ensures((s,), v)
}

/// The value a heuristic gives the states with key `k`.
pub open spec fn value_of<H: Fn(&State) -> i64>(h: H, k: StateKey) -> i64 {
    choose|v: i64| #[trigger] gives(h, k, v)
}

/// The direction at a position of the order Up, Right, Down, Left.
pub open spec fn index_dir(i: int) -> Direction {
    if i == 0 {
        Direction::Up
    } else if i == 1 {
        Direction::Right
    } else if i == 2 {
        Direction::Down
    } else {
        Direction::Left
    }
}

/// The move lists searched below our move `a`: ours is `a` alone, every
/// other snake's are its valid moves.
pub open spec fn joint_sets(k: StateKey, a: Direction) -> Seq<Seq<Direction>> {
    Seq::new(
        k.snakes.len(),
        |i: int|
            if i == 0 {
                seq![a]
            } else {
                valid_actions_spec(rep(k).grid, k.snakes[i])
            },
    )
}

pub open spec fn init_scores() -> Seq<Outcome> {
    seq![
        Outcome::Loss(LossType::OwnOrWallCollision),
        Outcome::Loss(LossType::OwnOrWallCollision),
        Outcome::Loss(LossType::OwnOrWallCollision),
        Outcome::Loss(LossType::OwnOrWallCollision),
    ]
}

/// The best move and its outcome for a state with key `k` at `depth`,
/// searched to `maxd` within the window `(alpha, beta)`: terminal and leaf
/// states are valued directly; otherwise every move of ours gets the worst
/// outcome the other snakes can force (scanning their joint moves in order,
/// narrowing the window and stopping early as the search does), and the
/// first best move wins.
pub open spec fn search_value<H: Fn(&State) -> i64>(k: StateKey, depth: int, maxd: int, h: H, alpha: int, beta: int) -> (Direction, Outcome)
    decreases maxd - depth, 3int, 0int,
{
    if alpha >= beta {
        (Direction::Stay, Outcome::Loss(LossType::OwnOrWallCollision))
    } else if alive_count(k.snakes, k.snakes.len() as int) <= 1 {
        (Direction::Stay, end_outcome(rep(k)))
    } else if !k.snakes[0].alive() {
        (Direction::Stay, Outcome::Loss(k.snakes[0].loss_reason))
    } else if depth >= maxd {
        (Direction::Stay, Outcome::Heuristic(value_of(h, k)))
    } else {
        let scores = max_fold(k, depth, maxd, h, alpha, beta, valid_actions_spec(rep(k).grid, k.snakes[0]), 0, init_scores());
        (index_dir(best_index(scores)), scores[best_index(scores)])
    }
}

/// Our moves from the `i`-th on, each scored by the opponents' reply.
pub open spec fn max_fold<H: Fn(&State) -> i64>(
    k: StateKey,
    depth: int,
    maxd: int,
    h: H,
    alpha: int,
    beta: int,
    own: Seq<Direction>,
    i: int,
    scores: Seq<Outcome>,
) -> Seq<Outcome>
    decreases maxd - depth, 2int, own.len() - i,
{
    if i >= own.len() || alpha >= beta || depth >= maxd || i < 0 {
        scores
    } else {
        let w = min_fold(k, depth, maxd, h, alpha, beta, product(joint_sets(k, own[i])), 0, Outcome::Win(1_000_000));
        max_fold(
            k,
            depth,
            maxd,
            h,
            if alpha < score(w) { score(w) } else { alpha },
            beta,
            own,
            i + 1,
            scores.update(dir_index(own[i]) as int, w),
        )
    }
}

/// The worst outcome among the joint moves from the `j`-th on, given the
/// worst so far.
pub open spec fn min_fold<H: Fn(&State) -> i64>(
    k: StateKey,
    depth: int,
    maxd: int,
    h: H,
    alpha: int,
    beta: int,
    js: Seq<Seq<Direction>>,
    j: int,
    worst: Outcome,
) -> Outcome
    decreases maxd - depth, 1int, js.len() - j,
{
    if j >= js.len() || depth >= maxd || j < 0 {
        worst
    } else if alpha >= beta {
        Outcome::Loss(LossType::OwnOrWallCollision)
    } else {
        let child = search_value(next_key(k, js[j]), depth + 1, maxd, h, alpha, beta).1;
        let w = if outcome_lt(child, worst) { child } else { worst };
        if w == Outcome::Loss(LossType::OwnOrWallCollision) {
            w
        } else {
            min_fold(k, depth, maxd, h, alpha, if beta > score(w) { score(w) } else { beta }, js, j + 1, w)
        }
    }
}

pub open spec fn sat_add(a: usize, b: usize) -> usize {
    if a + b > usize::MAX {
        usize::MAX
    } else {
        (a + b) as usize
    }
}

/// The number of nodes the search of `search_value` evaluates (capped at the
/// largest `usize`): one for a node valued directly, otherwise one plus the
/// counts of every child searched.
pub open spec fn search_count<H: Fn(&State) -> i64>(k: StateKey, depth: int, maxd: int, h: H, alpha: int, beta: int) -> usize
    decreases maxd - depth, 3int, 0int,
{
    if alpha >= beta || alive_count(k.snakes, k.snakes.len() as int) <= 1 || !k.snakes[0].alive() || depth >= maxd {
        1
    } else {
        max_count(k, depth, maxd, h, alpha, beta, valid_actions_spec(rep(k).grid, k.snakes[0]), 0, 1)
    }
}

/// The count accumulated over our moves from the `i`-th on.
pub open spec fn max_count<H: Fn(&State) -> i64>(
    k: StateKey,
    depth: int,
    maxd: int,
    h: H,
    alpha: int,
    beta: int,
    own: Seq<Direction>,
    i: int,
    acc: usize,
) -> usize
    decreases maxd - depth, 2int, own.len() - i,
{
    if i >= own.len() || alpha >= beta || depth >= maxd || i < 0 {
        acc
    } else {
        let js = product(joint_sets(k, own[i]));
        let w = min_fold(k, depth, maxd, h, alpha, beta, js, 0, Outcome::Win(1_000_000));
        let acc2 = min_count(k, depth, maxd, h, alpha, beta, js, 0, Outcome::Win(1_000_000), acc);
        max_count(k, depth, maxd, h, if alpha < score(w) { score(w) } else { alpha }, beta, own, i + 1, acc2)
    }
}

/// The count accumulated over the joint moves from the `j`-th on.
pub open spec fn min_count<H: Fn(&State) -> i64>(
    k: StateKey,
    depth: int,
    maxd: int,
    h: H,
    alpha: int,
    beta: int,
    js: Seq<Seq<Direction>>,
    j: int,
    worst: Outcome,
    acc: usize,
) -> usize
    decreases maxd - depth, 1int, js.len() - j,
{
    if j >= js.len() || depth >= maxd || j < 0 || alpha >= beta {
        acc
    } else {
        let ck = next_key(k, js[j]);
        let child = search_value(ck, depth + 1, maxd, h, alpha, beta).1;
        let acc2 = sat_add(acc, search_count(ck, depth + 1, maxd, h, alpha, beta));
        let w = if outcome_lt(child, worst) { child } else { worst };
        if w == Outcome::Loss(LossType::OwnOrWallCollision) {
            acc2
        } else {
            min_count(k, depth, maxd, h, alpha, if beta > score(w) { score(w) } else { beta }, js, j + 1, w, acc2)
        }
    }
}

/// Evaluates `node` down to `max_depth` within the window `alpha_beta`.
/// Returns the best move (`Stay` at a leaf), its outcome and the number of
/// nodes evaluated. `heuristic` values non-terminal leaves; once
/// `should_abort` reports true, the search returns the junk result
/// `(Stay, Loss(OwnOrWallCollision), 1)` from every node it enters.
pub fn eval_node<H: Fn(&State) -> i64, A: Fn() -> bool>(
    node: &Node,
    max_depth: u32,
    heuristic: &H,
    alpha_beta: AlphaBeta,
    should_abort: &A,
) -> (r: (Direction, Outcome, usize))
    requires
        node.ready_for(max_depth as int),
        forall|s: &State| #[trigger] heuristic.requires((s,)),
        should_abort.requires(()),
    ensures
        valid_outcome(r.1),
        r.2 >= 1,
        alpha_beta.alpha >= alpha_beta.beta ==> r == (Direction::Stay, Outcome::Loss(LossType::OwnOrWallCollision), 1usize),
        always_aborts(*should_abort) ==> r == (Direction::Stay, Outcome::Loss(LossType::OwnOrWallCollision), 1usize),
        never_aborts(*should_abort) && alpha_beta.alpha < alpha_beta.beta ==> if alive_count(
            node.state.sv(),
            node.state.sv().len() as int,
        ) <= 1 {
            r == (Direction::Stay, end_outcome(node.state), 1usize)
        } else if !node.state.sv()[0].alive() {
            r == (Direction::Stay, Outcome::Loss(node.state.sv()[0].loss_reason), 1usize)
        } else if node.depth == max_depth {
            r.0 == Direction::Stay && r.2 == 1 && exists|v: i64| heuristic.ensures((&node.state,), v) && r.1 == Outcome::Heuristic(v)
        } else {
            dir_index(r.0) < 4
        },
        r == (Direction::Stay, Outcome::Loss(LossType::OwnOrWallCollision), 1usize) || (
            alpha_beta.alpha < alpha_beta.beta && if alive_count(node.state.sv(), node.state.sv().len() as int) <= 1 {
                r == (Direction::Stay, end_outcome(node.state), 1usize)
            } else if !node.state.sv()[0].alive() {
                r == (Direction::Stay, Outcome::Loss(node.state.sv()[0].loss_reason), 1usize)
            } else if node.depth == max_depth {
                r.0 == Direction::Stay && r.2 == 1 && exists|v: i64| heuristic.ensures((&node.state,), v) && r.1 == Outcome::Heuristic(v)
            } else {
                dir_index(r.0) < 4
            }
        ),
        det_heuristic(*heuristic) && never_aborts(*should_abort) ==> (r.0, r.1) == search_value(
            key(node.state),
            node.depth as int,
            max_depth as int,
            *heuristic,
            alpha_beta.alpha as int,
            alpha_beta.beta as int,
        ),
        det_heuristic(*heuristic) && never_aborts(*should_abort) ==> r.2 == search_count(
            key(node.state),
            node.depth as int,
            max_depth as int,
            *heuristic,
            alpha_beta.alpha as int,
            alpha_beta.beta as int,
        ),
    decreases max_depth - node.depth,
{
    if should_abort() || alpha_beta.should_abort() {
        return (Direction::Stay, Outcome::Loss(LossType::OwnOrWallCollision), 1);
    }
    let st = &node.state;
    let ghost kk = key(node.state);
    let ghost hh = *heuristic;
    let ghost det = det_heuristic(*heuristic) && never_aborts(*should_abort);
    let ghost d0 = node.depth as int;
    let ghost m0 = max_depth as int;
    assert(key(rep(kk)) == kk);
    assert(st.snakes@[0].body@.len() >= 2);
    assert(st.sv()[0] == st.snakes@[0]@);
    if st.is_end_state() {
        let w = st.get_winner();
        if w == -1 {
            return (Direction::Stay, Outcome::Draw, 1);
        } else if w == 0 {
            let len = st.snakes[0].len() as i64;
            return (Direction::Stay, Outcome::Win(-(len * 1000)), 1);
        } else {
            assert(w > 0);
            assert(!st.sv()[0].alive());
            assert(st.sv()[w as int].alive());
            return (Direction::Stay, Outcome::Loss(st.snakes[0].loss_reason), 1);
        }
    }
    if !st.snakes[0].is_alive() {
        return (Direction::Stay, Outcome::Loss(st.snakes[0].loss_reason), 1);
    }
    if node.depth == max_depth {
        let v = heuristic(st);
        proof {
            if det {
                assert(gives(hh, kk, v));
                let v2 = value_of(hh, kk);
                assert(gives(hh, kk, v2));
                let s2 = choose|s2: &State| key(*s2) == kk && #[trigger] hh.ensures((s2,), v2);
                assert(hh.ensures((s2,), v2) && hh.ensures((st,), v));
            }
        }
        return (Direction::Stay, Outcome::Heuristic(v), 1);
    }
    let n = st.snakes.len();
    let mut evaluated_nodes: usize = 1;
    let mut ab = alpha_beta;
    let mut scores = [
        Outcome::Loss(LossType::OwnOrWallCollision),
        Outcome::Loss(LossType::OwnOrWallCollision),
        Outcome::Loss(LossType::OwnOrWallCollision),
        Outcome::Loss(LossType::OwnOrWallCollision),
    ];
    let own = st.get_valid_actions(0);
    proof {
        lemma_valid_actions_same(node.state, rep(kk), 0);
        assert(scores@ =~= init_scores());
        lemma_open_moves_real(st.grid, st.sv()[0], 4);
        assert forall|i: int| 0 <= i < own@.len() implies dir_index(#[trigger] own@[i]) < 4 by {
            let s0 = st.sv()[0];
            let first = if s0.last_action != Direction::Stay && crate::state::is_valid_spec(
                st.grid,
                crate::game::step_spec(s0.head(), s0.last_action),
            ) {
                seq![s0.last_action]
            } else {
                Seq::<Direction>::empty()
            };
            let rest = open_moves(st.grid, s0, 4);
            if first.len() + rest.len() != 0 {
                if i >= first.len() {
                    assert(own@[i] == rest[i - first.len()]);
                }
            }
        }
    }
    let mut oi: usize = 0;
    while oi < own.len()
        invariant
            node.ready_for(max_depth as int),
            node.depth < max_depth,
            st == &node.state,
            n == st.snakes@.len(),
            forall|s: &State| #[trigger] heuristic.requires((s,)),
            should_abort.requires(()),
            forall|i: int| 0 <= i < own@.len() ==> dir_index(#[trigger] own@[i]) < 4,
            forall|i: int| 0 <= i < 4 ==> valid_outcome(#[trigger] scores@[i]),
            evaluated_nodes >= 1,
            kk == key(node.state),
            key(rep(kk)) == kk,
            hh == *heuristic,
            det == (det_heuristic(*heuristic) && never_aborts(*should_abort)),
            d0 == node.depth,
            m0 == max_depth,
            ab.beta == alpha_beta.beta,
            own@ == valid_actions_spec(rep(kk).grid, kk.snakes[0]),
            oi <= own@.len(),
            det ==> max_fold(kk, d0, m0, hh, alpha_beta.alpha as int, alpha_beta.beta as int, own@, 0, init_scores())
                == max_fold(kk, d0, m0, hh, ab.alpha as int, ab.beta as int, own@, oi as int, scores@),
            det ==> max_count(kk, d0, m0, hh, alpha_beta.alpha as int, alpha_beta.beta as int, own@, 0, 1)
                == max_count(kk, d0, m0, hh, ab.alpha as int, ab.beta as int, own@, oi as int, evaluated_nodes),
        ensures
            forall|i: int| 0 <= i < 4 ==> valid_outcome(#[trigger] scores@[i]),
            evaluated_nodes >= 1,
            det ==> max_fold(kk, d0, m0, hh, alpha_beta.alpha as int, alpha_beta.beta as int, own@, 0, init_scores()) == scores@,
            det ==> max_count(kk, d0, m0, hh, alpha_beta.alpha as int, alpha_beta.beta as int, own@, 0, 1) == evaluated_nodes,
        decreases own@.len() - oi,
    {
        if ab.should_abort() {
            break;
        }
        let own_action = own[oi];
        let mut sets: Vec<Vec<Direction>> = Vec::with_capacity(n);
        let first = vec![own_action];
        assert(first@ =~= seq![own_action]);
        sets.push(first);
        assert(vviews(sets@) =~= joint_sets(kk, own_action).subrange(0, 1));
        let mut si: usize = 1;
        while si < n
            invariant
                node.ready_for(max_depth as int),
                st == &node.state,
                n == st.snakes@.len(),
                1 <= si <= n,
                sets@.len() == si,
                kk == key(node.state),
                key(rep(kk)) == kk,
                vviews(sets@) == joint_sets(kk, own_action).subrange(0, si as int),
            decreases n - si,
        {
            let acts = st.get_valid_actions(si);
            proof {
                lemma_valid_actions_same(node.state, rep(kk), si as int);
            }
            sets.push(acts);
            si = si + 1;
            assert(vviews(sets@) =~= joint_sets(kk, own_action).subrange(0, si as int));
        }
        assert(vviews(sets@) =~= joint_sets(kk, own_action));
        let joint = joint_actions(sets);
        let ghost js = vviews(joint@);
        assert(js == product(joint_sets(kk, own@[oi as int])));
        let mut worst = Outcome::Win(1_000_000);
        let mut ab_min = ab;
        let ghost acc0 = evaluated_nodes;
        let mut ji: usize = 0;
        while ji < joint.len()
            invariant_except_break
                det ==> min_count(kk, d0, m0, hh, ab.alpha as int, ab.beta as int, js, 0, Outcome::Win(1_000_000), acc0)
                    == min_count(kk, d0, m0, hh, ab_min.alpha as int, ab_min.beta as int, js, ji as int, worst, evaluated_nodes),
            invariant
                node.ready_for(max_depth as int),
                node.depth < max_depth,
                st == &node.state,
                n == st.snakes@.len(),
                forall|s: &State| #[trigger] heuristic.requires((s,)),
                should_abort.requires(()),
                forall|i: int| 0 <= i < joint@.len() ==> (#[trigger] joint@[i])@.len() == n,
                valid_outcome(worst),
                evaluated_nodes >= 1,
                kk == key(node.state),
                hh == *heuristic,
                det == (det_heuristic(*heuristic) && never_aborts(*should_abort)),
                d0 == node.depth,
                m0 == max_depth,
                js == vviews(joint@),
                ab_min.alpha == ab.alpha,
                ji <= joint@.len(),
                det ==> min_fold(kk, d0, m0, hh, ab.alpha as int, ab.beta as int, js, 0, Outcome::Win(1_000_000))
                    == min_fold(kk, d0, m0, hh, ab_min.alpha as int, ab_min.beta as int, js, ji as int, worst),
            ensures
                valid_outcome(worst),
                evaluated_nodes >= 1,
                det ==> worst == min_fold(kk, d0, m0, hh, ab.alpha as int, ab.beta as int, js, 0, Outcome::Win(1_000_000)),
                det ==> evaluated_nodes == min_count(kk, d0, m0, hh, ab.alpha as int, ab.beta as int, js, 0, Outcome::Win(1_000_000), acc0),
            decreases joint@.len() - ji,
        {
            if ab_min.should_abort() {
                worst = Outcome::Loss(LossType::OwnOrWallCollision);
                break;
            }
            let next_node = node.step(&joint[ji]);
            proof {
                lemma_ready_step(node.state, joint@[ji as int]@, next_node.state, max_depth - node.depth - 1);
                lemma_next_key(node.state, joint@[ji as int]@, next_node.state);
                assert(js[ji as int] == joint@[ji as int]@);
            }
            let (_, outcome, ev_nodes) = eval_node(&next_node, max_depth, heuristic, ab_min, should_abort);
            evaluated_nodes = evaluated_nodes.saturating_add(ev_nodes);
            if outcome.is_worse_than(&worst) {
                worst = outcome;
            }
            let ws = worst.get_score();
            if ab_min.beta > ws {
                ab_min.beta = ws;
            }
            if worst == Outcome::Loss(LossType::OwnOrWallCollision) {
                break;
            }
            ji = ji + 1;
        }
        scores[own_action.index()] = worst;
        let ws = worst.get_score();
        if ab.alpha < ws {
            ab.alpha = ws;
        }
        oi = oi + 1;
    }
    let (dir, best_outcome) = get_best_action(scores);
    proof {
        let bi = best_index(scores@);
        assert(0 <= bi < 4);
        assert(dir == index_dir(bi));
    }
    (dir, best_outcome, evaluated_nodes)
}

/// Searches the root to `max_depth` with the full window.
pub fn run_alphabeta<H: Fn(&State) -> i64, A: Fn() -> bool>(
    root_node: &Node,
    heuristic: &H,
    max_depth: u32,
    should_abort: &A,
) -> (r: (Direction, Outcome, usize))
    requires
        root_node.ready_for(max_depth as int),
        forall|s: &State| #[trigger] heuristic.requires((s,)),
        should_abort.requires(()),
    ensures
        valid_outcome(r.1),
        r.2 >= 1,
        det_heuristic(*heuristic) && never_aborts(*should_abort) ==> (r.0, r.1) == search_value(
            key(root_node.state),
            root_node.depth as int,
            max_depth as int,
            *heuristic,
            i128::MIN as int,
            i128::MAX as int,
        ),
        det_heuristic(*heuristic) && never_aborts(*should_abort) ==> r.2 == search_count(
            key(root_node.state),
            root_node.depth as int,
            max_depth as int,
            *heuristic,
            i128::MIN as int,
            i128::MAX as int,
        ),
{
    let alpha_beta = AlphaBeta::new(i128::MIN, i128::MAX);
    eval_node(root_node, max_depth, heuristic, alpha_beta, should_abort)
}


/// A search that is never aborted, with a heuristic that values states with
/// one key alike, is deterministic: searching two nodes whose states have one
/// key, from one depth to one depth within one window, gives one move, one
/// outcome and one count of evaluated nodes.
pub proof fn lemma_search_deterministic<H: Fn(&State) -> i64>(
    a: Node,
    b: Node,
    max_depth: u32,
    h: H,
    window: AlphaBeta,
    ra: (Direction, Outcome, usize),
    rb: (Direction, Outcome, usize),
)
    requires
        key(a.state) == key(b.state),
        a.depth == b.depth,
        det_heuristic(h),
        (ra.0, ra.1) == search_value(key(a.state), a.depth as int, max_depth as int, h, window.alpha as int, window.beta as int),
        (rb.0, rb.1) == search_value(key(b.state), b.depth as int, max_depth as int, h, window.alpha as int, window.beta as int),
        ra.2 == search_count(key(a.state), a.depth as int, max_depth as int, h, window.alpha as int, window.beta as int),
        rb.2 == search_count(key(b.state), b.depth as int, max_depth as int, h, window.alpha as int, window.beta as int),
    ensures
        ra == rb,
{
}

/// The best result collected so far by the iterative-deepening driver.
#[derive(Debug, Clone, Copy)]
pub struct BestSoFar {
    pub action: Direction,
    pub outcome: Outcome,
    pub depth: u32,
}

/// Nothing collected yet: no move, the worst outcome, depth zero.
pub fn initial_best() -> (r: BestSoFar)
    ensures
        r.action == Direction::Stay,
        r.outcome == Outcome::Loss(LossType::OwnOrWallCollision),
        r.depth == 0,
{
    BestSoFar { action: Direction::Stay, outcome: Outcome::Loss(LossType::OwnOrWallCollision), depth: 0 }
}

/// Whether a result from a search of depth `depth` replaces `cur`: a deeper
/// result that is not junk does; a result strictly better than a current
/// real loss does at any depth.
pub open spec fn replaces(cur: BestSoFar, depth: u32, outcome: Outcome) -> bool {
    (depth > cur.depth && outcome_lt(Outcome::Loss(LossType::Alive), outcome)) || (!(depth > cur.depth
        && outcome_lt(Outcome::Loss(LossType::Alive), outcome)) && outcome_lt(cur.outcome, Outcome::Loss(LossType::Alive))
        && outcome_lt(cur.outcome, outcome))
}

/// Folds one worker result `(depth, action, outcome)` into the best result
/// so far. The flag tells the driver to stop collecting: a deeper win came in.
pub fn update_best(cur: BestSoFar, depth: u32, action: Direction, outcome: Outcome) -> (r: (BestSoFar, bool))
    ensures
        r.0 == (if replaces(cur, depth, outcome) {
            BestSoFar { action, outcome, depth }
        } else {
            cur
        }),
        r.1 == (depth > cur.depth && outcome_lt(Outcome::Loss(LossType::Alive), outcome) && outcome is Win),
{
    let junk = Outcome::Loss(LossType::Alive);
    if depth > cur.depth && junk.is_worse_than(&outcome) {
        let stop = match outcome {
            Outcome::Win(_) => true,
            _ => false,
        };
        (BestSoFar { action, outcome, depth }, stop)
    } else if cur.outcome.is_worse_than(&junk) && cur.outcome.is_worse_than(&outcome) {
        (BestSoFar { action, outcome, depth }, false)
    } else {
        (cur, false)
    }
}

/// The move to send: the collected one, or when there is none the first
/// valid move of our snake, or `Up`.
pub fn final_action(best: &BestSoFar, state: &State) -> (r: Direction)
    requires
        state.wf(),
        state.heads_can_step(),
        state.snakes@.len() >= 1,
    ensures
        best.action != Direction::Stay ==> r == best.action,
        best.action == Direction::Stay ==> r == valid_actions_spec(state.grid, state.sv()[0])[0],
{
    if best.action != Direction::Stay {
        best.action
    } else {
        let actions = state.get_valid_actions(0);
        actions[0]
    }
}

/// The move to send without searching, when our snake has exactly one.
pub fn single_action(state: &State) -> (r: Option<Direction>)
    requires
        state.wf(),
        state.heads_can_step(),
        state.snakes@.len() >= 1,
    ensures
        r == (if valid_actions_spec(state.grid, state.sv()[0]).len() == 1 {
            Some(valid_actions_spec(state.grid, state.sv()[0])[0])
        } else {
            None
        }),
{
    let actions = state.get_valid_actions(0);
    if actions.len() == 1 {
        Some(actions[0])
    } else {
        None
    }
}

} // verus!
