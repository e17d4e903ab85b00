use bamboozle_snake::game::{Coord, Direction};
use bamboozle_snake::node::Node;
use bamboozle_snake::outcome::Outcome;
use bamboozle_snake::search::{
    eval_node, final_action, get_best_action, initial_best, run_alphabeta, single_action, update_best, AlphaBeta,
};
use bamboozle_snake::snake::{LossType, Snake};
use bamboozle_snake::state::{Mode, State};

fn c(x: i32, y: i32) -> Coord {
    Coord { x, y }
}

fn snake(health: i16, body: &[(i32, i32)]) -> Snake {
    Snake::new(health, body.iter().map(|&(x, y)| c(x, y)).collect(), Direction::Stay)
}

fn state(snakes: Vec<Snake>, w: usize, h: usize, mode: Mode) -> State {
    let mut s = State::new(0, snakes, vec![], vec![], w, h, false, mode);
    s.fill_grid();
    s
}

fn zero(_: &State) -> i64 {
    0
}

fn never() -> bool {
    false
}

#[test]
fn best_action_prefers_first_on_ties() {
    let os = [Outcome::Heuristic(5), Outcome::Heuristic(7), Outcome::Heuristic(7), Outcome::Draw];
    assert_eq!(get_best_action(os), (Direction::Right, Outcome::Heuristic(7)));
    let all_equal = [Outcome::Draw; 4];
    assert_eq!(get_best_action(all_equal), (Direction::Up, Outcome::Draw));
    let win_last = [Outcome::Draw, Outcome::Draw, Outcome::Heuristic(1), Outcome::Win(-2000)];
    assert_eq!(get_best_action(win_last).0, Direction::Left);
}

#[test]
fn search_returns_only_move() {
    // a snake in a corridor that can only go up
    let st = state(vec![snake(100, &[(0, 2), (0, 1), (0, 0)])], 1, 5, Mode::Standard);
    assert_eq!(single_action(&st), Some(Direction::Up));
}

#[test]
fn single_action_none_with_choices() {
    let st = state(vec![snake(100, &[(2, 2), (2, 1)])], 5, 5, Mode::Standard);
    assert_eq!(single_action(&st), None);
}

#[test]
fn terminal_draw_and_window() {
    let mut a = snake(100, &[(2, 2), (2, 1)]);
    a.die(LossType::HeadCollision);
    let mut b = snake(100, &[(2, 3), (2, 4)]);
    b.die(LossType::HeadCollision);
    let node = Node::new(state(vec![a, b], 7, 7, Mode::Constrictor), 0);
    let r = eval_node(&node, 3, &zero, AlphaBeta::new(i128::MIN, i128::MAX), &never);
    assert_eq!(r, (Direction::Stay, Outcome::Draw, 1));
    let closed = eval_node(&node, 3, &zero, AlphaBeta::new(5, 5), &never);
    assert_eq!(closed, (Direction::Stay, Outcome::Loss(LossType::OwnOrWallCollision), 1));
    let aborted = eval_node(&node, 3, &zero, AlphaBeta::new(0, 5), &|| true);
    assert_eq!(aborted, (Direction::Stay, Outcome::Loss(LossType::OwnOrWallCollision), 1));
}

#[test]
fn terminal_win_and_loss() {
    let a = snake(100, &[(2, 2), (2, 1), (2, 0)]);
    let mut b = snake(100, &[(4, 4), (4, 5)]);
    b.die(LossType::Starvation);
    let node = Node::new(state(vec![a, b], 7, 7, Mode::Standard), 0);
    let r = eval_node(&node, 3, &zero, AlphaBeta::new(i128::MIN, i128::MAX), &never);
    assert_eq!(r, (Direction::Stay, Outcome::Win(-3000), 1));

    let mut a = snake(100, &[(2, 2), (2, 1)]);
    a.die(LossType::SnakeCollision);
    let b = snake(100, &[(4, 4), (4, 5)]);
    let node = Node::new(state(vec![a, b], 7, 7, Mode::Standard), 0);
    let r = run_alphabeta(&node, &zero, 3, &never);
    assert_eq!(r.1, Outcome::Loss(LossType::SnakeCollision));
}

#[test]
fn leaf_uses_heuristic() {
    let a = snake(100, &[(2, 2), (2, 1)]);
    let b = snake(100, &[(5, 5), (5, 4)]);
    let node = Node::new(state(vec![a, b], 7, 7, Mode::Duels), 2);
    let h = |s: &State| s.snakes[0].health as i64 * 10;
    let r = eval_node(&node, 2, &h, AlphaBeta::new(i128::MIN, i128::MAX), &never);
    assert_eq!(r, (Direction::Stay, Outcome::Heuristic(1000), 1));
}

#[test]
fn search_avoids_head_on_with_longer_snake() {
    // we are shorter; moving right meets the longer enemy head-on in every
    // line where the enemy moves left
    let a = snake(100, &[(2, 3), (1, 3)]);
    let b = snake(100, &[(4, 3), (5, 3), (6, 3)]);
    let st = state(vec![a, b], 9, 7, Mode::Duels);
    let node = Node::new(st, 0);
    let (dir, outcome, nodes) = run_alphabeta(&node, &zero, 1, &never);
    assert_ne!(dir, Direction::Right);
    assert_eq!(outcome, Outcome::Heuristic(0));
    assert!(nodes > 1);
}

#[test]
fn search_finds_the_winning_move() {
    // the enemy is boxed in: it dies whatever it does, we survive moving up
    let a = snake(100, &[(2, 2), (2, 1), (2, 0)]);
    let b = snake(100, &[(0, 0), (1, 0), (1, 1), (0, 1), (0, 2)]);
    let st = state(vec![a, b], 5, 5, Mode::Duels);
    let node = Node::new(st, 0);
    let (dir, outcome, _) = run_alphabeta(&node, &zero, 2, &never);
    assert!(matches!(outcome, Outcome::Win(_)));
    assert_ne!(dir, Direction::Stay);
}

#[test]
fn search_is_repeatable() {
    let a = snake(100, &[(2, 2), (2, 1), (2, 0)]);
    let b = snake(90, &[(5, 5), (5, 4), (5, 3)]);
    let st = state(vec![a, b], 8, 8, Mode::Duels);
    let node = Node::new(st, 0);
    let h = |s: &State| (s.snakes[0].head().x * 100 + s.snakes[0].head().y) as i64;
    let r1 = run_alphabeta(&node, &h, 3, &never);
    let r2 = run_alphabeta(&node, &h, 3, &never);
    assert_eq!(r1, r2);
}

#[test]
fn best_so_far_rules() {
    let b0 = initial_best();
    assert_eq!(b0.action, Direction::Stay);
    // deeper non-junk result replaces
    let (b1, stop) = update_best(b0, 1, Direction::Up, Outcome::Heuristic(10));
    assert_eq!((b1.action, b1.depth, stop), (Direction::Up, 1, false));
    // junk from an aborted search is ignored
    let (b2, _) = update_best(b1, 2, Direction::Left, Outcome::Loss(LossType::OwnOrWallCollision));
    assert_eq!(b2.action, Direction::Up);
    // shallower result does not replace a non-loss
    let (b3, _) = update_best(b2, 1, Direction::Down, Outcome::Heuristic(99));
    assert_eq!(b3.action, Direction::Up);
    // a deeper win replaces and stops
    let (b4, stop) = update_best(b3, 3, Direction::Right, Outcome::Win(-4000));
    assert_eq!((b4.action, stop), (Direction::Right, true));
    // a current loss is replaced by anything better, at any depth
    let lost = bamboozle_snake::search::BestSoFar { action: Direction::Down, outcome: Outcome::Loss(LossType::Starvation), depth: 5 };
    let (b5, stop) = update_best(lost, 2, Direction::Left, Outcome::Loss(LossType::HeadCollision));
    assert_eq!((b5.action, b5.depth, stop), (Direction::Left, 2, false));
}

#[test]
fn final_action_falls_back_to_valid_move() {
    let st = state(vec![snake(100, &[(0, 0), (0, 1)])], 5, 5, Mode::Standard);
    assert_eq!(final_action(&initial_best(), &st), Direction::Right);
    let mut best = initial_best();
    best.action = Direction::Down;
    assert_eq!(final_action(&best, &st), Direction::Down);
}

#[test]
fn abort_yields_junk() {
    let a = snake(100, &[(2, 2), (2, 1)]);
    let b = snake(100, &[(5, 5), (5, 4)]);
    let node = Node::new(state(vec![a, b], 7, 7, Mode::Duels), 0);
    let r = eval_node(&node, 3, &zero, AlphaBeta::new(i128::MIN, i128::MAX), &|| true);
    assert_eq!(r, (Direction::Stay, Outcome::Loss(LossType::OwnOrWallCollision), 1));
}
