use bamboozle_snake::cell::{CellGame, CellType};
use bamboozle_snake::game::{Coord, Direction};
use bamboozle_snake::grid::Grid;
use bamboozle_snake::snake::{LossType, Snake};
use bamboozle_snake::state::{Mode, State};

fn c(x: i32, y: i32) -> Coord {
    Coord { x, y }
}

fn snake(health: i16, body: &[(i32, i32)]) -> Snake {
    Snake::new(health, body.iter().map(|&(x, y)| c(x, y)).collect(), Direction::Stay)
}

fn state(snakes: Vec<Snake>, food: Vec<Coord>, hazards: Vec<Coord>, w: usize, h: usize, mode: Mode) -> State {
    let mut s = State::new(0, snakes, food, hazards, w, h, false, mode);
    s.fill_grid();
    s
}

#[test]
fn valid_actions_small_board() {
    let st = state(vec![snake(100, &[(1, 1), (1, 0)])], vec![], vec![], 3, 3, Mode::Standard);
    // the tail cell below the head moves away, so it is a valid target
    assert_eq!(
        st.get_valid_actions(0),
        vec![Direction::Down, Direction::Left, Direction::Right, Direction::Up]
    );
}

#[test]
fn valid_actions_previous_move_first() {
    let mut s = snake(100, &[(1, 1), (1, 0), (0, 0)]);
    s.last_action = Direction::Right;
    let st = state(vec![s], vec![], vec![], 3, 3, Mode::Standard);
    // Down is a body segment, Up and Left are open
    assert_eq!(st.get_valid_actions(0), vec![Direction::Right, Direction::Left, Direction::Up]);
}

#[test]
fn valid_actions_never_empty() {
    // boxed in a corner by its own body
    let st = state(vec![snake(100, &[(0, 0), (1, 0), (1, 1), (0, 1), (0, 2)])], vec![], vec![], 3, 3, Mode::Standard);
    let acts = st.get_valid_actions(0);
    assert_eq!(acts, vec![Direction::Up]);
}

#[test]
fn valid_actions_dead_snake() {
    let mut s = snake(100, &[(1, 1), (1, 0)]);
    s.die(LossType::Starvation);
    let st = state(vec![s], vec![], vec![], 3, 3, Mode::Standard);
    assert_eq!(st.get_valid_actions(0), vec![Direction::Stay]);
}

#[test]
fn head_collision_equal_length_is_draw() {
    let a = snake(100, &[(4, 5), (3, 5), (2, 5)]);
    let b = snake(100, &[(6, 5), (7, 5), (8, 5)]);
    let st = state(vec![a, b], vec![], vec![], 11, 11, Mode::Duels);
    let next = st.step(&vec![Direction::Right, Direction::Left]);
    assert_eq!(next.snakes[0].loss_reason, LossType::HeadCollision);
    assert_eq!(next.snakes[1].loss_reason, LossType::HeadCollision);
    assert!(next.is_end_state());
    assert_eq!(next.get_winner(), -1);
}

#[test]
fn head_collision_longer_survives() {
    let a = snake(100, &[(4, 5), (3, 5), (2, 5), (1, 5)]);
    let b = snake(100, &[(6, 5), (7, 5), (8, 5)]);
    let st = state(vec![a, b], vec![], vec![], 11, 11, Mode::Duels);
    let next = st.step(&vec![Direction::Right, Direction::Left]);
    assert!(next.snakes[0].is_alive());
    assert_eq!(next.snakes[1].loss_reason, LossType::HeadCollision);
    assert_eq!(next.get_winner(), 0);
}

#[test]
fn eating_grows_and_removes_food() {
    let s = snake(50, &[(5, 5), (5, 4), (5, 3)]);
    let st = state(vec![s], vec![c(5, 6), c(1, 1)], vec![], 11, 11, Mode::Standard);
    let next = st.step(&vec![Direction::Up]);
    assert_eq!(next.snakes[0].body, vec![c(5, 6), c(5, 5), c(5, 4), c(5, 4)]);
    assert_eq!(next.snakes[0].health, 100);
    assert_eq!(next.snakes[0].len(), 4);
    assert_eq!(next.food, vec![c(1, 1)]);
    assert_eq!(next.turn, 1);
}

#[test]
fn hazard_damage() {
    let s = snake(20, &[(5, 5), (5, 4), (5, 3)]);
    let st = state(vec![s], vec![], vec![c(5, 6)], 11, 11, Mode::Royale);
    let next = st.step(&vec![Direction::Up]);
    assert_eq!(next.snakes[0].health, 5);
    assert!(next.snakes[0].is_alive());
}

#[test]
fn stacked_hazards_starve() {
    let s = snake(20, &[(5, 5), (5, 4), (5, 3)]);
    let st = state(vec![s], vec![], vec![c(5, 6), c(5, 6)], 11, 11, Mode::Royale);
    let next = st.step(&vec![Direction::Up]);
    assert_eq!(next.snakes[0].health, -9);
    assert_eq!(next.snakes[0].loss_reason, LossType::Starvation);
}

#[test]
fn health_zero_starves() {
    let s = snake(1, &[(5, 5), (5, 4), (5, 3)]);
    let st = state(vec![s], vec![], vec![], 11, 11, Mode::Standard);
    let next = st.step(&vec![Direction::Up]);
    assert_eq!(next.snakes[0].loss_reason, LossType::Starvation);
}

#[test]
fn wall_and_body_collisions() {
    let a = snake(100, &[(0, 5), (1, 5), (2, 5)]);
    let b = snake(100, &[(5, 5), (5, 4), (5, 3)]);
    let cc = snake(100, &[(4, 4), (3, 4), (3, 3)]);
    let st = state(vec![a, b, cc], vec![], vec![], 11, 11, Mode::Standard);
    let next = st.step(&vec![Direction::Left, Direction::Up, Direction::Right]);
    assert_eq!(next.snakes[0].loss_reason, LossType::OwnOrWallCollision);
    assert!(next.snakes[1].is_alive());
    assert_eq!(next.snakes[2].loss_reason, LossType::SnakeCollision);
}

#[test]
fn moving_into_own_neck() {
    let a = snake(100, &[(5, 5), (5, 4), (5, 3)]);
    let st = state(vec![a], vec![], vec![], 11, 11, Mode::Standard);
    let next = st.step(&vec![Direction::Down]);
    assert_eq!(next.snakes[0].loss_reason, LossType::OwnOrWallCollision);
}

#[test]
fn constrictor_head_on_draw() {
    let a = snake(100, &[(2, 3), (1, 3)]);
    let b = snake(100, &[(4, 3), (5, 3)]);
    let st = state(vec![a, b], vec![], vec![], 7, 7, Mode::Constrictor);
    let next = st.step(&vec![Direction::Right, Direction::Left]);
    assert_eq!(next.snakes[0].loss_reason, LossType::HeadCollision);
    assert_eq!(next.snakes[1].loss_reason, LossType::HeadCollision);
    assert!(next.is_end_state());
    assert_eq!(next.get_winner(), -1);
}

#[test]
fn constrictor_grows_every_turn() {
    let a = snake(40, &[(2, 3), (1, 3)]);
    let st = state(vec![a], vec![], vec![], 7, 7, Mode::Constrictor);
    let next = st.step(&vec![Direction::Up]);
    assert_eq!(next.snakes[0].body, vec![c(2, 4), c(2, 3), c(1, 3)]);
    assert_eq!(next.snakes[0].health, 100);
    assert!(next.food.is_empty());
}

#[test]
fn snail_mode_leaves_hazards() {
    let a = snake(100, &[(5, 5), (5, 4), (5, 3)]);
    let st = state(vec![a], vec![], vec![], 11, 11, Mode::Snail);
    let next = st.step(&vec![Direction::Up]);
    assert!(next.hazards.is_empty());
    assert_eq!(next.grid.get(c(5, 3)).hazard, 3);
    let after = next.step(&vec![Direction::Up]);
    assert_eq!(after.grid.get(c(5, 3)).hazard, 2);
    assert_eq!(after.grid.get(c(5, 4)).hazard, 3);
}

#[test]
fn alive_count_does_not_grow() {
    let a = snake(100, &[(4, 5), (3, 5), (2, 5)]);
    let b = snake(100, &[(6, 5), (7, 5), (8, 5)]);
    let mut d = snake(100, &[(1, 1), (1, 0)]);
    d.die(LossType::SnakeCollision);
    let st = state(vec![a, b, d], vec![], vec![], 11, 11, Mode::Standard);
    let before = st.alive_snakes().len();
    let next = st.step(&vec![Direction::Up, Direction::Down, Direction::Stay]);
    assert!(next.alive_snakes().len() <= before);
    assert!(!next.snakes[2].is_alive());
}

#[test]
fn step_is_deterministic() {
    let a = snake(60, &[(4, 5), (3, 5), (2, 5)]);
    let b = snake(70, &[(6, 6), (7, 6), (8, 6)]);
    let st = state(vec![a, b], vec![c(4, 6)], vec![c(6, 5)], 11, 11, Mode::Standard);
    let acts = vec![Direction::Up, Direction::Down];
    let r1 = st.step(&acts);
    let r2 = st.step(&acts);
    assert_eq!(r1.turn, r2.turn);
    assert_eq!(r1.food, r2.food);
    assert_eq!(r1.grid.cells, r2.grid.cells);
    for i in 0..2 {
        assert_eq!(r1.snakes[i].body, r2.snakes[i].body);
        assert_eq!(r1.snakes[i].health, r2.snakes[i].health);
        assert_eq!(r1.snakes[i].loss_reason, r2.snakes[i].loss_reason);
    }
}

#[test]
fn food_conservation() {
    let a = snake(60, &[(4, 5), (3, 5), (2, 5)]);
    let b = snake(70, &[(6, 6), (7, 6), (8, 6)]);
    let st = state(vec![a, b], vec![c(4, 6), c(6, 7), c(0, 0)], vec![], 11, 11, Mode::Standard);
    let next = st.step(&vec![Direction::Up, Direction::Up]);
    assert_eq!(next.food, vec![c(0, 0)]);
    assert_eq!(st.food.len() - next.food.len(), 2);
}

#[test]
fn grid_fill_marks_cells() {
    let a = snake(100, &[(1, 1), (1, 2), (2, 2)]);
    let b = snake(100, &[(3, 3), (3, 3)]);
    let st = state(vec![a, b], vec![c(0, 0)], vec![c(0, 0), c(0, 0), c(9, 9)], 4, 4, Mode::Standard);
    assert_eq!(st.grid.get(c(1, 1)).cell, CellType::Snake(0));
    assert_eq!(st.grid.get(c(1, 2)).cell, CellType::Snake(0));
    assert_eq!(st.grid.get(c(2, 2)).cell, CellType::Tail(0));
    assert_eq!(st.grid.get(c(3, 3)).cell, CellType::Snake(1));
    assert_eq!(*st.grid.get(c(0, 0)), CellGame { cell: CellType::Food, hazard: 2 });
    assert_eq!(st.grid.get(c(3, 0)).cell, CellType::Free);
    assert!(st.grid.is_food(c(0, 0)));
    assert!(st.grid.is_hazard(c(0, 0)));
    assert!(st.grid.is_snake(c(1, 2)));
    assert!(!st.grid.is_snake(c(2, 2)));
    assert!(st.grid.is_valid_pos(c(2, 2)));
    assert!(!st.grid.is_valid_pos(c(4, 0)));
}

#[test]
fn kill_starved_marks_zero_health() {
    let mut st = state(vec![snake(0, &[(1, 1), (1, 2)]), snake(3, &[(3, 3), (3, 2)])], vec![], vec![], 5, 5, Mode::Standard);
    st.kill_starved();
    assert_eq!(st.snakes[0].loss_reason, LossType::Starvation);
    assert!(st.snakes[1].is_alive());
}

#[test]
fn wrapped_moves_cross_edges() {
    let a = snake(100, &[(0, 5), (1, 5), (2, 5)]);
    let mut st = State::new(0, vec![a], vec![], vec![], 11, 11, true, Mode::Standard);
    st.fill_grid();
    let next = st.step(&vec![Direction::Left]);
    assert!(next.snakes[0].is_alive());
    assert_eq!(next.snakes[0].head(), c(-1, 5));
    assert_eq!(next.snakes[0].health, 99);
    let g: &Grid<CellGame> = &next.grid;
    assert_eq!(g.get(c(10, 5)).cell, CellType::Snake(0));
}
