use bamboozle_snake::logic::{heuristic_kind, HeuristicKind};
use bamboozle_snake::action_set_matrix::ActionSetMatrix;
use bamboozle_snake::cell::{CellGame, CellType};
use bamboozle_snake::floodfill::{CellFlood, FloodElement, FloodType, Floodfill};
use bamboozle_snake::game::{Battlesnake, Board, Coord, Direction, Game, GameState, Ruleset};
use bamboozle_snake::grid::Grid;
use bamboozle_snake::ingest::{contains_text, IngestError};
use bamboozle_snake::node::Node;
use bamboozle_snake::outcome::Outcome;
use bamboozle_snake::snake::{LossType, Snake};
use bamboozle_snake::state::{Mode, State};

fn c(x: i32, y: i32) -> Coord {
    Coord { x, y }
}

fn snake(health: i16, body: &[(i32, i32)]) -> Snake {
    Snake::new(health, body.iter().map(|&(x, y)| c(x, y)).collect(), Direction::Stay)
}

fn state(snakes: Vec<Snake>, food: Vec<Coord>, w: usize, h: usize, wrapped: bool, mode: Mode) -> State {
    let mut s = State::new(0, snakes, food, vec![], w, h, wrapped, mode);
    s.fill_grid();
    s
}

#[test]
fn coord_steps_and_distance() {
    let p = c(2, 3);
    assert_eq!(p.step(Direction::Up), c(2, 4));
    assert_eq!(p.step(Direction::Down), c(2, 2));
    assert_eq!(p.step(Direction::Left), c(1, 3));
    assert_eq!(p.step(Direction::Right), c(3, 3));
    assert_eq!(p.step(Direction::Stay), p);
    assert_eq!(p.get_neighbours(), [c(2, 2), c(1, 3), c(3, 3), c(2, 4)]);
    assert_eq!(p.manhattan_dist(&c(-1, 7)), 7);
    assert_eq!(Direction::get_alive_actions(), [Direction::Down, Direction::Left, Direction::Right, Direction::Up]);
}

#[test]
fn direction_names_and_indices() {
    assert_eq!(Direction::Up.to_string(), "up");
    assert_eq!(Direction::Right.to_string(), "right");
    assert_eq!(Direction::Down.to_string(), "down");
    assert_eq!(Direction::Left.to_string(), "left");
    assert_eq!(Direction::Left.index(), 3);
    assert_eq!(Direction::from_index(1), Direction::Right);
    assert_eq!(Direction::from_index(7), Direction::Stay);
}

#[test]
fn grid_wrapped_geometry() {
    let g: Grid<CellGame> = Grid::new(11, 7, true);
    assert!(g.contains(c(-5, 40)));
    assert_eq!(g.manhattan_dist(&c(0, 0), &c(10, 6)), 2);
    assert_eq!(g.manhattan_dist(&c(0, 0), &c(5, 3)), 8);
    assert_eq!(g.max_dist(), 9);
    assert_eq!(g.index_of(c(-1, -1)), 6 * 11 + 10);
    assert_eq!(g.canonical(c(12, -8)), c(1, 6));
    for x in 0..11 {
        for y in 0..7 {
            assert!(g.manhattan_dist(&c(0, 0), &c(x, y)) <= g.max_dist());
        }
    }
}

#[test]
fn grid_plain_geometry() {
    let mut g: Grid<CellGame> = Grid::new(11, 7, false);
    assert!(!g.contains(c(11, 0)));
    assert!(!g.contains(c(0, -1)));
    assert!(g.contains(c(10, 6)));
    assert_eq!(g.manhattan_dist(&c(0, 0), &c(10, 6)), 16);
    assert_eq!(g.max_dist(), 18);
    let mut p = c(-1, 7);
    g.wrap_around(&mut p);
    assert_eq!(p, c(10, 0));
    g.set(c(3, 2), CellGame::new(CellType::Food));
    assert_eq!(g.get(c(3, 2)).cell, CellType::Food);
    g.clear();
    assert_eq!(*g.get(c(3, 2)), CellGame { cell: CellType::Free, hazard: 0 });
}

#[test]
fn flood_simple_splits_board() {
    let a = snake(100, &[(0, 0), (0, 1)]);
    let b = snake(100, &[(4, 0), (4, 1)]);
    let st = state(vec![a, b], vec![], 5, 2, false, Mode::Standard);
    let f = Floodfill::new(&st, FloodType::Simple);
    assert_eq!(*f.cells.get(c(1, 0)), CellFlood::Owned { id: 0, length: 2, health: 99, was_snake: false, step: 1 });
    assert_eq!(*f.cells.get(c(2, 0)), CellFlood::Draw);
    assert_eq!(*f.cells.get(c(2, 1)), CellFlood::Draw);
    assert_eq!(*f.cells.get(c(3, 0)), CellFlood::Owned { id: 1, length: 2, health: 99, was_snake: false, step: 1 });
    assert_eq!(f.count_owned(0), (2, 0));
    assert_eq!(f.count_owned(1), (2, 0));
    assert_eq!(f.count_owned_all(), vec![2, 2]);
    assert_eq!(f.count_duels(), (2, 0, 2, 0));
}

#[test]
fn flood_longer_snake_wins_tie() {
    let a = snake(100, &[(0, 0), (0, 1), (0, 2)]);
    let b = snake(100, &[(4, 0), (4, 1)]);
    let st = state(vec![a, b], vec![], 5, 3, false, Mode::Standard);
    let f = Floodfill::new(&st, FloodType::FollowSnakes);
    match f.cells.get(c(2, 0)) {
        CellFlood::Owned { id, step, .. } => {
            assert_eq!(*id, 0);
            assert_eq!(*step, 2);
        }
        other => panic!("unexpected {:?}", other),
    }
    assert!(!f.dead_ends[0] || !f.dead_ends[1]);
}

#[test]
fn flood_follow_snakes_enters_vacated_body() {
    let a = snake(100, &[(0, 0), (1, 0), (2, 0)]);
    let st = state(vec![a], vec![], 3, 2, false, Mode::Standard);
    let f = Floodfill::new(&st, FloodType::FollowSnakes);
    // the tail at (2,0) has moved away after one step
    match f.cells.get(c(2, 0)) {
        CellFlood::Owned { id: 0, was_snake: true, .. } => {}
        other => panic!("unexpected {:?}", other),
    }
    assert!(f.dead_ends[0]);
    let (owned, owned_snake) = f.count_owned(0);
    assert_eq!(owned, 3);
    assert!(owned_snake >= 1);
}

#[test]
fn flood_constrictor_blocks_bodies() {
    let a = snake(100, &[(0, 0), (1, 0), (2, 0)]);
    let st = state(vec![a], vec![], 3, 2, false, Mode::Constrictor);
    let f = Floodfill::new(&st, FloodType::Constrictor);
    assert_eq!(*f.cells.get(c(2, 0)), CellFlood::Snake { id: 0, tail_dist: 0 });
    assert_eq!(*f.cells.get(c(1, 0)), CellFlood::Snake { id: 0, tail_dist: 1 });
    assert_eq!(f.count_owned(0), (3, 0));
    assert_eq!(f.count_owned_royale(0), (3, 0, 0, 0));
}

#[test]
fn flood_royale_counts_hazards() {
    let a = snake(100, &[(0, 0), (0, 1)]);
    let mut st = State::new(0, vec![a], vec![], vec![c(1, 0)], 3, 2, false, Mode::Royale);
    st.fill_grid();
    let f = Floodfill::new(&st, FloodType::Simple);
    let (owned, owned_hazards, _, _) = f.count_owned_royale(0);
    assert_eq!(owned_hazards, 1);
    assert_eq!(owned, 3);
}

#[test]
fn flood_element_neighbours() {
    let e = FloodElement { id: 2, pos: c(3, 3), step: 4, health: 10, length: 5, food_eaten: 1 };
    let ns = e.get_neighbours();
    assert_eq!(ns[0].pos, c(3, 2));
    assert_eq!(ns[3].pos, c(3, 4));
    assert!(ns.iter().all(|n| n.step == 5 && n.health == 9 && n.id == 2 && n.length == 5 && n.food_eaten == 1));
}

#[test]
fn flood_clear_resets() {
    let a = snake(100, &[(0, 0), (0, 1)]);
    let st = state(vec![a], vec![], 3, 3, false, Mode::Standard);
    let mut f = Floodfill::new(&st, FloodType::Simple);
    f.clear();
    assert!(f.cells.cells.iter().all(|x| *x == CellFlood::Free));
}

fn payload(ruleset: &str, map: &str, snakes: Vec<Battlesnake>, you: Battlesnake, w: u32, h: u32) -> GameState {
    GameState {
        game: Game { id: "g".to_string(), ruleset: Ruleset { name: ruleset.to_string() }, timeout: 500, map: map.to_string() },
        turn: 7,
        board: Board { height: h, width: w, food: vec![c(1, 1)], snakes, hazards: vec![c(0, 0)] },
        you,
    }
}

fn bs(id: &str, body: &[(i32, i32)]) -> Battlesnake {
    let body: Vec<Coord> = body.iter().map(|&(x, y)| c(x, y)).collect();
    Battlesnake { id: id.to_string(), name: id.to_string(), health: 90, head: body[0], body, latency: None, shout: None }
}

#[test]
fn ingest_puts_us_first() {
    let me = bs("me", &[(3, 3), (3, 2)]);
    let other = bs("other", &[(5, 5), (5, 4)]);
    let gs = payload("standard", "standard", vec![other.clone(), me.clone()], me, 11, 11);
    let st = State::from_game_state(&gs).unwrap();
    assert_eq!(st.snakes.len(), 2);
    assert_eq!(st.snakes[0].head(), c(3, 3));
    assert_eq!(st.snakes[1].head(), c(5, 5));
    assert_eq!(st.snakes[0].health, 90);
    assert_eq!(st.turn, 7);
    assert_eq!(st.mode, Mode::Duels);
    assert!(!st.grid.wrapped);
    assert_eq!(st.grid.get(c(3, 3)).cell, CellType::Snake(0));
    assert_eq!(*st.grid.get(c(0, 0)), CellGame { cell: CellType::Free, hazard: 1 });
    assert!(st.grid.is_food(c(1, 1)));
}

#[test]
fn ingest_modes() {
    let me = bs("me", &[(3, 3), (3, 2)]);
    let a = bs("a", &[(5, 5), (5, 4)]);
    let b = bs("b", &[(7, 7), (7, 6)]);
    let three = vec![me.clone(), a.clone(), b.clone()];
    assert_eq!(State::determine_mode(&payload("constrictor", "royale", three.clone(), me.clone(), 11, 11)), Mode::Constrictor);
    assert_eq!(State::determine_mode(&payload("standard", "snail_mode", three.clone(), me.clone(), 11, 11)), Mode::Snail);
    assert_eq!(State::determine_mode(&payload("standard", "royale", three.clone(), me.clone(), 11, 11)), Mode::Royale);
    assert_eq!(State::determine_mode(&payload("standard", "standard", vec![me.clone(), a], me.clone(), 11, 11)), Mode::Duels);
    assert_eq!(State::determine_mode(&payload("standard", "standard", three.clone(), me.clone(), 11, 11)), Mode::Standard);
    assert_eq!(State::determine_mode(&payload("wrapped_constrictor", "standard", three.clone(), me.clone(), 11, 11)), Mode::Constrictor);
    let st = State::from_game_state(&payload("wrapped", "standard", three, me, 11, 11)).unwrap();
    assert!(st.grid.wrapped);
    assert!(contains_text("the wrapped rules", "wrapped"));
    assert!(!contains_text("wrap", "wrapped"));
}

#[test]
fn ingest_errors() {
    let me = bs("me", &[(3, 3), (3, 2)]);
    assert_eq!(State::from_game_state(&payload("standard", "", vec![me.clone()], me.clone(), 0, 11)).err(), Some(IngestError::BadBoard));
    let off = bs("me", &[(11, 3), (10, 3)]);
    assert_eq!(State::from_game_state(&payload("standard", "", vec![off.clone()], off, 11, 11)).err(), Some(IngestError::OffBoard));
    let mut empty = bs("x", &[(1, 1)]);
    empty.body.clear();
    assert_eq!(State::from_game_state(&payload("standard", "", vec![me.clone()], empty, 11, 11)).err(), Some(IngestError::ShortBody));
    let single = bs("y", &[(4, 4)]);
    assert_eq!(State::from_game_state(&payload("standard", "", vec![me.clone()], single, 11, 11)).err(), Some(IngestError::ShortBody));
    let many: Vec<Battlesnake> = (0..300).map(|i| bs(&format!("s{}", i), &[(1, 1), (1, 2)])).collect();
    assert_eq!(State::from_game_state(&payload("standard", "", many, me.clone(), 11, 11)).err(), Some(IngestError::TooManySnakes));
    let mut gs = payload("standard", "", vec![me.clone()], me, 11, 11);
    gs.board.hazards = vec![c(2, 2); 256];
    assert_eq!(State::from_game_state(&gs).err(), Some(IngestError::HazardOverflow));
}

#[test]
fn node_step_and_simulation_mask() {
    let snakes = vec![
        snake(100, &[(0, 0), (0, 1)]),
        snake(100, &[(1, 3), (1, 4)]),
        snake(100, &[(10, 10), (10, 9)]),
        snake(100, &[(2, 2), (2, 3)]),
    ];
    let st = state(snakes, vec![], 11, 11, false, Mode::Standard);
    let mut node = Node::new(st, 0);
    node.update_snake_simulation(2);
    assert!(node.state.snakes[0].should_simulate);
    assert!(node.state.snakes[1].should_simulate);
    assert!(!node.state.snakes[2].should_simulate);
    assert!(node.state.snakes[3].should_simulate);
    assert_eq!(node.state.get_valid_actions(2), vec![Direction::Stay]);
    assert!(node.is_ready_for(3));
    let child = node.step(&vec![Direction::Right, Direction::Right, Direction::Stay, Direction::Right]);
    assert_eq!(child.depth, 1);
    assert_eq!(child.state.turn, 1);
    assert_eq!(child.state.snakes[2].head(), c(10, 10));
}

#[test]
fn node_not_ready_for_single_segment() {
    let st = state(vec![snake(100, &[(0, 0)])], vec![], 5, 5, false, Mode::Standard);
    let node = Node::new(st, 0);
    assert!(!node.is_ready_for(1));
}

#[test]
fn action_set_matrix_tables_children() {
    let snakes = vec![snake(100, &[(2, 2), (2, 1)]), snake(100, &[(6, 6), (6, 5)])];
    let st = state(snakes, vec![], 11, 11, false, Mode::Duels);
    let node = Node::new(st, 0);
    let mut m = ActionSetMatrix::new(2);
    assert_eq!(m.sets.len(), 16);
    assert_eq!(m.index_of(&vec![Direction::Left, Direction::Right]), 3 + 4);
    m.fill(&node, vec![vec![Direction::Up, Direction::Left], vec![Direction::Down]]);
    assert_eq!(m.action_sets, vec![vec![Direction::Up, Direction::Down], vec![Direction::Left, Direction::Down]]);
    let up = m.get_nodes(0, Direction::Up);
    assert_eq!(up.len(), 1);
    assert_eq!(up[0].state.snakes[0].head(), c(2, 3));
    assert_eq!(up[0].state.snakes[1].head(), c(6, 5 + 0));
    let down = m.get_nodes(1, Direction::Down);
    assert_eq!(down.len(), 2);
    assert!(m.get_nodes(1, Direction::Up).is_empty());
}

#[test]
fn outcome_scores_and_order() {
    assert_eq!(Outcome::Win(-3000).get_score(), 1_000_000_000 - 3000);
    assert_eq!(Outcome::Draw.get_score(), -1_000_000);
    assert_eq!(Outcome::Heuristic(1234).get_score(), 1234);
    assert_eq!(Outcome::Loss(LossType::OwnOrWallCollision).get_score(), -1_000_010_000);
    assert_eq!(Outcome::Loss(LossType::HeadCollision).get_score(), -1_000_004_000);
    assert!(Outcome::Loss(LossType::Starvation).get_score() < Outcome::Heuristic(-400_000_000).get_score());
    assert!(Outcome::Win(-400_000_000).get_score() > Outcome::Heuristic(400_000_000).get_score());
    assert!(Outcome::Draw.get_score() < Outcome::Heuristic(0).get_score());
    assert!(Outcome::Loss(LossType::HeadCollision).get_score() < Outcome::Draw.get_score());
    assert!(Outcome::Loss(LossType::OwnOrWallCollision).is_worse_than(&Outcome::Loss(LossType::Starvation)));
    assert!(Outcome::Draw.is_worse_than(&Outcome::Heuristic(-5)));
    assert!(Outcome::Heuristic(3).is_worse_than(&Outcome::Heuristic(4)));
    assert!(!Outcome::Win(1).is_worse_than(&Outcome::Win(1)));
    assert!(Outcome::Loss(LossType::Alive).is_worse_than(&Outcome::Draw));
}

#[test]
fn start_line_lists_names() {
    let me = bs("me", &[(3, 3), (3, 2)]);
    let a = bs("a", &[(5, 5), (5, 4)]);
    let b = bs("b", &[(7, 7), (7, 6)]);
    let gs = payload("standard", "standard", vec![me.clone(), a, b], me.clone(), 11, 11);
    assert_eq!(bamboozle_snake::logic::handle_start(&gs), "me, a, b");
    let none = payload("standard", "standard", vec![], me, 11, 11);
    assert_eq!(bamboozle_snake::logic::handle_start(&none), "");
}

#[test]
fn heuristic_choice_by_mode() {
    assert_eq!(heuristic_kind(Mode::Constrictor, 2), HeuristicKind::Constrictor);
    assert_eq!(heuristic_kind(Mode::Royale, 2), HeuristicKind::RoyaleDuels);
    assert_eq!(heuristic_kind(Mode::Royale, 4), HeuristicKind::Royale);
    assert_eq!(heuristic_kind(Mode::Standard, 4), HeuristicKind::Standard);
    assert_eq!(heuristic_kind(Mode::Duels, 2), HeuristicKind::Duels);
    assert_eq!(heuristic_kind(Mode::Snail, 3), HeuristicKind::Duels);
}

#[test]
fn flood_simple_claims_every_reachable_cell() {
    let a = snake(100, &[(0, 0), (0, 1)]);
    let st = state(vec![a], vec![], 4, 4, false, Mode::Standard);
    let f = Floodfill::new(&st, FloodType::Simple);
    for x in 0..4 {
        for y in 0..4 {
            if (x, y) != (0, 0) && (x, y) != (0, 1) {
                assert!(matches!(f.cells.get(c(x, y)), CellFlood::Owned { id: 0, .. }));
            }
        }
    }
    match f.cells.get(c(3, 3)) {
        CellFlood::Owned { step, .. } => assert_eq!(*step, 6),
        _ => panic!(),
    }
}

#[test]
fn action_set_matrix_leaves_other_positions_empty() {
    let snakes = vec![snake(100, &[(2, 2), (2, 1)]), snake(100, &[(6, 6), (6, 5)])];
    let st = state(snakes, vec![], 11, 11, false, Mode::Duels);
    let node = Node::new(st, 0);
    let mut m = ActionSetMatrix::new(2);
    m.fill(&node, vec![vec![Direction::Up], vec![Direction::Down, Direction::Left]]);
    let filled: Vec<usize> = (0..16).filter(|&i| m.sets[i].is_some()).collect();
    assert_eq!(filled, vec![0 + 4 * 2, 0 + 4 * 3]);
    assert_eq!(m.sets[12].as_ref().unwrap().state.snakes[1].head(), c(5, 6));
}

#[test]
fn flood_follow_claims_open_board() {
    let a = snake(100, &[(0, 0), (0, 1)]);
    let b = snake(100, &[(3, 3), (3, 2)]);
    let st = state(vec![a, b], vec![], 4, 4, false, Mode::Standard);
    let f = Floodfill::new(&st, FloodType::FollowSnakes);
    assert!(f.cells.cells.iter().all(|c| *c != CellFlood::Free));
}
