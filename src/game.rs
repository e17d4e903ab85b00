//! Board coordinates, moves and the request payload types.

use vstd::prelude::*;

verus! {

/// The game variants told apart by the request payload.
#[derive(Debug, Clone, Copy, PartialEq, Eq, Structural)]
pub enum Gamemode {
    Standard,
    Duels,
    Royale,
    Constrictor,
}

#[derive(Debug, Clone, Copy)]
pub struct GameInfo {
    pub mode: Gamemode,
}

#[derive(Debug, Clone)]
pub struct Game {
    pub id: String,
    pub ruleset: Ruleset,
    pub timeout: u32,
    pub map: String,
}

#[derive(Debug, Clone)]
pub struct Ruleset {
    pub name: String,
}

#[derive(Debug, Clone)]
pub struct Board {
    pub height: u32,
    pub width: u32,
    pub food: Vec<Coord>,
    pub snakes: Vec<Battlesnake>,
    pub hazards: Vec<Coord>,
}

#[derive(Debug, Clone)]
pub struct Battlesnake {
    pub id: String,
    pub name: String,
    pub health: u32,
    pub body: Vec<Coord>,
    pub head: Coord,
    pub latency: Option<String>,
    pub shout: Option<String>,
}

#[derive(Debug, Clone)]
pub struct GameState {
    pub game: Game,
    pub turn: u32,
    pub board: Board,
    pub you: Battlesnake,
}

/// A move. `Stay` stands for "not simulated" (dead or frozen snakes).
#[derive(Debug, Clone, Copy, PartialEq, Eq, Structural)]
pub enum Direction {
    Up,
    Right,
    Down,
    Left,
    Stay,
}

/// Position of a direction in the fixed order Up, Right, Down, Left (Stay last).
pub open spec fn dir_index(d: Direction) -> nat {
    match d {
        Direction::Up => 0,
        Direction::Right => 1,
        Direction::Down => 2,
        Direction::Left => 3,
        Direction::Stay => 4,
    }
}

/// The four real moves, in the order in which they are tried.
pub open spec fn alive_actions() -> Seq<Direction> {
    seq![Direction::Down, Direction::Left, Direction::Right, Direction::Up]
}

impl Direction {
    pub fn get_alive_actions() -> (r: [Direction; 4])
        ensures
            r@ == alive_actions(),
    {
        let r = [Direction::Down, Direction::Left, Direction::Right, Direction::Up];
        assert(r@ =~= alive_actions());
        r
    }

    /// Array index of the direction: Up 0, Right 1, Down 2, Left 3, Stay 4.
    pub fn index(&self) -> (r: usize)
        ensures
            r == dir_index(*self),
    {
        match self {
            Direction::Up => 0,
            Direction::Right => 1,
            Direction::Down => 2,
            Direction::Left => 3,
            Direction::Stay => 4,
        }
    }

    /// The direction at a given array index (see `index`); `Stay` past Left.
    pub fn from_index(i: usize) -> (r: Direction)
        ensures
            i < 4 ==> dir_index(r) == i,
            i >= 4 ==> r == Direction::Stay,
    {
        if i == 0 {
            Direction::Up
        } else if i == 1 {
            Direction::Right
        } else if i == 2 {
            Direction::Down
        } else if i == 3 {
            Direction::Left
        } else {
            Direction::Stay
        }
    }

    /// Lower-case name of the move, as the game server expects it.
    pub fn to_string(&self) -> (r: String)
        ensures
            r@ == dir_name(*self),
    {
        match self {
            Direction::Up => "up".to_owned(),
            Direction::Right => "right".to_owned(),
            Direction::Down => "down".to_owned(),
            Direction::Left => "left".to_owned(),
            Direction::Stay => "none".to_owned(),
        }
    }
}

pub open spec fn dir_name(d: Direction) -> Seq<char> {
    match d {
        Direction::Up => "up"@,
        Direction::Right => "right"@,
        Direction::Down => "down"@,
        Direction::Left => "left"@,
        Direction::Stay => "none"@,
    }
}

/// An integer lattice point.
#[derive(Debug, Clone, Copy, PartialEq, Eq, Structural, Default)]
pub struct Coord {
    pub x: i32,
    pub y: i32,
}

/// The unit offset of a move (`Stay` does not move).
pub open spec fn offset(d: Direction) -> (int, int) {
    match d {
        Direction::Up => (0, 1),
        Direction::Right => (1, 0),
        Direction::Down => (0, -1),
        Direction::Left => (-1, 0),
        Direction::Stay => (0, 0),
    }
}

/// A coordinate that can move one cell in any direction without overflow.
pub open spec fn can_step(c: Coord) -> bool {
    i32::MIN < c.x < i32::MAX && i32::MIN < c.y < i32::MAX
}

/// A coordinate that can move one cell in direction `d` without overflow.
pub open spec fn can_move(c: Coord, d: Direction) -> bool {
    match d {
        Direction::Up => c.y < i32::MAX,
        Direction::Down => c.y > i32::MIN,
        Direction::Right => c.x < i32::MAX,
        Direction::Left => c.x > i32::MIN,
        Direction::Stay => true,
    }
}

pub open spec fn step_spec(c: Coord, d: Direction) -> Coord {
    Coord { x: (c.x + offset(d).0) as i32, y: (c.y + offset(d).1) as i32 }
}

pub open spec fn abs(v: int) -> int {
    if v < 0 { -v } else { v }
}

pub open spec fn linear_dist(a: Coord, b: Coord) -> int {
    abs(a.x - b.x) + abs(a.y - b.y)
}

impl Coord {
    /// The four neighbours, in the order Down, Left, Right, Up.
    pub fn get_neighbours(&self) -> (r: [Coord; 4])
        requires
            can_step(*self),
        ensures
            forall|i: int| 0 <= i < 4 ==> r@[i] == step_spec(*self, #[trigger] alive_actions()[i]),
    {
        let r = [
            self.step(Direction::Down),
            self.step(Direction::Left),
            self.step(Direction::Right),
            self.step(Direction::Up),
        ];
        assert forall|i: int| 0 <= i < 4 implies r@[i] == step_spec(*self, #[trigger] alive_actions()[i]) by {
            if i == 0 {} else if i == 1 {} else if i == 2 {} else {}
        }
        r
    }

    /// The coordinate one cell away in direction `dir`.
    pub fn step(&self, dir: Direction) -> (r: Coord)
        requires
            can_move(*self, dir),
        ensures
            r == step_spec(*self, dir),
    {
        match dir {
            Direction::Up => Coord { x: self.x, y: self.y + 1 },
            Direction::Down => Coord { x: self.x, y: self.y - 1 },
            Direction::Right => Coord { x: self.x + 1, y: self.y },
            Direction::Left => Coord { x: self.x - 1, y: self.y },
            Direction::Stay => *self,
        }
    }

    /// Linear Manhattan distance.
    pub fn manhattan_dist(&self, other: &Coord) -> (r: u32)
        requires
            linear_dist(*self, *other) <= i32::MAX,
        ensures
            r == linear_dist(*self, *other),
    {
        let dx: i64 = self.x as i64 - other.x as i64;
        let dy: i64 = self.y as i64 - other.y as i64;
        let ax: i64 = if dx < 0 { -dx } else { dx };
        let ay: i64 = if dy < 0 { -dy } else { dy };
        (ax + ay) as u32
    }
}

} // verus!
