//! Grid primitives: integer coordinates and the four-directional movement
//! vocabulary shared by every component of the engine.
use vstd::prelude::*;

verus! {

/// A cell of the grid. Equality is structural; values are copied freely.
#[derive(Clone, Copy, PartialEq, Eq, Structural, Debug, Hash)]
pub struct Coord {
    pub x: i32,
    pub y: i32,
}

/// One of the four cardinal moves. `Still` stands for "stay in place" and is
/// only used internally for "check the current position" queries; it is never
/// an actual move taken by an agent.
#[derive(Clone, Copy, PartialEq, Eq, Structural, Debug)]
pub enum Movement {
    Up,
    Down,
    Left,
    Right,
    Still,
}

/// The coordinates (as unbounded integers) of the cell reached from `c` by
/// one step in direction `m`. `Still` stays in place.
pub open spec fn next_xy(c: Coord, m: Movement) -> (int, int) {
    match m {
        Movement::Up => (c.x as int, c.y + 1),
        Movement::Down => (c.x as int, c.y - 1),
        Movement::Left => (c.x - 1, c.y as int),
        Movement::Right => (c.x + 1, c.y as int),
        Movement::Still => (c.x as int, c.y as int),
    }
}

/// Whether the cell (x, y) lies on a `width` by `height` grid.
pub open spec fn on_grid(x: int, y: int, width: int, height: int) -> bool {
    0 <= x < width && 0 <= y < height
}

impl Movement {
    /// The four actual moves, in the fixed enumeration order used everywhere.
    pub fn all() -> (r: Vec<Movement>)
        ensures
            r@ == seq![Movement::Up, Movement::Down, Movement::Left, Movement::Right],
    {
        let mut v: Vec<Movement> = Vec::new();
        v.push(Movement::Up);
        v.push(Movement::Down);
        v.push(Movement::Left);
        v.push(Movement::Right);
        proof {
            assert(v@ =~= seq![Movement::Up, Movement::Down, Movement::Left, Movement::Right]);
        }
        v
    }

    /// The wire spelling of a move, as a sequence of characters.
    pub open spec fn spec_text(self) -> Seq<char> {
        match self {
            Movement::Up => "up"@,
            Movement::Down => "down"@,
            Movement::Left => "left"@,
            Movement::Right => "right"@,
            Movement::Still => "no movement made somehow"@,
        }
    }

    /// The wire spelling of a move, owned.
    pub fn text(self) -> (r: String)
        ensures
            r@ == self.spec_text(),
    {
        match self {
            Movement::Up => String::from_str("up"),
            Movement::Down => String::from_str("down"),
            Movement::Left => String::from_str("left"),
            Movement::Right => String::from_str("right"),
            Movement::Still => String::from_str("no movement made somehow"),
        }
    }
}

impl Coord {
    /// Steps one cell in direction `m`; the step must not leave `i32`.
    pub fn step(self, m: Movement) -> (r: Coord)
        requires
            i32::MIN <= next_xy(self, m).0 <= i32::MAX,
            i32::MIN <= next_xy(self, m).1 <= i32::MAX,
        ensures
            r.x == next_xy(self, m).0,
            r.y == next_xy(self, m).1,
    {
        match m {
            Movement::Up => Coord { x: self.x, y: self.y + 1 },
            Movement::Down => Coord { x: self.x, y: self.y - 1 },
            Movement::Left => Coord { x: self.x - 1, y: self.y },
            Movement::Right => Coord { x: self.x + 1, y: self.y },
            Movement::Still => self,
        }
    }

    /// The taxicab distance between two cells.
    pub fn manhattan(&self, other: &Self) -> (r: u32)
        requires
            vstd::math::abs(self.x - other.x) + vstd::math::abs(self.y - other.y) <= u32::MAX,
        ensures
            r == vstd::math::abs(self.x - other.x) + vstd::math::abs(self.y - other.y),
    {
        let dx: i64 = self.x as i64 - other.x as i64;
        let dy: i64 = self.y as i64 - other.y as i64;
        let adx: i64 = if dx < 0 { -dx } else { dx };
        let ady: i64 = if dy < 0 { -dy } else { dy };
        (adx + ady) as u32
    }
}

/// A move assigned to the agent in board slot `id`.
#[derive(Clone, Copy, PartialEq, Eq, Structural, Debug)]
pub struct SnakeMove {
    pub id: usize,
    pub mv: Movement,
}

} // verus!
