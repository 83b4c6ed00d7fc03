//! The wire-format board snapshot as the adapter hands it to the engine:
//! grid dimensions, food, and every agent with its identifier, health and
//! body. The engine only reads these values; the adapter owns (de)serialization.
use vstd::prelude::*;

use crate::grid::{Coord, Movement, next_xy};

verus! {

/// The mathematical value of a wire snake: what the engine reads of it.
#[verifier::ext_equal]
pub struct SnakeW {
    pub id: Seq<char>,
    pub health: int,
    pub body: Seq<Coord>,
    pub length: int,
}

/// The mathematical value of a wire board.
#[verifier::ext_equal]
pub struct BoardW {
    pub width: int,
    pub height: int,
    pub food: Seq<Coord>,
    pub snakes: Seq<SnakeW>,
}

/// One agent as it appears in a turn snapshot.
#[derive(Debug, Clone)]
pub struct Battlesnake {
    pub id: String,
    pub name: String,
    pub health: i32,
    pub body: Vec<Coord>,
    pub head: Coord,
    pub length: i32,
    pub latency: String,
    pub shout: Option<String>,
}

impl View for Battlesnake {
    type V = SnakeW;

    open spec fn view(&self) -> SnakeW {
        SnakeW {
            id: self.id@,
            health: self.health as int,
            body: self.body@,
            length: self.length as int,
        }
    }
}

/// A full turn snapshot of the grid.
#[derive(Debug, Clone)]
pub struct Board {
    pub height: i32,
    pub width: i32,
    pub food: Vec<Coord>,
    pub snakes: Vec<Battlesnake>,
    pub hazards: Vec<Coord>,
}

impl View for Board {
    type V = BoardW;

    open spec fn view(&self) -> BoardW {
        BoardW {
            width: self.width as int,
            height: self.height as int,
            food: self.food@,
            snakes: self.snakes@.map_values(|s: Battlesnake| s@),
        }
    }
}

/// What the adapter knows about the running game: which two agents are
/// ours, the moves already committed, and the per-turn time budget in
/// milliseconds.
pub struct GameInfo {
    pub agent_ids: Vec<String>,
    pub agent_moves: Vec<Vec<String>>,
    pub timeout: u32,
}

/// Whether some identifier in `ids` spells exactly `id`.
pub open spec fn spec_has_id(ids: Seq<String>, id: Seq<char>) -> bool {
    exists|i: int| 0 <= i < ids.len() && ids[i]@ == id
}

/// Membership test for an identifier list.
pub fn contains_id(ids: &Vec<String>, id: &String) -> (r: bool)
    ensures
        r == spec_has_id(ids@, id@),
{
    let mut i: usize = 0;
    while i < ids.len()
        invariant
            0 <= i <= ids@.len(),
            forall|j: int| 0 <= j < i ==> ids@[j]@ != id@,
        decreases ids@.len() - i,
    {
        if ids[i].eq(id) {
            return true;
        }
        i += 1;
    }
    false
}

/// Some cell of `body` is exactly (x, y).
pub open spec fn cell_in(body: Seq<Coord>, x: int, y: int) -> bool {
    exists|k: int| 0 <= k < body.len() && body[k].x == x && (#[trigger] body[k]).y == y
}

/// The neck rule as the wire-format generator applies it: one direction is
/// excluded by the first matching comparison of neck against head, so the
/// vertical rules only fire when the two share a column.
pub open spec fn wire_neck_excluded(you: SnakeW, m: Movement) -> bool {
    let head = you.body[0];
    let neck = you.body[1];
    match m {
        Movement::Left => neck.x < head.x,
        Movement::Right => neck.x > head.x,
        Movement::Down => neck.x == head.x && neck.y < head.y,
        Movement::Up => neck.x == head.x && neck.y > head.y,
        Movement::Still => false,
    }
}

/// The wire-format edge test: a move is out of bounds when the head
/// already sits on the edge it points at.
pub open spec fn wire_oob(c: Coord, width: int, height: int, m: Movement) -> bool {
    match m {
        Movement::Up => c.y == height - 1,
        Movement::Down => c.y == 0,
        Movement::Left => c.x == 0,
        Movement::Right => c.x == width - 1,
        Movement::Still => false,
    }
}

/// A move passes the wire-format generator: not a reversal onto the neck,
/// not off the grid, not onto the agent's own body behind the neck (tail
/// excluded, since it retracts), and not onto another agent's body between
/// its head and its tail.
pub open spec fn wire_move_safe(b: BoardW, you: SnakeW, m: Movement) -> bool {
    let nx = next_xy(you.body[0], m).0;
    let ny = next_xy(you.body[0], m).1;
    &&& !wire_neck_excluded(you, m)
    &&& !wire_oob(you.body[0], b.width, b.height, m)
    &&& !cell_in(you.body.subrange(2, you.body.len() - 1), nx, ny)
    &&& !(exists|j: int|
        0 <= j < b.snakes.len() && (#[trigger] b.snakes[j]).id != you.id && cell_in(
            b.snakes[j].body.subrange(1, b.snakes[j].body.len() - 1),
            nx,
            ny,
        ))
}

/// The legal wire-format moves, in the fixed enumeration order.
pub open spec fn wire_safe_moves(b: BoardW, you: SnakeW) -> Seq<Movement> {
    (if wire_move_safe(b, you, Movement::Up) {
        seq![Movement::Up]
    } else {
        Seq::<Movement>::empty()
    }) + (if wire_move_safe(b, you, Movement::Down) {
        seq![Movement::Down]
    } else {
        Seq::<Movement>::empty()
    }) + (if wire_move_safe(b, you, Movement::Left) {
        seq![Movement::Left]
    } else {
        Seq::<Movement>::empty()
    }) + (if wire_move_safe(b, you, Movement::Right) {
        seq![Movement::Right]
    } else {
        Seq::<Movement>::empty()
    })
}

/// The cell one step from `position` in direction `m` (`Still` stays).
pub fn new_position(position: &Coord, m: Movement) -> (r: Coord)
    requires
        i32::MIN <= next_xy(*position, m).0 <= i32::MAX,
        i32::MIN <= next_xy(*position, m).1 <= i32::MAX,
    ensures
        r.x == next_xy(*position, m).0,
        r.y == next_xy(*position, m).1,
{
    position.step(m)
}

/// Would moving from `position` by `m` leave the board?
pub fn out_of_bounds(position: &Coord, board: &Board, m: Movement) -> (r: bool)
    requires
        1 <= board.width,
        1 <= board.height,
    ensures
        r == wire_oob(*position, board@.width, board@.height, m),
{
    match m {
        Movement::Up => position.y == board.height - 1,
        Movement::Down => position.y == 0,
        Movement::Left => position.x == 0,
        Movement::Right => position.x == board.width - 1,
        Movement::Still => false,
    }
}

/// Does the head, moved by `m`, land on any cell of `body`?
pub fn collision_with_body(position: &Coord, body: &[Coord], m: Movement) -> (r: bool)
    requires
        i32::MIN <= next_xy(*position, m).0 <= i32::MAX,
        i32::MIN <= next_xy(*position, m).1 <= i32::MAX,
    ensures
        r == cell_in(body@, next_xy(*position, m).0, next_xy(*position, m).1),
{
    let next_position = new_position(position, m);
    let mut k: usize = 0;
    while k < body.len()
        invariant
            0 <= k <= body@.len(),
            forall|q: int|
                0 <= q < k ==> !(body@[q].x == next_position.x && (#[trigger] body@[q]).y
                    == next_position.y),
        decreases body@.len() - k,
    {
        let part = body[k];
        if part.x == next_position.x && part.y == next_position.y {
            proof {
                assert(body@[k as int].x == next_position.x && body@[k as int].y
                    == next_position.y);
            }
            return true;
        }
        k += 1;
    }
    false
}

/// Does the head, moved by `m`, land between head and tail of any other
/// agent (identified by a different id)?
pub fn collision_with_snakes(position: &Coord, board: &Board, id: &String, m: Movement) -> (r: bool)
    requires
        i32::MIN <= next_xy(*position, m).0 <= i32::MAX,
        i32::MIN <= next_xy(*position, m).1 <= i32::MAX,
        forall|j: int| 0 <= j < board@.snakes.len() ==> (#[trigger] board@.snakes[j]).body.len() >= 2,
    ensures
        r == exists|j: int|
            0 <= j < board@.snakes.len() && (#[trigger] board@.snakes[j]).id != id@ && cell_in(
                board@.snakes[j].body.subrange(1, board@.snakes[j].body.len() - 1),
                next_xy(*position, m).0,
                next_xy(*position, m).1,
            ),
{
    let next_position = new_position(position, m);
    let mut j: usize = 0;
    while j < board.snakes.len()
        invariant
            0 <= j <= board@.snakes.len(),
            next_position.x as int == next_xy(*position, m).0,
            next_position.y as int == next_xy(*position, m).1,
            forall|q: int| 0 <= q < board@.snakes.len() ==> (#[trigger] board@.snakes[q]).body.len() >= 2,
            forall|q: int|
                0 <= q < j ==> !((#[trigger] board@.snakes[q]).id != id@ && cell_in(
                    board@.snakes[q].body.subrange(1, board@.snakes[q].body.len() - 1),
                    next_xy(*position, m).0,
                    next_xy(*position, m).1,
                )),
        decreases board@.snakes.len() - j,
    {
        let snake = &board.snakes[j];
        proof {
            assert(board@.snakes[j as int] == snake@);
        }
        if !snake.id.eq(id) {
            let interior = &snake.body[1..snake.body.len() - 1];
            if collision_with_body(&next_position, interior, Movement::Still) {
                return true;
            }
        }
        j += 1;
    }
    false
}

/// The wire-format legal-move generator: the four moves filtered by the
/// neck rule, the bounds rule, the own-body rule and the other-agents rule.
pub fn get_safe_moves(board: &Board, you: &Battlesnake) -> (r: Vec<Movement>)
    requires
        you@.body.len() >= 3,
        1 <= board@.width <= 1000000,
        1 <= board@.height <= 1000000,
        -1000000 <= you@.body[0].x <= 1000000,
        -1000000 <= you@.body[0].y <= 1000000,
        forall|j: int| 0 <= j < board@.snakes.len() ==> (#[trigger] board@.snakes[j]).body.len() >= 2,
    ensures
        r@ == wire_safe_moves(board@, you@),
{
    let mut r: Vec<Movement> = Vec::new();
    if wire_move_ok(board, you, Movement::Up) {
        r.push(Movement::Up);
    }
    if wire_move_ok(board, you, Movement::Down) {
        r.push(Movement::Down);
    }
    if wire_move_ok(board, you, Movement::Left) {
        r.push(Movement::Left);
    }
    if wire_move_ok(board, you, Movement::Right) {
        r.push(Movement::Right);
    }
    proof {
        assert(r@ =~= wire_safe_moves(board@, you@));
    }
    r
}

/// One wire-format move through all four filters.
fn wire_move_ok(board: &Board, you: &Battlesnake, m: Movement) -> (r: bool)
    requires
        you@.body.len() >= 3,
        1 <= board@.width <= 1000000,
        1 <= board@.height <= 1000000,
        -1000000 <= you@.body[0].x <= 1000000,
        -1000000 <= you@.body[0].y <= 1000000,
        forall|j: int| 0 <= j < board@.snakes.len() ==> (#[trigger] board@.snakes[j]).body.len() >= 2,
    ensures
        r == wire_move_safe(board@, you@, m),
{
    let my_head = self_head(you);
    let my_neck = you.body[1];
    let excluded = if my_neck.x < my_head.x {
        matches!(m, Movement::Left)
    } else if my_neck.x > my_head.x {
        matches!(m, Movement::Right)
    } else if my_neck.y < my_head.y {
        matches!(m, Movement::Down)
    } else if my_neck.y > my_head.y {
        matches!(m, Movement::Up)
    } else {
        false
    };
    if excluded {
        return false;
    }
    if out_of_bounds(&my_head, board, m) {
        return false;
    }
    let interior = &you.body[2..you.body.len() - 1];
    if collision_with_body(&my_head, interior, m) {
        return false;
    }
    !collision_with_snakes(&my_head, board, &you.id, m)
}

/// The head of a wire snake.
fn self_head(you: &Battlesnake) -> (r: Coord)
    requires
        you@.body.len() >= 1,
    ensures
        r == you@.body[0],
{
    you.body[0]
}

} // verus!
