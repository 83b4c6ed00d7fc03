//! The compact simulation model: a snapshot of the game optimized for
//! search, with fixed team/opponent slots, double-ended body sequences and
//! cached heuristic values.
use vstd::prelude::*;

use crate::grid::{Coord, Movement, SnakeMove, next_xy, on_grid};
use crate::wire::{Battlesnake, Board, GameInfo, contains_id, spec_has_id};
use std::collections::VecDeque;

verus! {

/// The mathematical value of a compact snake: its health and its body from
/// head (index 0) to tail (last index).
#[verifier::ext_equal]
pub struct SnakeModel {
    pub health: int,
    pub body: Seq<Coord>,
}

/// One agent in the compact model. The body is double-ended so that a ply
/// costs one head push and at most one tail pop.
#[derive(Debug, Clone)]
pub struct SimpleSnake {
    pub health: i32,
    pub body: VecDeque<Coord>,
}

impl View for SimpleSnake {
    type V = SnakeModel;

    open spec fn view(&self) -> SnakeModel {
        SnakeModel { health: self.health as int, body: self.body@ }
    }
}

impl SimpleSnake {
    /// Builds a compact snake from its wire form.
    pub fn from(snake: &Battlesnake) -> (r: Self)
        ensures
            r@.health == snake.health as int,
            r@.body == snake.body@,
    {
        let mut body: VecDeque<Coord> = VecDeque::new();
        let mut i: usize = 0;
        while i < snake.body.len()
            invariant
                0 <= i <= snake.body.len(),
                body@ == snake.body@.subrange(0, i as int),
            decreases snake.body.len() - i,
        {
            body.push_back(snake.body[i]);
            proof {
                assert(body@ =~= snake.body@.subrange(0, i + 1));
            }
            i += 1;
        }
        proof {
            assert(body@ =~= snake.body@);
        }
        SimpleSnake { health: snake.health, body }
    }

    /// The head cell.
    pub fn head(&self) -> (r: Coord)
        requires
            self@.body.len() >= 1,
        ensures
            r == self@.body[0],
    {
        self.body[0]
    }

    /// The cell this snake's head would occupy after taking `movement`.
    pub fn next_position(&self, movement: Movement) -> (r: Coord)
        requires
            self@.body.len() >= 1,
            i32::MIN <= next_xy(self@.body[0], movement).0 <= i32::MAX,
            i32::MIN <= next_xy(self@.body[0], movement).1 <= i32::MAX,
        ensures
            r.x == next_xy(self@.body[0], movement).0,
            r.y == next_xy(self@.body[0], movement).1,
    {
        let head = self.body[0];
        head.step(movement)
    }

    /// Whether the head after `movement` would land on any current segment
    /// of this snake's own body.
    pub fn collision_with_body(&self, movement: Movement) -> (r: bool)
        requires
            self@.body.len() >= 1,
            i32::MIN <= next_xy(self@.body[0], movement).0 <= i32::MAX,
            i32::MIN <= next_xy(self@.body[0], movement).1 <= i32::MAX,
        ensures
            r == self@.body.contains(
                Coord {
                    x: next_xy(self@.body[0], movement).0 as i32,
                    y: next_xy(self@.body[0], movement).1 as i32,
                },
            ),
    {
        let next_pos = self.next_position(movement);
        let mut i: usize = 0;
        let n = self.body.len();
        while i < n
            invariant
                0 <= i <= n,
                n == self@.body.len(),
                forall|j: int| 0 <= j < i ==> self@.body[j] != next_pos,
            decreases n - i,
        {
            if self.body[i] == next_pos {
                return true;
            }
            i += 1;
        }
        false
    }
}

/// Whether one step in direction `movement` from `coord` leaves a grid of
/// the given dimensions. `Still` never leaves the grid.
pub open spec fn spec_simple_out_of_bounds(
    coord: Coord,
    movement: Movement,
    width: int,
    height: int,
) -> bool {
    match movement {
        Movement::Up => coord.y == height - 1,
        Movement::Down => coord.y == 0,
        Movement::Left => coord.x == 0,
        Movement::Right => coord.x == width - 1,
        Movement::Still => false,
    }
}

/// Edge test for the compact model: taking `movement` from `coord` would
/// step off a `width` by `height` grid (assuming `coord` is on it).
pub fn simple_out_of_bounds(coord: &Coord, movement: &Movement, width: i32, height: i32) -> (r:
    bool)
    requires
        1 <= width,
        1 <= height,
    ensures
        r == spec_simple_out_of_bounds(*coord, *movement, width as int, height as int),
{
    match movement {
        Movement::Up => coord.y == height - 1,
        Movement::Down => coord.y == 0,
        Movement::Left => coord.x == 0,
        Movement::Right => coord.x == width - 1,
        Movement::Still => false,
    }
}

/// The mathematical value of a compact board.
#[verifier::ext_equal]
pub struct BoardModel {
    pub width: int,
    pub height: int,
    pub food: Seq<Coord>,
    pub snakes: Seq<Option<SnakeModel>>,
    pub team: (int, int),
    pub opps: (int, int),
    pub fast_cache: Option<int>,
    pub flood_cache: Option<int>,
}

/// The compact board: a fixed array of four optional agent slots (a slot
/// stays at its index for the whole search branch and turns `None` when its
/// agent is eliminated), the food list, and the two fixed slot pairs naming
/// our team and the opposing team. The cached heuristic values are cleared
/// whenever the board advances a ply.
#[derive(Debug, Clone)]
pub struct SimpleBoard {
    pub width: i32,
    pub height: i32,
    pub food: Vec<Coord>,
    pub snakes: Vec<Option<SimpleSnake>>,
    pub team: [usize; 2],
    pub opps: [usize; 2],
    pub stored_fast_heuristic: Option<i32>,
    pub stored_flood_fill_heuristic: Option<i32>,
}

/// The model of one optional slot.
pub open spec fn slot_view(s: Option<SimpleSnake>) -> Option<SnakeModel> {
    match s {
        Some(x) => Some(x@),
        None => None,
    }
}

impl View for SimpleBoard {
    type V = BoardModel;

    open spec fn view(&self) -> BoardModel {
        BoardModel {
            width: self.width as int,
            height: self.height as int,
            food: self.food@,
            snakes: self.snakes@.map_values(|s| slot_view(s)),
            team: (self.team[0] as int, self.team[1] as int),
            opps: (self.opps[0] as int, self.opps[1] as int),
            fast_cache: match self.stored_fast_heuristic {
                Some(v) => Some(v as int),
                None => None,
            },
            flood_cache: match self.stored_flood_fill_heuristic {
                Some(v) => Some(v as int),
                None => None,
            },
        }
    }
}

/// The live agent in slot `i` has its head on the grid.
pub open spec fn on_grid_head(b: BoardModel, i: int) -> bool
    recommends
        live(b, i),
{
    on_grid(snake_at(b, i).body[0].x as int, snake_at(b, i).body[0].y as int, b.width, b.height)
}

/// Whether slot `i` holds a live agent.
pub open spec fn live(b: BoardModel, i: int) -> bool {
    0 <= i < b.snakes.len() && b.snakes[i] is Some
}

/// The model of the live agent in slot `i`.
pub open spec fn snake_at(b: BoardModel, i: int) -> SnakeModel
    recommends
        live(b, i),
{
    b.snakes[i]->0
}

/// Total number of body segments over all live agents.
pub open spec fn sum_lens(s: Seq<Option<SnakeModel>>) -> int
    decreases s.len(),
{
    if s.len() == 0 {
        0
    } else {
        (match s[0] {
            Some(m) => m.body.len() as int,
            None => 0,
        }) + sum_lens(s.drop_first())
    }
}

/// Every segment of every live agent lies on the grid or at most two cells
/// beyond it (heads may step one cell off the grid between two plies of a
/// round, before elimination resolution removes them).
pub open spec fn coords_near_grid(b: BoardModel) -> bool {
    forall|i: int, k: int|
        live(b, i) && 0 <= k < snake_at(b, i).body.len() ==> {
            let c = #[trigger] snake_at(b, i).body[k];
            -2 <= c.x <= b.width + 1 && -2 <= c.y <= b.height + 1
        }
}

/// Well-formedness of a compact board: plausible grid dimensions, exactly
/// four slots split into two disjoint fixed pairs, healthy bounded agents,
/// a bounded total of body segments and food, and caches that either are
/// empty or hold the value they claim to cache.
pub open spec fn board_wf(b: BoardModel) -> bool {
    &&& 1 <= b.width <= 1000
    &&& 1 <= b.height <= 1000
    &&& b.snakes.len() == 4
    &&& 0 <= b.team.0 < 4
    &&& 0 <= b.team.1 < 4
    &&& 0 <= b.opps.0 < 4
    &&& 0 <= b.opps.1 < 4
    &&& b.team.0 != b.team.1
    &&& b.opps.0 != b.opps.1
    &&& b.team.0 != b.opps.0
    &&& b.team.0 != b.opps.1
    &&& b.team.1 != b.opps.0
    &&& b.team.1 != b.opps.1
    &&& forall|i: int|
        live(b, i) ==> 1 <= snake_at(b, i).body.len() && -1 <= snake_at(b, i).health <= 100
    &&& sum_lens(b.snakes) + b.food.len() <= 1000000
    &&& coords_near_grid(b)
    &&& (b.fast_cache matches Some(v) ==> v == spec_fast_heuristic(b))
    &&& (b.flood_cache matches Some(v) ==> v == spec_flood_term(b) && -100000000 <= v
        <= 100000000)
}

/// The material term of one slot seen as a friend: its length, minus a
/// penalty when its health is below the low-health threshold of 20.
pub open spec fn slot_length_value(b: BoardModel, i: int) -> int {
    if live(b, i) {
        snake_at(b, i).body.len() as int
    } else {
        0
    }
}

/// Low-health penalty of one slot (0 for an empty slot).
pub open spec fn slot_health_value(b: BoardModel, i: int) -> int {
    if live(b, i) && snake_at(b, i).health < 20 {
        20 - snake_at(b, i).health
    } else {
        0
    }
}

/// 1 when the slot is empty (its agent is dead), else 0.
pub open spec fn slot_dead(b: BoardModel, i: int) -> int {
    if live(b, i) {
        0
    } else {
        1
    }
}

/// The cheap material heuristic: length and low-health terms for our two
/// slots minus the same terms for the opposing slots, plus a death term,
/// with the two sentinel values for a side that has lost both agents. Our
/// side is checked first, so a board where everyone is gone evaluates to
/// the minimum sentinel.
pub open spec fn spec_fast_heuristic(b: BoardModel) -> int {
    if slot_dead(b, b.team.0) + slot_dead(b, b.team.1) == 2 {
        i32::MIN as int
    } else if slot_dead(b, b.opps.0) + slot_dead(b, b.opps.1) == 2 {
        i32::MAX as int
    } else {
        let health_value = slot_health_value(b, b.opps.0) + slot_health_value(b, b.opps.1)
            - slot_health_value(b, b.team.0) - slot_health_value(b, b.team.1);
        let length_value = slot_length_value(b, b.team.0) + slot_length_value(b, b.team.1)
            - slot_length_value(b, b.opps.0) - slot_length_value(b, b.opps.1);
        let death_value = slot_dead(b, b.opps.0) + slot_dead(b, b.opps.1) - slot_dead(b, b.team.0)
            - slot_dead(b, b.team.1);
        health_value + length_value * 8 + death_value * 20
    }
}

/// Any single live agent's length is bounded by the total.
proof fn lemma_sum_lens_single(s: Seq<Option<SnakeModel>>, i: int)
    requires
        0 <= i < s.len(),
        s[i] is Some,
    ensures
        s[i]->0.body.len() <= sum_lens(s),
        sum_lens(s) >= 0,
    decreases s.len(),
{
    lemma_sum_lens_nonneg(s.drop_first());
    if i > 0 {
        lemma_sum_lens_single(s.drop_first(), i - 1);
    }
}

/// The total number of segments is never negative.
proof fn lemma_sum_lens_nonneg(s: Seq<Option<SnakeModel>>)
    ensures
        sum_lens(s) >= 0,
    decreases s.len(),
{
    if s.len() > 0 {
        lemma_sum_lens_nonneg(s.drop_first());
    }
}

/// Appending a slot adds that slot's length to the total.
proof fn lemma_sum_lens_push(s: Seq<Option<SnakeModel>>, v: Option<SnakeModel>)
    ensures
        sum_lens(s.push(v)) == sum_lens(s) + (match v {
            Some(m) => m.body.len() as int,
            None => 0,
        }),
    decreases s.len(),
{
    if s.len() == 0 {
        assert(s.push(v).drop_first() =~= Seq::<Option<SnakeModel>>::empty());
        assert(s.push(v)[0] == v);
        assert(sum_lens(s) == 0);
        assert(sum_lens(Seq::<Option<SnakeModel>>::empty()) == 0);
    } else {
        assert(s.push(v).drop_first() =~= s.drop_first().push(v));
        assert(s.push(v)[0] == s[0]);
        lemma_sum_lens_push(s.drop_first(), v);
    }
}

/// On a well-formed board the non-sentinel material score stays far away
/// from both sentinels.
pub proof fn lemma_fast_heuristic_bounds(b: BoardModel)
    requires
        board_wf(b),
        slot_dead(b, b.team.0) + slot_dead(b, b.team.1) != 2,
        slot_dead(b, b.opps.0) + slot_dead(b, b.opps.1) != 2,
    ensures
        -100000000 <= spec_fast_heuristic(b) <= 100000000,
{
    assert forall|i: int| 0 <= i < 4 implies slot_length_value(b, i) <= 1000000 by {
        if live(b, i) {
            lemma_sum_lens_single(b.snakes, i);
            assert(b.food.len() >= 0);
        }
    }
    assert(slot_length_value(b, b.team.0) >= 0);
    assert(slot_length_value(b, b.team.1) >= 0);
    assert(slot_length_value(b, b.opps.0) >= 0);
    assert(slot_length_value(b, b.opps.1) >= 0);
}

/// The model a wire snake gets when it enters the compact board.
pub open spec fn wire_snake_model(s: Battlesnake) -> SnakeModel {
    SnakeModel { health: s.health as int, body: s.body@ }
}

/// Whether the wire snake at index `k` belongs to our team.
pub open spec fn friendly(snakes: Seq<Battlesnake>, ids: Seq<String>, k: int) -> bool {
    spec_has_id(ids, snakes[k].id@)
}

/// Whether the wire snake at index `k` belongs to the opposing team.
pub open spec fn hostile(snakes: Seq<Battlesnake>, ids: Seq<String>, k: int) -> bool {
    !spec_has_id(ids, snakes[k].id@)
}

/// Total number of body segments over a wire snake list.
pub open spec fn wire_sum_lens(s: Seq<Battlesnake>) -> int
    decreases s.len(),
{
    if s.len() == 0 {
        0
    } else {
        s[0].body@.len() + wire_sum_lens(s.drop_first())
    }
}

/// Appending a wire snake adds its length to the total.
proof fn lemma_wire_sum_lens_take(s: Seq<Battlesnake>, i: int)
    requires
        0 <= i < s.len(),
    ensures
        wire_sum_lens(s.take(i + 1)) == wire_sum_lens(s.take(i)) + s[i].body@.len(),
        wire_sum_lens(s.take(s.len() as int)) == wire_sum_lens(s),
    decreases s.len(),
{
    assert(s.take(s.len() as int) =~= s);
    if i == 0 {
        assert(s.take(0) =~= Seq::<Battlesnake>::empty());
        assert(s.take(1).drop_first() =~= Seq::<Battlesnake>::empty());
    } else {
        assert(s.take(i + 1).drop_first() =~= s.drop_first().take(i));
        assert(s.take(i).drop_first() =~= s.drop_first().take(i - 1));
        lemma_wire_sum_lens_take(s.drop_first(), i - 1);
        assert(s.take(i + 1)[0] == s[0]);
        assert(s.take(i)[0] == s[0]);
    }
}

/// Whether `k` is one of the two slots of our team.
pub open spec fn is_team_slot(b: BoardModel, k: int) -> bool {
    b.team.0 == k || b.team.1 == k
}

/// Whether `k` is one of the two slots of the opposing team.
pub open spec fn is_opp_slot(b: BoardModel, k: int) -> bool {
    b.opps.0 == k || b.opps.1 == k
}

/// How a compact board is built from a wire snapshot: slot `k` holds wire
/// snake `k`, the slots past the wire snakes are empty padding, our team's
/// slots are exactly the wire snakes whose identifiers were named, and the
/// caches start empty.
pub open spec fn from_rel(
    wire: Seq<Battlesnake>,
    ids: Seq<String>,
    width: int,
    height: int,
    food: Seq<Coord>,
    bm: BoardModel,
) -> bool {
    &&& board_wf(bm)
    &&& bm.width == width
    &&& bm.height == height
    &&& bm.food == food
    &&& bm.snakes.len() == 4
    &&& forall|k: int|
        0 <= k < wire.len() ==> bm.snakes[k] == Some(wire_snake_model(#[trigger] wire[k]))
    &&& forall|k: int| wire.len() <= k < 4 ==> (#[trigger] bm.snakes[k]) is None
    &&& bm.fast_cache is None
    &&& bm.flood_cache is None
    &&& forall|k: int|
        0 <= k < wire.len() ==> (is_team_slot(bm, k) <==> friendly(wire, ids, k))
    &&& forall|k: int|
        0 <= k < wire.len() ==> (is_opp_slot(bm, k) <==> hostile(wire, ids, k))
}

impl SimpleBoard {
    /// Builds the compact board from a wire snapshot: every wire snake goes
    /// into the slot equal to its wire index, our two team slots are the
    /// snakes whose identifiers appear in `game_info.agent_ids`, and absent
    /// team members are represented by empty padding slots so that both
    /// sides always name exactly two slots.
    pub fn from(board: &Board, game_info: &GameInfo) -> (r: Self)
        requires
            1 <= board.width <= 1000,
            1 <= board.height <= 1000,
            board.snakes@.len() <= 4,
            forall|k: int|
                0 <= k < board.snakes@.len() ==> 0 <= #[trigger] board.snakes@[k].health <= 100
                    && 1 <= board.snakes@[k].body@.len(),
            forall|k: int, j: int|
                0 <= k < board.snakes@.len() && 0 <= j < board.snakes@[k].body@.len() ==> on_grid(
                    #[trigger] board.snakes@[k].body@[j].x as int,
                    board.snakes@[k].body@[j].y as int,
                    board.width as int,
                    board.height as int,
                ),
            wire_sum_lens(board.snakes@) + board.food@.len() <= 1000000,
            forall|a: int, b: int, c: int|
                0 <= a < b && b < c && c < board.snakes@.len() && #[trigger] friendly(
                    board.snakes@,
                    game_info.agent_ids@,
                    a,
                ) && #[trigger] friendly(board.snakes@, game_info.agent_ids@, b) && #[trigger] friendly(
                    board.snakes@,
                    game_info.agent_ids@,
                    c,
                ) ==> false,
            forall|a: int, b: int, c: int|
                0 <= a < b && b < c && c < board.snakes@.len() && #[trigger] hostile(
                    board.snakes@,
                    game_info.agent_ids@,
                    a,
                ) && #[trigger] hostile(board.snakes@, game_info.agent_ids@, b) && #[trigger] hostile(
                    board.snakes@,
                    game_info.agent_ids@,
                    c,
                ) ==> false,
        ensures
            board_wf(r@),
            r@.width == board.width as int,
            r@.height == board.height as int,
            r@.food == board.food@,
            r@.snakes.len() == 4,
            forall|k: int|
                0 <= k < board.snakes@.len() ==> r@.snakes[k] == Some(
                    wire_snake_model(#[trigger] board.snakes@[k]),
                ),
            forall|k: int| board.snakes@.len() <= k < 4 ==> r@.snakes[k] is None,
            r@.fast_cache is None,
            r@.flood_cache is None,
            forall|k: int|
                0 <= k < board.snakes@.len() ==> (is_team_slot(r@, k) <==> friendly(
                    board.snakes@,
                    game_info.agent_ids@,
                    k,
                )),
            forall|k: int|
                0 <= k < board.snakes@.len() ==> (is_opp_slot(r@, k) <==> hostile(
                    board.snakes@,
                    game_info.agent_ids@,
                    k,
                )),
            from_rel(
                board.snakes@,
                game_info.agent_ids@,
                board.width as int,
                board.height as int,
                board.food@,
                r@,
            ),
    {
        let ghost wire = board.snakes@;
        let ghost ids = game_info.agent_ids@;
        let n = board.snakes.len();
        let mut snakes: Vec<Option<SimpleSnake>> = Vec::new();
        let mut fr: Vec<usize> = Vec::new();
        let mut en: Vec<usize> = Vec::new();
        let mut idx: usize = 0;
        while idx < n
            invariant
                0 <= idx <= n,
                n == wire.len(),
                snakes@.len() == idx,
                forall|k: int|
                    0 <= k < idx ==> snakes@.map_values(|s| slot_view(s))[k] == Some(
                        wire_snake_model(#[trigger] wire[k]),
                    ),
                sum_lens(snakes@.map_values(|s| slot_view(s))) == wire_sum_lens(wire.take(idx as int)),
                fr@.len() + en@.len() == idx,
                forall|j: int| 0 <= j < fr@.len() ==> 0 <= #[trigger] fr@[j] < idx,
                forall|j: int| 0 <= j < en@.len() ==> 0 <= #[trigger] en@[j] < idx,
                forall|j1: int, j2: int| 0 <= j1 < j2 < fr@.len() ==> fr@[j1] < fr@[j2],
                forall|j1: int, j2: int| 0 <= j1 < j2 < en@.len() ==> en@[j1] < en@[j2],
                forall|j: int| 0 <= j < fr@.len() ==> friendly(wire, ids, #[trigger] fr@[j] as int),
                forall|j: int| 0 <= j < en@.len() ==> hostile(wire, ids, #[trigger] en@[j] as int),
                forall|k: int|
                    0 <= k < idx && friendly(wire, ids, k) ==> fr@.contains(k as usize),
                forall|k: int|
                    0 <= k < idx && hostile(wire, ids, k) ==> en@.contains(k as usize),
            decreases n - idx,
        {
            let ghost old_models = snakes@.map_values(|s| slot_view(s));
            let s = SimpleSnake::from(&board.snakes[idx]);
            snakes.push(Some(s));
            proof {
                assert(snakes@.map_values(|s| slot_view(s)) =~= old_models.push(
                    Some(wire_snake_model(wire[idx as int])),
                ));
                lemma_sum_lens_push(old_models, Some(wire_snake_model(wire[idx as int])));
                lemma_wire_sum_lens_take(wire, idx as int);
            }
            let ghost fr_old = fr@;
            let ghost en_old = en@;
            if contains_id(&game_info.agent_ids, &board.snakes[idx].id) {
                fr.push(idx);
                proof {
                    assert forall|k: int|
                        0 <= k < idx + 1 && friendly(wire, ids, k) implies fr@.contains(
                        k as usize,
                    ) by {
                        if k == idx {
                            assert(fr@[fr@.len() - 1] == idx as usize);
                        } else {
                            let j = choose|j: int|
                                0 <= j < fr_old.len() && fr_old[j] == k as usize;
                            assert(fr@[j] == k as usize);
                        }
                    }
                }
            } else {
                en.push(idx);
                proof {
                    assert forall|k: int|
                        0 <= k < idx + 1 && hostile(wire, ids, k) implies en@.contains(
                        k as usize,
                    ) by {
                        if k == idx {
                            assert(en@[en@.len() - 1] == idx as usize);
                        } else {
                            let j = choose|j: int|
                                0 <= j < en_old.len() && en_old[j] == k as usize;
                            assert(en@[j] == k as usize);
                        }
                    }
                }
            }
            idx += 1;
        }
        proof {
            assert(wire.take(n as int) =~= wire);
            if fr@.len() >= 3 {
                assert(friendly(wire, ids, fr@[0] as int));
                assert(friendly(wire, ids, fr@[1] as int));
                assert(friendly(wire, ids, fr@[2] as int));
                assert(false);
            }
            if en@.len() >= 3 {
                assert(hostile(wire, ids, en@[0] as int));
                assert(hostile(wire, ids, en@[1] as int));
                assert(hostile(wire, ids, en@[2] as int));
                assert(false);
            }
        }
        let fl = fr.len();
        let el = en.len();
        let t0: usize = if fl >= 1 { fr[0] } else { n };
        let t1: usize = if fl >= 2 { fr[1] } else { n + 1 - fl };
        let o0: usize = if el >= 1 { en[0] } else { n + 2 - fl };
        let o1: usize = if el >= 2 { en[1] } else { n + 2 - fl + 1 - el };
        while snakes.len() < 4
            invariant
                n <= snakes@.len() <= 4,
                forall|k: int|
                    0 <= k < n ==> snakes@.map_values(|s| slot_view(s))[k] == Some(
                        wire_snake_model(#[trigger] wire[k]),
                    ),
                forall|k: int| n <= k < snakes@.len() ==> (#[trigger] snakes@[k]) is None,
                sum_lens(snakes@.map_values(|s| slot_view(s))) == wire_sum_lens(wire),
            decreases 4 - snakes@.len(),
        {
            let ghost old_models = snakes@.map_values(|s| slot_view(s));
            snakes.push(None);
            proof {
                assert(snakes@.map_values(|s| slot_view(s)) =~= old_models.push(None));
                lemma_sum_lens_push(old_models, None);
            }
        }
        let r = SimpleBoard {
            width: board.width,
            height: board.height,
            food: board.food.clone(),
            snakes,
            team: [t0, t1],
            opps: [o0, o1],
            stored_fast_heuristic: None,
            stored_flood_fill_heuristic: None,
        };
        proof {
            assert(r@.snakes.len() == 4);
            assert forall|i: int| live(r@, i) implies 1 <= snake_at(r@, i).body.len() && 0 <= snake_at(
                r@,
                i,
            ).health <= 100 by {
                assert(0 <= i < n);
                assert(r@.snakes[i] == Some(wire_snake_model(wire[i])));
            }
            assert forall|i: int, k: int|
                live(r@, i) && 0 <= k < snake_at(r@, i).body.len() implies {
                let c = #[trigger] snake_at(r@, i).body[k];
                -2 <= c.x <= r@.width + 1 && -2 <= c.y <= r@.height + 1
            } by {
                assert(0 <= i < n);
                assert(r@.snakes[i] == Some(wire_snake_model(wire[i])));
                assert(on_grid(wire[i].body@[k].x as int, wire[i].body@[k].y as int, r@.width, r@.height));
            }
        }
        r
    }
}

/// The views of a list of claimed regions.
pub open spec fn regions_view(rr: Seq<Vec<Coord>>) -> Seq<Seq<Coord>> {
    rr.map_values(|v: Vec<Coord>| v@)
}

/// The mathematical view of the fill's worklist.
pub open spec fn qview(q: Seq<(usize, Coord)>) -> Seq<(int, Coord)> {
    q.map_values(|p: (usize, Coord)| (p.0 as int, p.1))
}

/// The mathematical view of the fill's seed list.
pub open spec fn seedsview(s: Seq<(usize, Coord, usize)>) -> Seq<(int, Coord, int)> {
    s.map_values(|t: (usize, Coord, usize)| (t.0 as int, t.1, t.2 as int))
}

/// Total number of cells claimed over all regions.
pub open spec fn sum_region_lens(rr: Seq<Seq<Coord>>) -> int
    decreases rr.len(),
{
    if rr.len() == 0 {
        0
    } else {
        rr[0].len() + sum_region_lens(rr.drop_first())
    }
}

proof fn lemma_sum_region_lens_nonneg(rr: Seq<Seq<Coord>>)
    ensures
        sum_region_lens(rr) >= 0,
    decreases rr.len(),
{
    if rr.len() > 0 {
        lemma_sum_region_lens_nonneg(rr.drop_first());
    }
}

/// One region's size is bounded by the total.
proof fn lemma_sum_region_lens_single(rr: Seq<Seq<Coord>>, i: int)
    requires
        0 <= i < rr.len(),
    ensures
        rr[i].len() <= sum_region_lens(rr),
    decreases rr.len(),
{
    lemma_sum_region_lens_nonneg(rr.drop_first());
    if i > 0 {
        lemma_sum_region_lens_single(rr.drop_first(), i - 1);
        assert(sum_region_lens(rr) == rr[0].len() + sum_region_lens(rr.drop_first()));
        assert(rr[0].len() >= 0);
    }
}

/// Replacing one region changes the total by the difference in sizes.
proof fn lemma_sum_region_lens_update(rr: Seq<Seq<Coord>>, i: int, v: Seq<Coord>)
    requires
        0 <= i < rr.len(),
    ensures
        sum_region_lens(rr.update(i, v)) == sum_region_lens(rr) - rr[i].len() + v.len(),
    decreases rr.len(),
{
    if i == 0 {
        assert(rr.update(0, v).drop_first() =~= rr.drop_first());
    } else {
        assert(rr.update(i, v).drop_first() =~= rr.drop_first().update(i - 1, v));
        assert(rr.update(i, v)[0] == rr[0]);
        lemma_sum_region_lens_update(rr.drop_first(), i - 1, v);
    }
}

/// Number of `true` entries in a visited map.
pub open spec fn count_true(s: Seq<bool>) -> int
    decreases s.len(),
{
    if s.len() == 0 {
        0
    } else {
        (if s[0] {
            1int
        } else {
            0int
        }) + count_true(s.drop_first())
    }
}

proof fn lemma_count_true_le_len(s: Seq<bool>)
    ensures
        0 <= count_true(s) <= s.len(),
    decreases s.len(),
{
    if s.len() > 0 {
        lemma_count_true_le_len(s.drop_first());
    }
}

/// Setting one entry changes the count accordingly.
proof fn lemma_count_true_update(s: Seq<bool>, i: int, v: bool)
    requires
        0 <= i < s.len(),
    ensures
        count_true(s.update(i, v)) == count_true(s) - (if s[i] {
            1int
        } else {
            0int
        }) + (if v {
            1int
        } else {
            0int
        }),
    decreases s.len(),
{
    if i == 0 {
        assert(s.update(0, v).drop_first() =~= s.drop_first());
    } else {
        assert(s.update(i, v).drop_first() =~= s.drop_first().update(i - 1, v));
        assert(s.update(i, v)[0] == s[0]);
        lemma_count_true_update(s.drop_first(), i - 1, v);
    }
}

proof fn lemma_count_true_push(s: Seq<bool>, v: bool)
    ensures
        count_true(s.push(v)) == count_true(s) + (if v {
            1int
        } else {
            0int
        }),
    decreases s.len(),
{
    if s.len() == 0 {
        assert(s.push(v).drop_first() =~= Seq::<bool>::empty());
        assert(s.push(v)[0] == v);
        assert(count_true(s) == 0);
        assert(count_true(Seq::<bool>::empty()) == 0);
    } else {
        assert(s.push(v).drop_first() =~= s.drop_first().push(v));
        assert(s.push(v)[0] == s[0]);
        lemma_count_true_push(s.drop_first(), v);
    }
}

/// The number of cells the fill gives the agent in slot `i` (0 for an
/// empty slot).
pub open spec fn slot_claim(b: BoardModel, i: int) -> int {
    if live(b, i) {
        spec_flood_fill(b)[i].len() as int
    } else {
        0
    }
}

/// The entrapment deficit of slot `i`: how far its claimed region falls
/// short of its own body length (0 for an empty slot or a roomy region).
pub open spec fn slot_danger(b: BoardModel, i: int) -> int {
    if live(b, i) && spec_flood_fill(b)[i].len() < snake_at(b, i).body.len() {
        snake_at(b, i).body.len() - spec_flood_fill(b)[i].len()
    } else {
        0
    }
}

/// The reachability term of the heuristic: our side's claimed cells minus
/// the opposing side's, plus four times the entrapment deficits counted
/// against whichever side suffers them.
pub open spec fn spec_flood_term(b: BoardModel) -> int {
    let sum = slot_claim(b, b.team.0) + slot_claim(b, b.team.1) - slot_claim(b, b.opps.0)
        - slot_claim(b, b.opps.1);
    let danger = slot_danger(b, b.opps.0) + slot_danger(b, b.opps.1) - slot_danger(b, b.team.0)
        - slot_danger(b, b.team.1);
    sum + danger * 4
}

/// The full heuristic value of a board: the material term alone when it is
/// a sentinel, else material plus reachability.
pub open spec fn spec_heuristic_value(b: BoardModel) -> int {
    if spec_fast_heuristic(b) == i32::MIN as int || spec_fast_heuristic(b) == i32::MAX as int {
        spec_fast_heuristic(b)
    } else {
        spec_fast_heuristic(b) + spec_flood_term(b)
    }
}

/// Neither heuristic layer reads the memo fields: two boards that differ
/// only in their caches score identically.
pub proof fn lemma_heuristic_cache_independent(b1: BoardModel, b2: BoardModel)
    requires
        b1.width == b2.width,
        b1.height == b2.height,
        b1.food == b2.food,
        b1.snakes == b2.snakes,
        b1.team == b2.team,
        b1.opps == b2.opps,
    ensures
        spec_fast_heuristic(b1) == spec_fast_heuristic(b2),
        spec_flood_term(b1) == spec_flood_term(b2),
        spec_heuristic_value(b1) == spec_heuristic_value(b2),
{
    reveal_with_fuel(seeds_upto, 6);
    assert forall|i: int| true implies live(b1, i) == live(b2, i) by {}
    assert(seeds_upto(b1, 0) == seeds_upto(b2, 0));
    assert(seeds_upto(b1, 1) == seeds_upto(b2, 1));
    assert(seeds_upto(b1, 2) == seeds_upto(b2, 2));
    assert(seeds_upto(b1, 3) == seeds_upto(b2, 3));
    assert(seeds_upto(b1, 4) == seeds_upto(b2, 4));
    assert(spec_flood_fill(b1) == spec_flood_fill(b2));
}

/// Everything a heuristic evaluation does: it leaves the board alone apart
/// from the two memo fields, records the material term in its memo, and
/// returns the material term alone when `fast` is asked for or that term is
/// a sentinel, else the material term plus the reachability term — taking
/// the reachability term from its memo whenever one is present, and
/// recording the term it computed otherwise.
pub open spec fn heuristic_rel(pre: BoardModel, fast: bool, r: int, post: BoardModel) -> bool {
    let sentinel = spec_fast_heuristic(pre) == i32::MIN as int || spec_fast_heuristic(pre)
        == i32::MAX as int;
    &&& post == (BoardModel { fast_cache: post.fast_cache, flood_cache: post.flood_cache, ..pre })
    &&& post.fast_cache == Some(spec_fast_heuristic(pre))
    &&& ((fast || sentinel) ==> r == spec_fast_heuristic(pre) && post.flood_cache
        == pre.flood_cache)
    &&& (!(fast || sentinel) ==> r == spec_fast_heuristic(pre) + spec_flood_term(pre)
        && post.flood_cache == Some(spec_flood_term(pre)))
    &&& (!fast ==> r == spec_heuristic_value(pre))
}

/// The in-grid neighbours of the cell `c`, claimed for source `i`, in the
/// fixed expansion order (up, right, down, left).
pub open spec fn ff_neighbors(i: int, c: Coord, w: int, h: int) -> Seq<(int, Coord)> {
    (if on_grid(c.x as int, c.y + 1, w, h) {
        seq![(i, Coord { x: c.x, y: (c.y + 1) as i32 })]
    } else {
        Seq::<(int, Coord)>::empty()
    }) + (if on_grid(c.x + 1, c.y as int, w, h) {
        seq![(i, Coord { x: (c.x + 1) as i32, y: c.y })]
    } else {
        Seq::<(int, Coord)>::empty()
    }) + (if on_grid(c.x as int, c.y - 1, w, h) {
        seq![(i, Coord { x: c.x, y: (c.y - 1) as i32 })]
    } else {
        Seq::<(int, Coord)>::empty()
    }) + (if on_grid(c.x - 1, c.y as int, w, h) {
        seq![(i, Coord { x: (c.x - 1) as i32, y: c.y })]
    } else {
        Seq::<(int, Coord)>::empty()
    })
}

/// What the fill's worklist needs to be meaningful: a real grid and one
/// visited flag per cell.
pub open spec fn ff_wf(w: int, h: int, visited: Seq<bool>) -> bool {
    1 <= w && 1 <= h && visited.len() == w * h
}

/// The multi-source fill itself, one worklist entry at a time: an entry
/// whose cell is off the grid or already claimed is dropped; otherwise its
/// cell is marked visited, appended to its source's region, and its in-grid
/// neighbours join the back of the worklist for the same source.
pub open spec fn ff_run(
    w: int,
    h: int,
    queue: Seq<(int, Coord)>,
    visited: Seq<bool>,
    regions: Seq<Seq<Coord>>,
) -> Seq<Seq<Coord>>
    decreases visited.len() - count_true(visited), queue.len()
        via ff_run_dec
{
    if queue.len() == 0 {
        regions
    } else {
        let i = queue[0].0;
        let c = queue[0].1;
        if on_grid(c.x as int, c.y as int, w, h) && 0 <= c.y * w + c.x < visited.len()
            && !visited[c.y * w + c.x] {
            ff_run(
                w,
                h,
                queue.drop_first() + ff_neighbors(i, c, w, h),
                visited.update(c.y * w + c.x, true),
                regions.update(i, regions[i].push(c)),
            )
        } else {
            ff_run(w, h, queue.drop_first(), visited, regions)
        }
    }
}

#[via_fn]
proof fn ff_run_dec(
    w: int,
    h: int,
    queue: Seq<(int, Coord)>,
    visited: Seq<bool>,
    regions: Seq<Seq<Coord>>,
) {
    if queue.len() > 0 {
        lemma_count_true_le_len(visited);
        let c = queue[0].1;
        if on_grid(c.x as int, c.y as int, w, h) && 0 <= c.y * w + c.x < visited.len()
            && !visited[c.y * w + c.x] {
            lemma_count_true_update(visited, c.y * w + c.x, true);
            lemma_count_true_le_len(visited.update(c.y * w + c.x, true));
        }
    }
}

/// Dropping a worklist entry that claims nothing leaves the fill's result
/// unchanged.
proof fn lemma_ff_skip(
    w: int,
    h: int,
    queue: Seq<(int, Coord)>,
    visited: Seq<bool>,
    regions: Seq<Seq<Coord>>,
)
    requires
        ff_wf(w, h, visited),
        queue.len() > 0,
        !on_grid(queue[0].1.x as int, queue[0].1.y as int, w, h) || (0 <= queue[0].1.y * w
            + queue[0].1.x < visited.len() && visited[queue[0].1.y * w + queue[0].1.x]),
    ensures
        ff_run(w, h, queue, visited, regions) == ff_run(
            w,
            h,
            queue.drop_first(),
            visited,
            regions,
        ),
{
    let c = queue[0].1;
    if on_grid(c.x as int, c.y as int, w, h) {
        assert(0 <= c.y * w + c.x < w * h) by (nonlinear_arith)
            requires
                1 <= w,
                1 <= h,
                0 <= (c.x as int) < w,
                0 <= (c.y as int) < h,
        ;
    }
}

/// Claiming one cell unfolds the fill by one step.
proof fn lemma_ff_claim(
    w: int,
    h: int,
    queue: Seq<(int, Coord)>,
    visited: Seq<bool>,
    regions: Seq<Seq<Coord>>,
)
    requires
        ff_wf(w, h, visited),
        queue.len() > 0,
        on_grid(queue[0].1.x as int, queue[0].1.y as int, w, h),
        !visited[queue[0].1.y * w + queue[0].1.x],
    ensures
        ff_run(w, h, queue, visited, regions) == ff_run(
            w,
            h,
            queue.drop_first() + ff_neighbors(queue[0].0, queue[0].1, w, h),
            visited.update(queue[0].1.y * w + queue[0].1.x, true),
            regions.update(queue[0].0, regions[queue[0].0].push(queue[0].1)),
        ),
{
    let c = queue[0].1;
    assert(0 <= c.y * w + c.x < w * h) by (nonlinear_arith)
        requires
            1 <= w,
            1 <= h,
            0 <= (c.x as int) < w,
            0 <= (c.y as int) < h,
    ;
}

/// Inserting one seed before the first strictly longer seed, so that seeds
/// end up in ascending body length and equal lengths keep slot order.
pub open spec fn seed_insert(seeds: Seq<(int, Coord, int)>, e: (int, Coord, int)) -> Seq<
    (int, Coord, int),
>
    decreases seeds.len(),
{
    if seeds.len() == 0 {
        seq![e]
    } else if seeds[0].2 <= e.2 {
        seq![seeds[0]] + seed_insert(seeds.drop_first(), e)
    } else {
        seq![e] + seeds
    }
}

/// The seed of a live slot: its index, its head, and its body length.
pub open spec fn slot_seed(b: BoardModel, i: int) -> (int, Coord, int)
    recommends
        live(b, i),
{
    (i, snake_at(b, i).body[0], snake_at(b, i).body.len() as int)
}

/// The seed list after considering slots `0 .. n` in order.
pub open spec fn seeds_upto(b: BoardModel, n: int) -> Seq<(int, Coord, int)>
    decreases n,
{
    if n <= 0 {
        Seq::<(int, Coord, int)>::empty()
    } else if live(b, n - 1) {
        seed_insert(seeds_upto(b, n - 1), slot_seed(b, n - 1))
    } else {
        seeds_upto(b, n - 1)
    }
}

/// The fill's seeds: every live head, in ascending order of body length,
/// ties kept in slot order.
pub open spec fn spec_seeds(b: BoardModel) -> Seq<(int, Coord, int)> {
    seeds_upto(b, 4)
}

/// The result of the seeded multi-source flood fill on a board: one region
/// of claimed cells per slot.
pub open spec fn spec_flood_fill(b: BoardModel) -> Seq<Seq<Coord>> {
    ff_run(
        b.width,
        b.height,
        spec_seeds(b).map_values(|t: (int, Coord, int)| (t.0, t.1)),
        Seq::new((b.width * b.height) as nat, |k: int| false),
        seq![
            Seq::<Coord>::empty(),
            Seq::<Coord>::empty(),
            Seq::<Coord>::empty(),
            Seq::<Coord>::empty(),
        ],
    )
}

/// `seed_insert` places the new seed exactly at the first position whose
/// seed is strictly longer.
proof fn lemma_seed_insert_at(seeds: Seq<(int, Coord, int)>, e: (int, Coord, int), j: int)
    requires
        0 <= j <= seeds.len(),
        forall|q: int| 0 <= q < j ==> (#[trigger] seeds[q]).2 <= e.2,
        j == seeds.len() || seeds[j].2 > e.2,
    ensures
        seed_insert(seeds, e) == seeds.take(j) + seq![e] + seeds.skip(j),
    decreases j,
{
    if j == 0 {
        if seeds.len() == 0 {
            assert(seeds.take(0) + seq![e] + seeds.skip(0) =~= seq![e]);
        } else {
            assert(seeds.take(0) + seq![e] + seeds.skip(0) =~= seq![e] + seeds);
        }
    } else {
        assert(seeds.len() > 0);
        assert(seeds[0].2 <= e.2);
        assert forall|q: int| 0 <= q < j - 1 implies (#[trigger] seeds.drop_first()[q]).2 <= e.2 by {
            assert(seeds.drop_first()[q] == seeds[q + 1]);
        }
        if j - 1 < seeds.drop_first().len() {
            assert(seeds.drop_first()[j - 1] == seeds[j]);
        }
        lemma_seed_insert_at(seeds.drop_first(), e, j - 1);
        assert(seed_insert(seeds, e) =~= seeds.take(j) + seq![e] + seeds.skip(j)) by {
            assert(seed_insert(seeds, e) == seq![seeds[0]] + (seeds.drop_first().take(j - 1)
                + seq![e] + seeds.drop_first().skip(j - 1)));
            assert(seeds.drop_first().take(j - 1) =~= seeds.take(j).drop_first());
            assert(seeds.drop_first().skip(j - 1) =~= seeds.skip(j));
        }
    }
}

impl SimpleBoard {
    /// Length, low-health penalty and death flag of one slot.
    fn slot_contribution(&self, idx: usize) -> (r: (i32, i32, i32))
        requires
            board_wf(self@),
            idx < 4,
        ensures
            r.0 == slot_length_value(self@, idx as int),
            r.1 == slot_health_value(self@, idx as int),
            r.2 == slot_dead(self@, idx as int),
            0 <= r.0 <= 1000000,
            0 <= r.1 <= 21,
            0 <= r.2 <= 1,
    {
        match &self.snakes[idx] {
            Some(snake) => {
                proof {
                    assert(self@.snakes[idx as int] == slot_view(self.snakes@[idx as int]));
                    assert(live(self@, idx as int));
                    assert(-1 <= snake_at(self@, idx as int).health <= 100);
                    assert(snake_at(self@, idx as int) == snake@);
                    lemma_sum_lens_single(self@.snakes, idx as int);
                    assert(self@.food.len() >= 0);
                }
                let l = snake.body.len() as i32;
                let h = if snake.health < 20 {
                    20 - snake.health
                } else {
                    0
                };
                (l, h, 0)
            },
            None => (0, 0, 1),
        }
    }

    /// The cheap material term. Returns `i32::MIN` when both our slots are
    /// empty, `i32::MAX` when both opposing slots are empty, and otherwise
    /// the weighted material score; the value is cached on the board.
    #[verifier::spinoff_prover]
    #[verifier::rlimit(100)]
    pub fn fast_heuristic(&mut self) -> (r: i32)
        requires
            board_wf(old(self)@),
        ensures
            r as int == spec_fast_heuristic(old(self)@),
            final(self)@ == (BoardModel { fast_cache: Some(r as int), ..old(self)@ }),
            board_wf(final(self)@),
    {
        let (lt0, ht0, dt0) = self.slot_contribution(self.team[0]);
        let (lt1, ht1, dt1) = self.slot_contribution(self.team[1]);
        let (lo0, ho0, do0) = self.slot_contribution(self.opps[0]);
        let (lo1, ho1, do1) = self.slot_contribution(self.opps[1]);
        if dt0 + dt1 == 2 {
            self.stored_fast_heuristic = Some(i32::MIN);
            proof {
                lemma_heuristic_cache_independent(self@, old(self)@);
            }
            return i32::MIN;
        }
        if do0 + do1 == 2 {
            self.stored_fast_heuristic = Some(i32::MAX);
            proof {
                lemma_heuristic_cache_independent(self@, old(self)@);
            }
            return i32::MAX;
        }
        let health_value = ho0 + ho1 - ht0 - ht1;
        let length_value = lt0 + lt1 - lo0 - lo1;
        let death_value = do0 + do1 - dt0 - dt1;
        let v = health_value + length_value * 8 + death_value * 20;
        self.stored_fast_heuristic = Some(v);
        proof {
            lemma_fast_heuristic_bounds(old(self)@);
            lemma_heuristic_cache_independent(self@, old(self)@);
        }
        v
    }

    /// The full positional heuristic for our team: the material term,
    /// and — unless `fast` is asked for or the material term is already a
    /// sentinel — the cached flood-fill reachability term added on top.
    /// Both layers are memoized on the board and the memo is returned
    /// unchanged when it is already present, so two evaluations without an
    /// intervening transition return the same value.
    pub fn heuristic(&mut self, fast: bool) -> (r: i32)
        requires
            board_wf(old(self)@),
        ensures
            board_wf(final(self)@),
            heuristic_rel(old(self)@, fast, r as int, final(self)@),
    {
        let fast_h = match self.stored_fast_heuristic {
            Some(v) => v,
            None => self.fast_heuristic(),
        };
        if fast || fast_h == i32::MIN || fast_h == i32::MAX {
            return fast_h;
        }
        let ff = match self.stored_flood_fill_heuristic {
            Some(v) => v,
            None => {
                let ghost mid = self@;
                let computed = self.flood_fill_heuristic();
                proof {
                    lemma_heuristic_cache_independent(mid, old(self)@);
                }
                computed
            },
        };
        proof {
            lemma_fast_heuristic_bounds(old(self)@);
            lemma_heuristic_cache_independent(self@, old(self)@);
        }
        fast_h + ff
    }

    /// Multi-source flood fill: every live agent's head is a seed, seeds are
    /// ordered by ascending body length (shorter agents claim contested
    /// cells first), and the fill expands to the four grid neighbours,
    /// giving each cell to exactly one agent. The result is exactly
    /// `spec_flood_fill`, the seeded fill itself: one claimed region per
    /// slot (empty for an empty slot); regions are disjoint, lie on the
    /// grid, and together cover at most the whole grid.
    #[verifier::spinoff_prover]
    #[verifier::rlimit(100)]
    pub fn flood_fill(&self) -> (r: Vec<Vec<Coord>>)
        requires
            board_wf(self@),
        ensures
            regions_view(r@) == spec_flood_fill(self@),
            r@.len() == 4,
            forall|i: int| 0 <= i < 4 && !live(self@, i) ==> r@[i]@.len() == 0,
            forall|i: int, p: int|
                0 <= i < 4 && 0 <= p < r@[i]@.len() ==> on_grid(
                    (#[trigger] r@[i]@[p]).x as int,
                    r@[i]@[p].y as int,
                    self@.width,
                    self@.height,
                ),
            forall|i: int, p: int, j: int, q: int|
                0 <= i < 4 && 0 <= p < r@[i]@.len() && 0 <= j < 4 && 0 <= q < r@[j]@.len() && (i
                    != j || p != q) ==> #[trigger] r@[i]@[p] != #[trigger] r@[j]@[q],
            sum_region_lens(regions_view(r@)) <= self@.width * self@.height,
    {
        let ghost bw = self@.width;
        let ghost bh = self@.height;
        let w = self.width as usize;
        let h = self.height as usize;
        proof {
            assert(w * h <= 1000000) by (nonlinear_arith)
                requires
                    1 <= w <= 1000,
                    1 <= h <= 1000,
            ;
        }
        let area = w * h;
        let mut visited: Vec<bool> = Vec::new();
        let mut vi: usize = 0;
        while vi < area
            invariant
                0 <= vi <= area,
                visited@.len() == vi,
                count_true(visited@) == 0,
                forall|k: int| 0 <= k < vi ==> !(#[trigger] visited@[k]),
            decreases area - vi,
        {
            proof {
                lemma_count_true_push(visited@, false);
            }
            visited.push(false);
            vi += 1;
        }
        let mut seeds: Vec<(usize, Coord, usize)> = Vec::new();
        let mut si: usize = 0;
        while si < 4
            invariant
                0 <= si <= 4,
                board_wf(self@),
                seedsview(seeds@) == seeds_upto(self@, si as int),
                forall|k: int|
                    0 <= k < seeds@.len() ==> (#[trigger] seeds@[k]).0 < 4 && live(
                        self@,
                        seeds@[k].0 as int,
                    ),
                forall|k1: int, k2: int|
                    0 <= k1 < k2 < seeds@.len() ==> (#[trigger] seeds@[k1]).2 <= (
                    #[trigger] seeds@[k2]).2,
            decreases 4 - si,
        {
            match &self.snakes[si] {
                Some(snake) => {
                    proof {
                        assert(self@.snakes[si as int] == slot_view(self.snakes@[si as int]));
                        assert(live(self@, si as int));
                    }
                    let head = snake.body[0];
                    let len = snake.body.len();
                    let mut j: usize = 0;
                    while j < seeds.len() && seeds[j].2 <= len
                        invariant
                            0 <= j <= seeds@.len(),
                            forall|k: int| 0 <= k < j ==> (#[trigger] seeds@[k]).2 <= len,
                        decreases seeds@.len() - j,
                    {
                        j += 1;
                    }
                    let ghost pre_view = seedsview(seeds@);
                    proof {
                        assert forall|q: int| 0 <= q < j implies (#[trigger] pre_view[q]).2
                            <= len as int by {
                            assert(pre_view[q] == (seeds@[q].0 as int, seeds@[q].1, seeds@[q].2 as int));
                        }
                        if (j as int) < pre_view.len() {
                            assert(pre_view[j as int] == (seeds@[j as int].0 as int,
                            seeds@[j as int].1, seeds@[j as int].2 as int));
                        }
                        lemma_seed_insert_at(pre_view, slot_seed(self@, si as int), j as int);
                        assert(slot_seed(self@, si as int) == (si as int, head, len as int));
                    }
                    seeds.insert(j, (si, head, len));
                    proof {
                        assert(seedsview(seeds@) =~= pre_view.take(j as int) + seq![
                            slot_seed(self@, si as int),
                        ] + pre_view.skip(j as int));
                        assert(seedsview(seeds@) == seeds_upto(self@, si + 1));
                    }
                },
                None => {
                    proof {
                        assert(self@.snakes[si as int] == slot_view(self.snakes@[si as int]));
                        assert(!live(self@, si as int));
                        assert(seeds_upto(self@, si + 1) == seeds_upto(self@, si as int));
                    }
                },
            }
            si += 1;
        }
        proof {
            assert(seedsview(seeds@) == spec_seeds(self@));
        }
        let mut queue: VecDeque<(usize, Coord)> = VecDeque::new();
        let ghost seed_pairs = spec_seeds(self@).map_values(|t: (int, Coord, int)| (t.0, t.1));
        let mut qi: usize = 0;
        while qi < seeds.len()
            invariant
                0 <= qi <= seeds@.len(),
                board_wf(self@),
                seedsview(seeds@) == spec_seeds(self@),
                seed_pairs == spec_seeds(self@).map_values(|t: (int, Coord, int)| (t.0, t.1)),
                qview(queue@) == seed_pairs.take(qi as int),
                forall|k: int|
                    0 <= k < seeds@.len() ==> (#[trigger] seeds@[k]).0 < 4 && live(
                        self@,
                        seeds@[k].0 as int,
                    ),
                forall|k: int|
                    0 <= k < queue@.len() ==> (#[trigger] queue@[k]).0 < 4 && live(
                        self@,
                        queue@[k].0 as int,
                    ),
            decreases seeds@.len() - qi,
        {
            queue.push_back((seeds[qi].0, seeds[qi].1));
            proof {
                assert(seed_pairs[qi as int] == (seedsview(seeds@)[qi as int].0,
                seedsview(seeds@)[qi as int].1));
                assert(seedsview(seeds@)[qi as int] == (seeds@[qi as int].0 as int,
                seeds@[qi as int].1, seeds@[qi as int].2 as int));
                assert(qview(queue@) =~= seed_pairs.take(qi + 1));
            }
            qi += 1;
        }
        proof {
            assert(seed_pairs.take(seed_pairs.len() as int) =~= seed_pairs);
            assert(qview(queue@) == seed_pairs);
        }
        let mut regions: Vec<Vec<Coord>> = Vec::new();
        let empty0: Vec<Coord> = Vec::new();
        let empty1: Vec<Coord> = Vec::new();
        let empty2: Vec<Coord> = Vec::new();
        let empty3: Vec<Coord> = Vec::new();
        regions.push(empty0);
        regions.push(empty1);
        regions.push(empty2);
        regions.push(empty3);
        proof {
            reveal_with_fuel(sum_region_lens, 6);
            assert(regions_view(regions@) =~= seq![
                Seq::<Coord>::empty(),
                Seq::<Coord>::empty(),
                Seq::<Coord>::empty(),
                Seq::<Coord>::empty(),
            ]);
            assert(sum_region_lens(regions_view(regions@)) == 0);
            assert(area as int == bw * bh) by (nonlinear_arith)
                requires
                    bw == w as int,
                    bh == h as int,
                    area == w * h,
                    w * h <= 1000000,
            ;
            assert(visited@ =~= Seq::new((bw * bh) as nat, |k: int| false));
            assert(ff_run(bw, bh, qview(queue@), visited@, regions_view(regions@))
                == spec_flood_fill(self@));
        }
        while queue.len() != 0
            invariant
                visited@.len() == area,
                area == w * h,
                area as int == bw * bh,
                w == bw && h == bh,
                bw == self@.width && bh == self@.height,
                board_wf(self@),
                regions@.len() == 4,
                ff_run(bw, bh, qview(queue@), visited@, regions_view(regions@))
                    == spec_flood_fill(self@),
                forall|k: int|
                    0 <= k < queue@.len() ==> (#[trigger] queue@[k]).0 < 4 && live(
                        self@,
                        queue@[k].0 as int,
                    ),
                forall|i: int| 0 <= i < 4 && !live(self@, i) ==> regions@[i]@.len() == 0,
                forall|i: int, p: int|
                    0 <= i < 4 && 0 <= p < regions@[i]@.len() ==> {
                        let cc = #[trigger] regions@[i]@[p];
                        on_grid(cc.x as int, cc.y as int, bw, bh) && 0 <= cc.y * bw + cc.x < area
                            && visited@[cc.y * bw + cc.x]
                    },
                forall|i: int, p: int, j: int, q: int|
                    0 <= i < 4 && 0 <= p < regions@[i]@.len() && 0 <= j < 4 && 0 <= q
                        < regions@[j]@.len() && (i != j || p != q) ==> #[trigger] regions@[i]@[p]
                        != #[trigger] regions@[j]@[q],
                sum_region_lens(regions_view(regions@)) == count_true(visited@),
            decreases area - count_true(visited@), queue@.len(),
        {
            proof {
                lemma_count_true_le_len(visited@);
            }
            let ghost qv0 = qview(queue@);
            let popped = queue.pop_front();
            let (i, c) = match popped {
                Some(pr) => pr,
                None => (0usize, Coord { x: 0, y: 0 }),
            };
            proof {
                assert(qview(queue@) =~= qv0.drop_first());
                assert(qv0[0] == (i as int, c));
                assert(ff_wf(bw, bh, visited@));
            }
            if c.x < 0 || c.x >= self.width || c.y < 0 || c.y >= self.height {
                proof {
                    lemma_ff_skip(bw, bh, qv0, visited@, regions_view(regions@));
                }
                continue ;
            }
            proof {
                assert((c.y as int) * (w as int) + (c.x as int) < area && (c.y as int) * (w as int)
                    >= 0) by (nonlinear_arith)
                    requires
                        area == (w as int) * (h as int),
                        0 <= (c.x as int) < (w as int),
                        0 <= (c.y as int) < (h as int),
                ;
            }
            let ai = (c.y as usize) * w + (c.x as usize);
            proof {
                assert(ai < area);
                assert(ai as int == (c.y as int) * bw + (c.x as int)) by (nonlinear_arith)
                    requires
                        bw == w as int,
                        0 <= (c.x as int) < (w as int),
                        0 <= (c.y as int),
                        ai == (c.y as usize) * w + (c.x as usize),
                        (c.y as int) * (w as int) + (c.x as int) < area,
                        area <= 1000000,
                ;
            }
            if visited[ai] {
                proof {
                    lemma_ff_skip(bw, bh, qv0, visited@, regions_view(regions@));
                }
                continue ;
            }
            let ghost visited_old = visited@;
            let ghost regions_old = regions@;
            proof {
                lemma_ff_claim(bw, bh, qv0, visited_old, regions_view(regions_old));
            }
            visited[ai] = true;
            proof {
                lemma_count_true_update(visited_old, ai as int, true);
                assert(visited@ == visited_old.update(c.y * bw + c.x, true));
            }
            let mut reg = regions.remove(i);
            reg.push(c);
            regions.insert(i, reg);
            proof {
                assert(regions@ =~= regions_old.update(i as int, regions@[i as int]));
                assert(regions@[i as int]@ =~= regions_old[i as int]@.push(c));
                assert(regions_view(regions@) =~= regions_view(regions_old).update(
                    i as int,
                    regions_view(regions_old)[i as int].push(c),
                ));
                lemma_sum_region_lens_update(
                    regions_view(regions_old),
                    i as int,
                    regions@[i as int]@,
                );
                assert forall|i2: int, p: int, j: int, q: int|
                    0 <= i2 < 4 && 0 <= p < regions@[i2]@.len() && 0 <= j < 4 && 0 <= q
                        < regions@[j]@.len() && (i2 != j || p != q) implies #[trigger] regions@[i2]@[p]
                    != #[trigger] regions@[j]@[q] by {
                    let new_claim = (i as int, regions_old[i as int]@.len() as int);
                    if (i2, p) == new_claim && (j, q) == new_claim {
                    } else if (i2, p) == new_claim {
                        assert(regions_old[j]@[q] == regions@[j]@[q]
                            || (j == i && regions@[j]@[q] == regions_old[j]@[q]));
                        assert(visited_old[regions@[j]@[q].y * bw + regions@[j]@[q].x]);
                        assert(!visited_old[c.y * bw + c.x]);
                    } else if (j, q) == new_claim {
                        assert(visited_old[regions@[i2]@[p].y * bw + regions@[i2]@[p].x]);
                        assert(!visited_old[c.y * bw + c.x]);
                    } else {
                    }
                }
            }
            let ghost qbase = qview(queue@);
            let ghost n_up = if on_grid(c.x as int, c.y + 1, bw, bh) {
                seq![(i as int, Coord { x: c.x, y: (c.y + 1) as i32 })]
            } else {
                Seq::<(int, Coord)>::empty()
            };
            let ghost n_right = if on_grid(c.x + 1, c.y as int, bw, bh) {
                seq![(i as int, Coord { x: (c.x + 1) as i32, y: c.y })]
            } else {
                Seq::<(int, Coord)>::empty()
            };
            let ghost n_down = if on_grid(c.x as int, c.y - 1, bw, bh) {
                seq![(i as int, Coord { x: c.x, y: (c.y - 1) as i32 })]
            } else {
                Seq::<(int, Coord)>::empty()
            };
            let ghost n_left = if on_grid(c.x - 1, c.y as int, bw, bh) {
                seq![(i as int, Coord { x: (c.x - 1) as i32, y: c.y })]
            } else {
                Seq::<(int, Coord)>::empty()
            };
            if c.y + 1 < self.height {
                queue.push_back((i, Coord { x: c.x, y: c.y + 1 }));
            }
            proof {
                assert(qview(queue@) =~= qbase + n_up);
            }
            if c.x + 1 < self.width {
                queue.push_back((i, Coord { x: c.x + 1, y: c.y }));
            }
            proof {
                assert(qview(queue@) =~= qbase + n_up + n_right);
            }
            if c.y >= 1 {
                queue.push_back((i, Coord { x: c.x, y: c.y - 1 }));
            }
            proof {
                assert(qview(queue@) =~= qbase + n_up + n_right + n_down);
            }
            if c.x >= 1 {
                queue.push_back((i, Coord { x: c.x - 1, y: c.y }));
            }
            proof {
                assert(qview(queue@) =~= qbase + n_up + n_right + n_down + n_left);
                assert(qview(queue@) =~= qv0.drop_first() + ff_neighbors(i as int, c, bw, bh));
                assert(ff_run(bw, bh, qview(queue@), visited@, regions_view(regions@))
                    == spec_flood_fill(self@));
                lemma_count_true_le_len(visited@);
            }
        }
        proof {
            lemma_count_true_le_len(visited@);
            assert(qview(queue@) =~= Seq::<(int, Coord)>::empty());
            assert(ff_run(bw, bh, qview(queue@), visited@, regions_view(regions@))
                == regions_view(regions@));
        }
        regions
    }

    /// Per-slot terms of the reachability score: the number of cells the
    /// slot's agent claims, and the entrapment deficit when that number is
    /// smaller than the agent's own length.
    fn region_terms(&self, ff: &Vec<Vec<Coord>>, idx: usize) -> (r: (i32, i32))
        requires
            board_wf(self@),
            idx < 4,
            ff@.len() == 4,
            ff@[idx as int]@.len() <= 1000000,
        ensures
            0 <= r.0 <= 1000000,
            0 <= r.1 <= 1000000,
            r.0 as int == (if live(self@, idx as int) {
                ff@[idx as int]@.len() as int
            } else {
                0int
            }),
            r.1 as int == (if live(self@, idx as int) && ff@[idx as int]@.len() < snake_at(
                self@,
                idx as int,
            ).body.len() {
                snake_at(self@, idx as int).body.len() - ff@[idx as int]@.len()
            } else {
                0int
            }),
    {
        match &self.snakes[idx] {
            Some(snake) => {
                proof {
                    assert(self@.snakes[idx as int] == slot_view(self.snakes@[idx as int]));
                    lemma_sum_lens_single(self@.snakes, idx as int);
                    assert(self@.food.len() >= 0);
                }
                let ff_size = ff[idx].len() as i32;
                let blen = snake.body.len() as i32;
                let danger = if ff_size < blen {
                    blen - ff_size
                } else {
                    0
                };
                (ff_size, danger)
            },
            None => (0, 0),
        }
    }

    /// The reachability score: cells our side can claim minus cells the
    /// opposing side can claim, with an extra weight against any agent whose
    /// claimed region is smaller than its own body. The value is cached on
    /// the board.
    #[verifier::rlimit(60)]
    pub fn flood_fill_heuristic(&mut self) -> (r: i32)
        requires
            board_wf(old(self)@),
        ensures
            r as int == spec_flood_term(old(self)@),
            -100000000 <= r <= 100000000,
            final(self)@ == (BoardModel { flood_cache: Some(r as int), ..old(self)@ }),
            board_wf(final(self)@),
    {
        let ff = self.flood_fill();
        proof {
            lemma_sum_region_lens_single(regions_view(ff@), self@.team.0);
            lemma_sum_region_lens_single(regions_view(ff@), self@.team.1);
            lemma_sum_region_lens_single(regions_view(ff@), self@.opps.0);
            lemma_sum_region_lens_single(regions_view(ff@), self@.opps.1);
            lemma_sum_region_lens_nonneg(regions_view(ff@));
            assert(self@.width * self@.height <= 1000000) by (nonlinear_arith)
                requires
                    1 <= self@.width <= 1000,
                    1 <= self@.height <= 1000,
            ;
        }
        let (st0, dt0) = self.region_terms(&ff, self.team[0]);
        let (st1, dt1) = self.region_terms(&ff, self.team[1]);
        let (so0, do0) = self.region_terms(&ff, self.opps[0]);
        let (so1, do1) = self.region_terms(&ff, self.opps[1]);
        let sum_value = st0 + st1 - so0 - so1;
        let danger_value = do0 + do1 - dt0 - dt1;
        let v = sum_value + danger_value * 4;
        let ghost pre = self@;
        proof {
            assert forall|idx: int| 0 <= idx < 4 implies ff@[idx]@ == spec_flood_fill(pre)[idx] by {
                assert(regions_view(ff@)[idx] == ff@[idx]@);
            }
            assert(v as int == spec_flood_term(pre));
        }
        self.stored_flood_fill_heuristic = Some(v);
        proof {
            assert(self@ == (BoardModel { flood_cache: Some(v as int), ..pre }));
            assert(spec_fast_heuristic(self@) == spec_fast_heuristic(pre));
            lemma_heuristic_cache_independent(self@, pre);
            assert(self@.snakes == pre.snakes);
            assert(sum_lens(self@.snakes) == sum_lens(pre.snakes));
            assert(coords_near_grid(self@)) by {
                assert forall|i: int, k: int|
                    live(self@, i) && 0 <= k < snake_at(self@, i).body.len() implies {
                    let c = #[trigger] snake_at(self@, i).body[k];
                    -2 <= c.x <= self@.width + 1 && -2 <= c.y <= self@.height + 1
                } by {
                    assert(live(pre, i));
                    assert(snake_at(pre, i) == snake_at(self@, i));
                    assert(snake_at(pre, i).body[k] == snake_at(self@, i).body[k]);
                }
            }
            assert(board_wf(self@));
        }
        v
    }
}

/// There is a food item exactly at cell (x, y).
pub open spec fn spec_food_at(b: BoardModel, x: int, y: int) -> bool {
    exists|p: int| 0 <= p < b.food.len() && b.food[p].x == x && b.food[p].y == y
}

/// Some food lies on a grid cell adjacent to `head`, so the agent whose
/// head this is could eat next ply and keep its tail.
pub open spec fn spec_food_adjacent(b: BoardModel, head: Coord) -> bool {
    ||| (on_grid(head.x as int, head.y + 1, b.width, b.height) && spec_food_at(
        b,
        head.x as int,
        head.y + 1,
    ))
    ||| (on_grid(head.x + 1, head.y as int, b.width, b.height) && spec_food_at(
        b,
        head.x + 1,
        head.y as int,
    ))
    ||| (on_grid(head.x as int, head.y - 1, b.width, b.height) && spec_food_at(
        b,
        head.x as int,
        head.y - 1,
    ))
    ||| (on_grid(head.x - 1, head.y as int, b.width, b.height) && spec_food_at(
        b,
        head.x - 1,
        head.y as int,
    ))
}

/// The agent in slot `j` is live and its tail segment sits at (x, y).
pub open spec fn tail_of_slot(b: BoardModel, j: int, x: int, y: int) -> bool {
    live(b, j) && snake_at(b, j).body.len() >= 1 && snake_at(b, j).body.last().x == x && snake_at(
        b,
        j,
    ).body.last().y == y
}

/// Some segment of `s` sits at (x, y).
pub open spec fn body_contains(s: SnakeModel, x: int, y: int) -> bool {
    exists|k: int| 0 <= k < s.body.len() && s.body[k].x == x && s.body[k].y == y
}

/// The collision report the legal-move generator uses for a head landing at
/// (x, y): `.0` says some other agent's body is hit, `.1` says the hit would
/// be fatal. A teammate's tail cell is treated as safe (it is expected to
/// retract); an opponent's tail cell is fatal when that opponent has food
/// next to its head and so may keep its tail. For any other agent whose
/// body is hit, a non-head segment is always fatal and a head-to-head
/// meeting is fatal exactly when the other agent is at least as long.
pub open spec fn spec_collision(b: BoardModel, s: SnakeModel, x: int, y: int) -> (bool, bool) {
    if tail_of_slot(b, b.team.0, x, y) || tail_of_slot(b, b.team.1, x, y) {
        (false, false)
    } else if (tail_of_slot(b, b.opps.0, x, y) && spec_food_adjacent(b, snake_at(b, b.opps.0).body[0]))
        || (tail_of_slot(b, b.opps.1, x, y) && spec_food_adjacent(b, snake_at(b, b.opps.1).body[0])) {
        (true, true)
    } else {
        (
            exists|j: int|
                live(b, j) && snake_at(b, j) != s && body_contains(#[trigger] snake_at(b, j), x, y),
            exists|j: int|
                live(b, j) && snake_at(b, j) != s && body_contains(#[trigger] snake_at(b, j), x, y)
                    && ((snake_at(b, j).body[0].x == x && snake_at(b, j).body[0].y == y)
                    ==> snake_at(b, j).body.len() >= s.body.len()),
        )
    }
}

/// The neck rule: the move that would step onto the agent's second body
/// segment (its neck) is excluded, one comparison per axis direction.
pub open spec fn neck_excluded(s: SnakeModel, m: Movement) -> bool {
    match m {
        Movement::Left => s.body[1].x < s.body[0].x,
        Movement::Right => s.body[1].x > s.body[0].x,
        Movement::Down => s.body[1].y < s.body[0].y,
        Movement::Up => s.body[1].y > s.body[0].y,
        Movement::Still => false,
    }
}

/// One move passes the legal-move generator: it is not a reversal onto the
/// neck, does not leave the grid, does not land on the agent's own body,
/// and does not hit another agent (with the tail exceptions of
/// `spec_collision`).
pub open spec fn move_safe(b: BoardModel, s: SnakeModel, m: Movement) -> bool {
    let nx = next_xy(s.body[0], m).0;
    let ny = next_xy(s.body[0], m).1;
    &&& !neck_excluded(s, m)
    &&& !spec_simple_out_of_bounds(s.body[0], m, b.width, b.height)
    &&& !body_contains(s, nx, ny)
    &&& !spec_collision(b, s, nx, ny).0
}

/// The legal moves of one agent, in the fixed enumeration order.
pub open spec fn spec_safe_moves(b: BoardModel, s: SnakeModel) -> Seq<Movement> {
    (if move_safe(b, s, Movement::Up) {
        seq![Movement::Up]
    } else {
        Seq::<Movement>::empty()
    }) + (if move_safe(b, s, Movement::Down) {
        seq![Movement::Down]
    } else {
        Seq::<Movement>::empty()
    }) + (if move_safe(b, s, Movement::Left) {
        seq![Movement::Left]
    } else {
        Seq::<Movement>::empty()
    }) + (if move_safe(b, s, Movement::Right) {
        seq![Movement::Right]
    } else {
        Seq::<Movement>::empty()
    })
}

/// The elimination tie-break of a full round: the agent in slot `i` dies to
/// a collision when its head lies on any segment of another live agent —
/// always, if that segment is not the other agent's head; and exactly when
/// the other agent is at least as long, if the two heads meet.
pub open spec fn spec_fatal_collision(b: BoardModel, i: int) -> bool
    recommends
        live(b, i),
{
    exists|j: int, k: int|
        live(b, j) && j != i && 0 <= k < snake_at(b, j).body.len() && #[trigger] snake_at(
            b,
            j,
        ).body[k] == snake_at(b, i).body[0] && (k == 0 ==> snake_at(b, j).body.len() >= snake_at(
            b,
            i,
        ).body.len())
}

/// Why a live agent is removed when a round is resolved: starvation, a head
/// outside the grid, or a fatal collision under the tie-break above.
pub open spec fn spec_kill_condition(b: BoardModel, i: int) -> bool
    recommends
        live(b, i),
{
    ||| snake_at(b, i).health <= 0
    ||| !on_grid(
        snake_at(b, i).body[0].x as int,
        snake_at(b, i).body[0].y as int,
        b.width,
        b.height,
    )
    ||| spec_fatal_collision(b, i)
}

/// Killing slots never raises the total number of body segments.
proof fn lemma_sum_lens_pointwise_le(s1: Seq<Option<SnakeModel>>, s2: Seq<Option<SnakeModel>>)
    requires
        s1.len() == s2.len(),
        forall|i: int| 0 <= i < s2.len() ==> s2[i] == s1[i] || (#[trigger] s2[i]) is None,
    ensures
        sum_lens(s2) <= sum_lens(s1),
    decreases s1.len(),
{
    if s1.len() > 0 {
        assert forall|i: int| 0 <= i < s2.drop_first().len() implies s2.drop_first()[i]
            == s1.drop_first()[i] || (#[trigger] s2.drop_first()[i]) is None by {
            assert(s2.drop_first()[i] == s2[i + 1]);
            assert(s1.drop_first()[i] == s1[i + 1]);
        }
        lemma_sum_lens_pointwise_le(s1.drop_first(), s2.drop_first());
        assert(s2[0] == s1[0] || s2[0] is None);
        lemma_sum_lens_nonneg(s1.drop_first());
    }
}

/// The number of live agents on a board.
pub open spec fn count_live(b: BoardModel) -> int {
    (if live(b, 0) {
        1int
    } else {
        0int
    }) + (if live(b, 1) {
        1int
    } else {
        0int
    }) + (if live(b, 2) {
        1int
    } else {
        0int
    }) + (if live(b, 3) {
        1int
    } else {
        0int
    })
}

/// The slot index of member `which` (0 or 1) of the side that moves.
pub open spec fn side_slot(b: BoardModel, our: bool, which: int) -> int {
    if our {
        if which == 0 {
            b.team.0
        } else {
            b.team.1
        }
    } else {
        if which == 0 {
            b.opps.0
        } else {
            b.opps.1
        }
    }
}

/// Where member `which`'s head lands under move `m`. An empty slot yields a
/// fixed off-board sentinel, different per member, so a dead member never
/// collides with anything.
pub open spec fn member_next(b: BoardModel, our: bool, which: int, m: Movement) -> (int, int) {
    let i = side_slot(b, our, which);
    if live(b, i) {
        next_xy(snake_at(b, i).body[0], m)
    } else if which == 0 {
        (-2, -1)
    } else {
        (-1, -2)
    }
}

/// The candidate moves of member `which`: its legal moves, or the single
/// default move when it has none or is dead.
pub open spec fn spec_member_moves(b: BoardModel, our: bool, which: int) -> Seq<Movement> {
    let i = side_slot(b, our, which);
    if !live(b, i) {
        seq![Movement::Down]
    } else {
        let sm = spec_safe_moves(b, snake_at(b, i));
        if sm.len() == 0 {
            seq![Movement::Down]
        } else {
            sm
        }
    }
}

/// A joint move is ruled out when both members would land on the same cell
/// (teammates may not collide head-on by construction).
pub open spec fn pair_excluded(b: BoardModel, our: bool, m0: Movement, m1: Movement) -> bool {
    member_next(b, our, 0, m0) == member_next(b, our, 1, m1)
}

/// The joint moves pairing `m0` with each move of `l1`, in order, without
/// the excluded ones.
pub open spec fn row_pairs(b: BoardModel, our: bool, m0: Movement, l1: Seq<Movement>) -> Seq<
    (Movement, Movement),
>
    decreases l1.len(),
{
    if l1.len() == 0 {
        Seq::<(Movement, Movement)>::empty()
    } else {
        row_pairs(b, our, m0, l1.drop_last()) + (if pair_excluded(b, our, m0, l1.last()) {
            Seq::<(Movement, Movement)>::empty()
        } else {
            seq![(m0, l1.last())]
        })
    }
}

/// The cartesian product of the two members' candidate moves, in order,
/// without the excluded pairs.
pub open spec fn cart_pairs(b: BoardModel, our: bool, l0: Seq<Movement>, l1: Seq<Movement>) -> Seq<
    (Movement, Movement),
>
    decreases l0.len(),
{
    if l0.len() == 0 {
        Seq::<(Movement, Movement)>::empty()
    } else {
        cart_pairs(b, our, l0.drop_last(), l1) + row_pairs(b, our, l0.last(), l1)
    }
}

/// The joint moves one ply of this side offers the search.
pub open spec fn spec_simulate_pairs(b: BoardModel, our: bool) -> Seq<(Movement, Movement)> {
    cart_pairs(b, our, spec_member_moves(b, our, 0), spec_member_moves(b, our, 1))
}

/// One agent after its head advanced to `np`: the new head is pushed on
/// front; eating resets health to full and keeps the tail (net growth),
/// otherwise the tail retracts and health drops by one.
pub open spec fn moved_snake(s: SnakeModel, np: (int, int), ate: bool) -> SnakeModel {
    let grown = seq![Coord { x: np.0 as i32, y: np.1 as i32 }] + s.body;
    if ate {
        SnakeModel { health: 100, body: grown }
    } else {
        SnakeModel { health: s.health - 1, body: grown.drop_last() }
    }
}

/// Whether a food item survives the ply: it must match neither member's
/// landing cell.
pub open spec fn food_keep(f: Coord, np0: (int, int), np1: (int, int)) -> bool {
    !(f.x == np0.0 && f.y == np0.1) && !(f.x == np1.0 && f.y == np1.1)
}

/// The food list after the ply, in order.
pub open spec fn food_after(food: Seq<Coord>, np0: (int, int), np1: (int, int)) -> Seq<Coord>
    decreases food.len(),
{
    if food.len() == 0 {
        Seq::<Coord>::empty()
    } else {
        food_after(food.drop_last(), np0, np1) + (if food_keep(food.last(), np0, np1) {
            seq![food.last()]
        } else {
            Seq::<Coord>::empty()
        })
    }
}

/// A board with its memoized heuristic values dropped.
pub open spec fn clear_caches(b: BoardModel) -> BoardModel {
    BoardModel { fast_cache: None, flood_cache: None, ..b }
}

/// The board after elimination resolution.
pub open spec fn spec_kill(b: BoardModel) -> BoardModel {
    BoardModel {
        snakes: Seq::new(
            b.snakes.len(),
            |i: int|
                if live(b, i) && !spec_kill_condition(b, i) {
                    b.snakes[i]
                } else {
                    None
                },
        ),
        fast_cache: None,
        flood_cache: None,
        ..b
    }
}

/// The board reached when the moving side plays the joint move (m0, m1):
/// both members advance simultaneously, consumed food disappears, caches
/// are cleared, and — only when the opposing side moved, which closes the
/// round — eliminations are resolved.
pub open spec fn spec_apply_pair(b: BoardModel, our: bool, m0: Movement, m1: Movement) -> BoardModel {
    let i0 = side_slot(b, our, 0);
    let i1 = side_slot(b, our, 1);
    let np0 = member_next(b, our, 0, m0);
    let np1 = member_next(b, our, 1, m1);
    let s1 = if live(b, i0) {
        b.snakes.update(i0, Some(moved_snake(snake_at(b, i0), np0, spec_food_at(b, np0.0, np0.1))))
    } else {
        b.snakes
    };
    let s2 = if live(b, i1) {
        s1.update(i1, Some(moved_snake(snake_at(b, i1), np1, spec_food_at(b, np1.0, np1.1))))
    } else {
        s1
    };
    let b2 = BoardModel {
        snakes: s2,
        food: food_after(b.food, np0, np1),
        fast_cache: None,
        flood_cache: None,
        ..b
    };
    if our {
        b2
    } else {
        spec_kill(b2)
    }
}

/// Everything one ply of the side offers the search: each admissible joint
/// move with the board it leads to, or the single default fallback on an
/// unchanged board when no joint move is admissible. Opaque, so that
/// contracts over whole simulation lists stay cheap; `simulate_move`'s
/// proof reveals it.
#[verifier::opaque]
pub open spec fn spec_simulate(b: BoardModel, our: bool) -> Seq<((Movement, Movement), BoardModel)> {
    let ps = spec_simulate_pairs(b, our);
    if ps.len() == 0 {
        seq![((Movement::Down, Movement::Down), clear_caches(b))]
    } else {
        Seq::new(ps.len(), |k: int| (ps[k], spec_apply_pair(b, our, ps[k].0, ps[k].1)))
    }
}

/// One entry of the simulation list is correct for the joint move `pair`:
/// it names the two slots of the moving side, carries the pair itself, and
/// its board is exactly the board that pair leads to, well-formed and with
/// no more live agents than before.
pub open spec fn sim_entry_ok(
    b: BoardModel,
    our: bool,
    pair: (Movement, Movement),
    pr: ([SnakeMove; 2], SimpleBoard),
) -> bool {
    &&& pr.0@[0].id as int == side_slot(b, our, 0)
    &&& pr.0@[1].id as int == side_slot(b, our, 1)
    &&& pr.0@[0].mv == pair.0
    &&& pr.0@[1].mv == pair.1
    &&& pr.1@ == spec_apply_pair(b, our, pair.0, pair.1)
    &&& board_wf(pr.1@)
    &&& count_live(pr.1@) <= count_live(b)
    &&& (!our ==> post_round_ok(pr.1@))
}

/// The simulation list built so far matches the joint-move list built so
/// far, entry by entry.
pub open spec fn sims_match(
    b: BoardModel,
    our: bool,
    pairs: Seq<(Movement, Movement)>,
    sims: Seq<([SnakeMove; 2], SimpleBoard)>,
) -> bool {
    &&& sims.len() == pairs.len()
    &&& forall|k: int|
        0 <= k < sims.len() ==> sim_entry_ok(b, our, pairs[k], #[trigger] sims[k])
}

/// Clearing the caches keeps a board well-formed and changes nothing else.
#[verifier::spinoff_prover]
#[verifier::rlimit(100)]
proof fn lemma_clear_caches_wf(b: BoardModel)
    requires
        board_wf(b),
    ensures
        board_wf(clear_caches(b)),
        count_live(clear_caches(b)) == count_live(b),
{
    assert(spec_fast_heuristic(clear_caches(b)) == spec_fast_heuristic(b));
    assert(sum_lens(clear_caches(b).snakes) == sum_lens(b.snakes));
    assert(coords_near_grid(clear_caches(b))) by {
        assert forall|i2: int, k: int|
            live(clear_caches(b), i2) && 0 <= k < snake_at(clear_caches(b), i2).body.len() implies {
            let c = #[trigger] snake_at(clear_caches(b), i2).body[k];
            -2 <= c.x <= clear_caches(b).width + 1 && -2 <= c.y <= clear_caches(b).height + 1
        } by {
            assert(live(b, i2));
            assert(snake_at(b, i2) == snake_at(clear_caches(b), i2));
            assert(snake_at(b, i2).body[k] == snake_at(clear_caches(b), i2).body[k]);
        }
    }
}

/// What holds of every board that closed a round: all live agents sit on
/// the grid with positive health.
pub open spec fn post_round_ok(b: BoardModel) -> bool {
    forall|i: int|
        live(b, i) ==> on_grid(
            (#[trigger] snake_at(b, i)).body[0].x as int,
            snake_at(b, i).body[0].y as int,
            b.width,
            b.height,
        ) && snake_at(b, i).health >= 1
}

/// What the moving side's members must look like for a ply to be simulated:
/// every live member has at least a head and a neck, has not starved, and
/// its head is still on the grid.
pub open spec fn side_ready(b: BoardModel, our: bool) -> bool {
    forall|w: int|
        0 <= w < 2 && live(b, #[trigger] side_slot(b, our, w)) ==> {
            let s = snake_at(b, side_slot(b, our, w));
            s.body.len() >= 2 && s.health >= 0 && on_grid(
                s.body[0].x as int,
                s.body[0].y as int,
                b.width,
                b.height,
            )
        }
}

/// Some food item sits exactly at `np`.
pub open spec fn seq_has_cell(food: Seq<Coord>, np: (int, int)) -> bool {
    exists|p: int| 0 <= p < food.len() && food[p].x == np.0 && (#[trigger] food[p]).y == np.1
}

/// Extending the food list by one item extends its filtered form.
pub proof fn lemma_food_after_take(s: Seq<Coord>, np0: (int, int), np1: (int, int), i: int)
    requires
        0 <= i < s.len(),
    ensures
        food_after(s.take(i + 1), np0, np1) == food_after(s.take(i), np0, np1) + (if food_keep(
            s[i],
            np0,
            np1,
        ) {
            seq![s[i]]
        } else {
            Seq::<Coord>::empty()
        }),
{
    assert(s.take(i + 1).drop_last() =~= s.take(i));
    assert(s.take(i + 1).last() == s[i]);
}

/// The filtered food list loses at least one item per landing cell that had
/// food (the two landing cells being distinct), and never grows.
proof fn lemma_food_after_len(s: Seq<Coord>, np0: (int, int), np1: (int, int))
    requires
        np0 != np1,
    ensures
        food_after(s, np0, np1).len() <= s.len() - (if seq_has_cell(s, np0) {
            1int
        } else {
            0int
        }) - (if seq_has_cell(s, np1) {
            1int
        } else {
            0int
        }),
    decreases s.len(),
{
    if s.len() == 0 {
    } else {
        let pre = s.drop_last();
        lemma_food_after_len(pre, np0, np1);
        assert forall|np: (int, int)| seq_has_cell(pre, np) implies seq_has_cell(s, np) by {
            let p = choose|p: int|
                0 <= p < pre.len() && pre[p].x == np.0 && (#[trigger] pre[p]).y == np.1;
            assert(s[p] == pre[p]);
        }
        if !food_keep(s.last(), np0, np1) {
            if seq_has_cell(s, np0) && !seq_has_cell(pre, np0) && seq_has_cell(s, np1)
                && !seq_has_cell(pre, np1) {
                let p0 = choose|p: int|
                    0 <= p < s.len() && s[p].x == np0.0 && (#[trigger] s[p]).y == np0.1;
                let p1 = choose|p: int|
                    0 <= p < s.len() && s[p].x == np1.0 && (#[trigger] s[p]).y == np1.1;
                if p0 < s.len() - 1 {
                    assert(pre[p0] == s[p0]);
                    assert(seq_has_cell(pre, np0));
                }
                if p1 < s.len() - 1 {
                    assert(pre[p1] == s[p1]);
                    assert(seq_has_cell(pre, np1));
                }
                assert(false);
            }
        } else {
            if seq_has_cell(s, np0) && !seq_has_cell(pre, np0) {
                let p0 = choose|p: int|
                    0 <= p < s.len() && s[p].x == np0.0 && (#[trigger] s[p]).y == np0.1;
                if p0 < s.len() - 1 {
                    assert(pre[p0] == s[p0]);
                }
                assert(p0 == s.len() - 1);
                assert(!food_keep(s.last(), np0, np1));
                assert(false);
            }
            if seq_has_cell(s, np1) && !seq_has_cell(pre, np1) {
                let p1 = choose|p: int|
                    0 <= p < s.len() && s[p].x == np1.0 && (#[trigger] s[p]).y == np1.1;
                if p1 < s.len() - 1 {
                    assert(pre[p1] == s[p1]);
                }
                assert(false);
            }
        }
    }
}

/// Replacing one slot changes the segment total by the length difference.
proof fn lemma_sum_lens_update(s: Seq<Option<SnakeModel>>, i: int, v: Option<SnakeModel>)
    requires
        0 <= i < s.len(),
    ensures
        sum_lens(s.update(i, v)) == sum_lens(s) - (match s[i] {
            Some(m) => m.body.len() as int,
            None => 0,
        }) + (match v {
            Some(m) => m.body.len() as int,
            None => 0,
        }),
    decreases s.len(),
{
    if i == 0 {
        assert(s.update(0, v).drop_first() =~= s.drop_first());
    } else {
        assert(s.update(i, v).drop_first() =~= s.drop_first().update(i - 1, v));
        assert(s.update(i, v)[0] == s[0]);
        lemma_sum_lens_update(s.drop_first(), i - 1, v);
    }
}

/// Extending the first member's move list extends the joint-move list by
/// one row.
proof fn lemma_cart_pairs_take(b: BoardModel, our: bool, l0: Seq<Movement>, l1: Seq<Movement>, i: int)
    requires
        0 <= i < l0.len(),
    ensures
        cart_pairs(b, our, l0.take(i + 1), l1) == cart_pairs(b, our, l0.take(i), l1) + row_pairs(
            b,
            our,
            l0[i],
            l1,
        ),
{
    assert(l0.take(i + 1).drop_last() =~= l0.take(i));
    assert(l0.take(i + 1).last() == l0[i]);
}

/// Extending the second member's move list extends one row by at most one
/// pair.
proof fn lemma_row_pairs_take(b: BoardModel, our: bool, m0: Movement, l1: Seq<Movement>, i: int)
    requires
        0 <= i < l1.len(),
    ensures
        row_pairs(b, our, m0, l1.take(i + 1)) == row_pairs(b, our, m0, l1.take(i)) + (if pair_excluded(
            b,
            our,
            m0,
            l1[i],
        ) {
            Seq::<(Movement, Movement)>::empty()
        } else {
            seq![(m0, l1[i])]
        }),
{
    assert(l1.take(i + 1).drop_last() =~= l1.take(i));
    assert(l1.take(i + 1).last() == l1[i]);
}

/// Structural equality of two compact snakes.
fn same_snake(a: &SimpleSnake, b: &SimpleSnake) -> (r: bool)
    ensures
        r == (a@ == b@),
{
    if a.health != b.health {
        return false;
    }
    if a.body.len() != b.body.len() {
        return false;
    }
    let n = a.body.len();
    let mut k: usize = 0;
    while k < n
        invariant
            0 <= k <= n,
            n == a@.body.len() == b@.body.len(),
            a@.health == b@.health,
            forall|j: int| 0 <= j < k ==> a@.body[j] == b@.body[j],
        decreases n - k,
    {
        if a.body[k] != b.body[k] {
            return false;
        }
        k += 1;
    }
    proof {
        assert(a@.body =~= b@.body);
        assert(a@ =~= b@);
    }
    true
}

impl SimpleBoard {
    /// Is there a food item at exactly (x, y)?
    fn food_at(&self, x: i32, y: i32) -> (r: bool)
        ensures
            r == spec_food_at(self@, x as int, y as int),
    {
        let mut p: usize = 0;
        while p < self.food.len()
            invariant
                0 <= p <= self.food@.len(),
                forall|q: int|
                    0 <= q < p ==> !(self.food@[q].x == x && (#[trigger] self.food@[q]).y == y),
            decreases self.food@.len() - p,
        {
            let f = self.food[p];
            if f.x == x && f.y == y {
                proof {
                    assert(self@.food[p as int].x == x && self@.food[p as int].y == y);
                    assert(spec_food_at(self@, x as int, y as int));
                }
                return true;
            }
            p += 1;
        }
        false
    }

    /// Does the agent whose head is `head` have food on an adjacent grid
    /// cell?
    fn food_adjacent(&self, head: Coord) -> (r: bool)
        requires
            board_wf(self@),
            -2 <= head.x <= self@.width + 1,
            -2 <= head.y <= self@.height + 1,
        ensures
            r == spec_food_adjacent(self@, head),
    {
        let w = self.width;
        let h = self.height;
        if head.y + 1 >= 0 && head.x >= 0 && head.x < w && head.y + 1 < h && self.food_at(
            head.x,
            head.y + 1,
        ) {
            return true;
        }
        if head.x + 1 >= 0 && head.x + 1 < w && head.y >= 0 && head.y < h && self.food_at(
            head.x + 1,
            head.y,
        ) {
            return true;
        }
        if head.y - 1 >= 0 && head.x >= 0 && head.x < w && head.y - 1 < h && self.food_at(
            head.x,
            head.y - 1,
        ) {
            return true;
        }
        if head.x - 1 >= 0 && head.x - 1 < w && head.y >= 0 && head.y < h && self.food_at(
            head.x - 1,
            head.y,
        ) {
            return true;
        }
        false
    }

    /// Does the live agent in slot `i` die to a collision under the
    /// round-resolution tie-break?
    fn fatal_collision(&self, i: usize) -> (r: bool)
        requires
            board_wf(self@),
            i < 4,
            live(self@, i as int),
        ensures
            r == spec_fatal_collision(self@, i as int),
    {
        let head = match &self.snakes[i] {
            Some(snake) => {
                proof {
                    assert(self@.snakes[i as int] == slot_view(self.snakes@[i as int]));
                }
                snake.body[0]
            },
            None => Coord { x: 0, y: 0 },
        };
        let my_len = match &self.snakes[i] {
            Some(snake) => snake.body.len(),
            None => 0,
        };
        let mut j: usize = 0;
        while j < 4
            invariant
                0 <= j <= 4,
                board_wf(self@),
                i < 4,
                live(self@, i as int),
                head == snake_at(self@, i as int).body[0],
                my_len == snake_at(self@, i as int).body.len(),
                forall|j2: int, k: int|
                    0 <= j2 < j && live(self@, j2) && j2 != i && 0 <= k < snake_at(
                        self@,
                        j2,
                    ).body.len() ==> !(#[trigger] snake_at(self@, j2).body[k] == snake_at(
                        self@,
                        i as int,
                    ).body[0] && (k == 0 ==> snake_at(self@, j2).body.len() >= snake_at(
                        self@,
                        i as int,
                    ).body.len())),
            decreases 4 - j,
        {
            if j != i {
                match &self.snakes[j] {
                    Some(other) => {
                        proof {
                            assert(self@.snakes[j as int] == slot_view(self.snakes@[j as int]));
                        }
                        let olen = other.body.len();
                        let mut k: usize = 0;
                        while k < olen
                            invariant
                                0 <= k <= olen,
                                board_wf(self@),
                                i < 4,
                                j < 4,
                                j != i,
                                live(self@, i as int),
                                live(self@, j as int),
                                head == snake_at(self@, i as int).body[0],
                                my_len == snake_at(self@, i as int).body.len(),
                                olen == snake_at(self@, j as int).body.len(),
                                self@.snakes[j as int] == slot_view(self.snakes@[j as int]),
                                forall|k2: int|
                                    0 <= k2 < k ==> !(#[trigger] snake_at(self@, j as int).body[k2]
                                        == snake_at(self@, i as int).body[0] && (k2 == 0
                                        ==> snake_at(self@, j as int).body.len() >= snake_at(
                                        self@,
                                        i as int,
                                    ).body.len())),
                            decreases olen - k,
                        {
                            let seg = other.body[k];
                            if seg.x == head.x && seg.y == head.y {
                                if k != 0 || olen >= my_len {
                                    proof {
                                        assert(snake_at(self@, j as int).body[k as int] == snake_at(
                                            self@,
                                            i as int,
                                        ).body[0]);
                                        assert(spec_fatal_collision(self@, i as int));
                                    }
                                    return true;
                                }
                            }
                            k += 1;
                        }
                    },
                    None => {},
                }
            }
            j += 1;
        }
        false
    }

    /// Resolves one full round: every live agent that starved, left the
    /// grid, or lost a collision under the tie-break is removed from its
    /// slot, all removals judged against the same post-move snapshot and
    /// applied together. The heuristic caches are cleared.
    #[verifier::spinoff_prover]
    #[verifier::rlimit(100)]
    pub fn kill_snakes(&mut self)
        requires
            board_wf(old(self)@),
        ensures
            final(self)@ == (BoardModel {
                snakes: final(self)@.snakes,
                fast_cache: None,
                flood_cache: None,
                ..old(self)@
            }),
            final(self)@.snakes.len() == 4,
            forall|i: int|
                0 <= i < 4 ==> final(self)@.snakes[i] == (if live(old(self)@, i)
                    && !spec_kill_condition(old(self)@, i) {
                    old(self)@.snakes[i]
                } else {
                    None::<SnakeModel>
                }),
            board_wf(final(self)@),
            count_live(final(self)@) <= count_live(old(self)@),
            forall|i: int|
                live(final(self)@, i) ==> live(old(self)@, i) && snake_at(final(self)@, i)
                    == snake_at(old(self)@, i) && on_grid(
                    snake_at(final(self)@, i).body[0].x as int,
                    snake_at(final(self)@, i).body[0].y as int,
                    final(self)@.width,
                    final(self)@.height,
                ) && snake_at(final(self)@, i).health >= 1,
    {
        let ghost pre = self@;
        let mut kill: Vec<bool> = Vec::new();
        let mut i: usize = 0;
        while i < 4
            invariant
                0 <= i <= 4,
                self@ == pre,
                board_wf(pre),
                kill@.len() == i,
                forall|q: int|
                    0 <= q < i ==> kill@[q] == (live(pre, q) && spec_kill_condition(pre, q)),
            decreases 4 - i,
        {
            match &self.snakes[i] {
                Some(snake) => {
                    proof {
                        assert(self@.snakes[i as int] == slot_view(self.snakes@[i as int]));
                        assert(live(self@, i as int));
                        assert(1 <= snake_at(self@, i as int).body.len());
                        assert(snake_at(self@, i as int) == snake@);
                    }
                    let head = snake.body[0];
                    let dead = snake.health <= 0 || head.x < 0 || head.x >= self.width || head.y
                        < 0 || head.y >= self.height || self.fatal_collision(i);
                    kill.push(dead);
                },
                None => {
                    kill.push(false);
                },
            }
            i += 1;
        }
        let mut i: usize = 0;
        while i < 4
            invariant
                0 <= i <= 4,
                board_wf(pre),
                kill@.len() == 4,
                forall|q: int|
                    0 <= q < 4 ==> kill@[q] == (live(pre, q) && spec_kill_condition(pre, q)),
                self@.snakes.len() == 4,
                self@ == (BoardModel { snakes: self@.snakes, ..pre }),
                forall|q: int|
                    0 <= q < i ==> self@.snakes[q] == (if live(pre, q) && !spec_kill_condition(
                        pre,
                        q,
                    ) {
                        pre.snakes[q]
                    } else {
                        None::<SnakeModel>
                    }),
                forall|q: int| i <= q < 4 ==> self@.snakes[q] == pre.snakes[q],
            decreases 4 - i,
        {
            let ghost snakes_old = self.snakes@;
            if kill[i] {
                self.snakes[i] = None;
                proof {
                    assert(self.snakes@ =~= snakes_old.update(i as int, None));
                    assert(self@.snakes =~= snakes_old.map_values(|s| slot_view(s)).update(
                        i as int,
                        None::<SnakeModel>,
                    ));
                }
            }
            i += 1;
        }
        let ghost mid = self@;
        self.stored_fast_heuristic = None;
        self.stored_flood_fill_heuristic = None;
        proof {
            assert(self@.snakes == mid.snakes);
            assert forall|q: int| 0 <= q < 4 implies self@.snakes[q] == pre.snakes[q] || (
            #[trigger] self@.snakes[q]) is None by {
                assert(self@.snakes[q] == mid.snakes[q]);
                if live(pre, q) && !spec_kill_condition(pre, q) {
                    assert(mid.snakes[q] == pre.snakes[q]);
                } else {
                    assert(mid.snakes[q] is None);
                }
            }
            lemma_sum_lens_pointwise_le(pre.snakes, self@.snakes);
            assert(self@.snakes.len() == 4);
            assert forall|i2: int|
                live(self@, i2) implies 1 <= snake_at(self@, i2).body.len() && -1 <= snake_at(
                self@,
                i2,
            ).health <= 100 by {
                assert(self@.snakes[i2] == mid.snakes[i2]);
                if live(pre, i2) && !spec_kill_condition(pre, i2) {
                    assert(mid.snakes[i2] == pre.snakes[i2]);
                    assert(live(pre, i2));
                } else {
                    assert(mid.snakes[i2] is None);
                }
            }
            assert(coords_near_grid(self@)) by {
                assert forall|i2: int, k: int|
                    live(self@, i2) && 0 <= k < snake_at(self@, i2).body.len() implies {
                    let c = #[trigger] snake_at(self@, i2).body[k];
                    -2 <= c.x <= self@.width + 1 && -2 <= c.y <= self@.height + 1
                } by {
                    assert(self@.snakes[i2] == mid.snakes[i2]);
                    if live(pre, i2) && !spec_kill_condition(pre, i2) {
                        assert(mid.snakes[i2] == pre.snakes[i2]);
                    } else {
                        assert(mid.snakes[i2] is None);
                    }
                    assert(live(pre, i2));
                    assert(snake_at(pre, i2) == snake_at(self@, i2));
                    assert(snake_at(pre, i2).body[k] == snake_at(self@, i2).body[k]);
                }
            }
            assert(board_wf(self@));
        }
    }
}

impl SimpleBoard {
    /// The candidate moves of the agent in slot `idx`: its legal moves, or
    /// the single default move when it is dead or cornered.
    fn member_candidates(&self, idx: usize) -> (r: Vec<Movement>)
        requires
            board_wf(self@),
            idx < 4,
            live(self@, idx as int) ==> snake_at(self@, idx as int).body.len() >= 2,
        ensures
            r@ == (if !live(self@, idx as int) {
                seq![Movement::Down]
            } else {
                let sm = spec_safe_moves(self@, snake_at(self@, idx as int));
                if sm.len() == 0 {
                    seq![Movement::Down]
                } else {
                    sm
                }
            }),
            r@.len() >= 1,
    {
        match &self.snakes[idx] {
            Some(snake) => {
                proof {
                    assert(self@.snakes[idx as int] == slot_view(self.snakes@[idx as int]));
                    assert(live(self@, idx as int));
                    assert(snake_at(self@, idx as int) == snake@);
                }
                let mut m = snake.get_safe_moves(self);
                if m.len() == 0 {
                    m.push(Movement::Down);
                    proof {
                        assert(m@ =~= seq![Movement::Down]);
                    }
                }
                m
            },
            None => {
                let mut v: Vec<Movement> = Vec::new();
                v.push(Movement::Down);
                proof {
                    assert(v@ =~= seq![Movement::Down]);
                }
                v
            },
        }
    }

    /// Builds the board reached by one joint move of the moving side.
    fn apply_pair_exec(&self, our_team: bool, m0: Movement, m1: Movement) -> (nb: SimpleBoard)
        requires
            board_wf(self@),
            side_ready(self@, our_team),
            !pair_excluded(self@, our_team, m0, m1),
        ensures
            nb@ == spec_apply_pair(self@, our_team, m0, m1),
            board_wf(nb@),
            count_live(nb@) <= count_live(self@),
            !our_team ==> post_round_ok(nb@),
    {
        let ghost b = self@;
        let mut nb = self.advance_both(our_team, m0, m1);
        let ghost b2 = nb@;
        if !our_team {
            nb.kill_snakes();
            proof {
                assert(nb@.snakes =~= spec_kill(b2).snakes);
                assert(nb@ =~= spec_kill(b2));
            }
        }
        nb
    }

    /// Advances both members of the moving side simultaneously, consuming
    /// food and clearing the caches; elimination is not yet resolved.
    #[verifier::spinoff_prover]
    #[verifier::rlimit(100)]
    fn advance_both(&self, our_team: bool, m0: Movement, m1: Movement) -> (nb: SimpleBoard)
        requires
            board_wf(self@),
            side_ready(self@, our_team),
            !pair_excluded(self@, our_team, m0, m1),
        ensures
            ({
                let b = self@;
                let i0 = side_slot(b, our_team, 0);
                let i1 = side_slot(b, our_team, 1);
                let np0 = member_next(b, our_team, 0, m0);
                let np1 = member_next(b, our_team, 1, m1);
                let s1 = if live(b, i0) {
                    b.snakes.update(
                        i0,
                        Some(moved_snake(snake_at(b, i0), np0, spec_food_at(b, np0.0, np0.1))),
                    )
                } else {
                    b.snakes
                };
                let s2 = if live(b, i1) {
                    s1.update(
                        i1,
                        Some(moved_snake(snake_at(b, i1), np1, spec_food_at(b, np1.0, np1.1))),
                    )
                } else {
                    s1
                };
                nb@ == BoardModel {
                    snakes: s2,
                    food: food_after(b.food, np0, np1),
                    fast_cache: None,
                    flood_cache: None,
                    ..b
                }
            }),
            board_wf(nb@),
            count_live(nb@) <= count_live(self@),
    {
        let ghost b = self@;
        let i0 = if our_team {
            self.team[0]
        } else {
            self.opps[0]
        };
        let i1 = if our_team {
            self.team[1]
        } else {
            self.opps[1]
        };
        proof {
            assert(i0 as int == side_slot(b, our_team, 0));
            assert(i1 as int == side_slot(b, our_team, 1));
            assert(i0 != i1);
        }
        let (live0, np0) = match &self.snakes[i0] {
            Some(s) => {
                proof {
                    assert(b.snakes[i0 as int] == slot_view(self.snakes@[i0 as int]));
                    assert(live(b, i0 as int));
                    assert(snake_at(b, i0 as int) == s@);
                    assert(side_ready(b, our_team));
                    assert(snake_at(b, side_slot(b, our_team, 0)).body.len() >= 2);
                }
                (true, s.next_position(m0))
            },
            None => (false, Coord { x: -2, y: -1 }),
        };
        let (live1, np1) = match &self.snakes[i1] {
            Some(s) => {
                proof {
                    assert(b.snakes[i1 as int] == slot_view(self.snakes@[i1 as int]));
                    assert(live(b, i1 as int));
                    assert(snake_at(b, i1 as int) == s@);
                    assert(snake_at(b, side_slot(b, our_team, 1)).body.len() >= 2);
                }
                (true, s.next_position(m1))
            },
            None => (false, Coord { x: -1, y: -2 }),
        };
        proof {
            assert((np0.x as int, np0.y as int) == member_next(b, our_team, 0, m0));
            assert((np1.x as int, np1.y as int) == member_next(b, our_team, 1, m1));
        }
        let eat0 = if live0 {
            self.food_at(np0.x, np0.y)
        } else {
            false
        };
        let eat1 = if live1 {
            self.food_at(np1.x, np1.y)
        } else {
            false
        };
        let ghost s1 = if live(b, i0 as int) {
            b.snakes.update(
                i0 as int,
                Some(
                    moved_snake(
                        snake_at(b, i0 as int),
                        member_next(b, our_team, 0, m0),
                        spec_food_at(
                            b,
                            member_next(b, our_team, 0, m0).0,
                            member_next(b, our_team, 0, m0).1,
                        ),
                    ),
                ),
            )
        } else {
            b.snakes
        };
        let ghost s2 = if live(b, i1 as int) {
            s1.update(
                i1 as int,
                Some(
                    moved_snake(
                        snake_at(b, i1 as int),
                        member_next(b, our_team, 1, m1),
                        spec_food_at(
                            b,
                            member_next(b, our_team, 1, m1).0,
                            member_next(b, our_team, 1, m1).1,
                        ),
                    ),
                ),
            )
        } else {
            s1
        };
        let mut nsnakes: Vec<Option<SimpleSnake>> = Vec::new();
        let mut j: usize = 0;
        while j < 4
            invariant
                0 <= j <= 4,
                board_wf(b),
                b == self@,
                i0 as int == side_slot(b, our_team, 0),
                i1 as int == side_slot(b, our_team, 1),
                i0 < 4,
                i1 < 4,
                i0 != i1,
                live0 == live(b, i0 as int),
                live1 == live(b, i1 as int),
                live0 ==> snake_at(b, i0 as int).body.len() >= 2 && snake_at(b, i0 as int).health
                    >= 0,
                live1 ==> snake_at(b, i1 as int).body.len() >= 2 && snake_at(b, i1 as int).health
                    >= 0,
                (np0.x as int, np0.y as int) == member_next(b, our_team, 0, m0),
                (np1.x as int, np1.y as int) == member_next(b, our_team, 1, m1),
                live0 ==> eat0 == spec_food_at(
                    b,
                    member_next(b, our_team, 0, m0).0,
                    member_next(b, our_team, 0, m0).1,
                ),
                live1 ==> eat1 == spec_food_at(
                    b,
                    member_next(b, our_team, 1, m1).0,
                    member_next(b, our_team, 1, m1).1,
                ),
                s2.len() == 4,
                nsnakes@.len() == j,
                forall|k: int|
                    0 <= k < j ==> nsnakes@.map_values(|s| slot_view(s))[k] == s2[k],
            decreases 4 - j,
        {
            let ghost old_models = nsnakes@.map_values(|s| slot_view(s));
            if j == i0 && live0 {
                match &self.snakes[j] {
                    Some(s) => {
                        proof {
                            assert(b.snakes[j as int] == slot_view(self.snakes@[j as int]));
                            assert(snake_at(b, j as int) == s@);
                        }
                        nsnakes.push(Some(s.advanced(np0, eat0)));
                    },
                    None => {
                        proof {
                            assert(false);
                        }
                    },
                }
            } else if j == i1 && live1 {
                match &self.snakes[j] {
                    Some(s) => {
                        proof {
                            assert(b.snakes[j as int] == slot_view(self.snakes@[j as int]));
                            assert(snake_at(b, j as int) == s@);
                        }
                        nsnakes.push(Some(s.advanced(np1, eat1)));
                    },
                    None => {
                        proof {
                            assert(false);
                        }
                    },
                }
            } else {
                match &self.snakes[j] {
                    Some(s) => {
                        proof {
                            assert(b.snakes[j as int] == slot_view(self.snakes@[j as int]));
                        }
                        nsnakes.push(Some(s.duplicate()));
                    },
                    None => {
                        nsnakes.push(None);
                    },
                }
            }
            proof {
                assert(nsnakes@.map_values(|s| slot_view(s)) =~= old_models.push(
                    nsnakes@.map_values(|s| slot_view(s)).last(),
                ));
                assert(nsnakes@.map_values(|s| slot_view(s))[j as int] == s2[j as int]);
            }
            j += 1;
        }
        let ghost np0i = (np0.x as int, np0.y as int);
        let ghost np1i = (np1.x as int, np1.y as int);
        let mut nfood: Vec<Coord> = Vec::new();
        let mut p: usize = 0;
        while p < self.food.len()
            invariant
                0 <= p <= self.food@.len(),
                b == self@,
                nfood@ == food_after(b.food.take(p as int), np0i, np1i),
                np0i == (np0.x as int, np0.y as int),
                np1i == (np1.x as int, np1.y as int),
            decreases self.food@.len() - p,
        {
            let f = self.food[p];
            proof {
                lemma_food_after_take(b.food, np0i, np1i, p as int);
            }
            if !(f.x == np0.x && f.y == np0.y) && !(f.x == np1.x && f.y == np1.y) {
                nfood.push(f);
                proof {
                    assert(food_keep(b.food[p as int], np0i, np1i));
                    assert(nfood@ =~= food_after(b.food.take(p as int), np0i, np1i) + seq![
                        b.food[p as int],
                    ]);
                }
            } else {
                proof {
                    assert(!food_keep(b.food[p as int], np0i, np1i));
                    assert(nfood@ =~= food_after(b.food.take(p as int), np0i, np1i) + Seq::<
                        Coord,
                    >::empty());
                }
            }
            p += 1;
        }
        proof {
            assert(b.food.take(b.food.len() as int) =~= b.food);
        }
        let nb = SimpleBoard {
            width: self.width,
            height: self.height,
            food: nfood,
            snakes: nsnakes,
            team: [self.team[0], self.team[1]],
            opps: [self.opps[0], self.opps[1]],
            stored_fast_heuristic: None,
            stored_flood_fill_heuristic: None,
        };
        let ghost b2 = BoardModel {
            snakes: s2,
            food: food_after(b.food, np0i, np1i),
            fast_cache: None,
            flood_cache: None,
            ..b
        };
        proof {
            assert(nb@.snakes =~= s2);
            assert(nb@ =~= b2);
            lemma_food_after_len(b.food, np0i, np1i);
            if live(b, i0 as int) {
                lemma_sum_lens_update(
                    b.snakes,
                    i0 as int,
                    Some(
                        moved_snake(
                            snake_at(b, i0 as int),
                            np0i,
                            spec_food_at(b, np0i.0, np0i.1),
                        ),
                    ),
                );
            }
            if live(b, i1 as int) {
                lemma_sum_lens_update(
                    s1,
                    i1 as int,
                    Some(
                        moved_snake(
                            snake_at(b, i1 as int),
                            np1i,
                            spec_food_at(b, np1i.0, np1i.1),
                        ),
                    ),
                );
            }
            assert forall|np: (int, int)| #[trigger] spec_food_at(b, np.0, np.1) implies seq_has_cell(
                b.food,
                np,
            ) by {
                let q = choose|q: int|
                    0 <= q < b.food.len() && b.food[q].x == np.0 && b.food[q].y == np.1;
                assert(0 <= q < b.food.len() && b.food[q].x == np.0 && (#[trigger] b.food[q]).y
                    == np.1);
            }
            assert(sum_lens(b2.snakes) + b2.food.len() <= 1000000);
            assert(coords_near_grid(b2)) by {
                assert forall|i2: int, k: int|
                    live(b2, i2) && 0 <= k < snake_at(b2, i2).body.len() implies {
                    let c = #[trigger] snake_at(b2, i2).body[k];
                    -2 <= c.x <= b2.width + 1 && -2 <= c.y <= b2.height + 1
                } by {
                    if i2 == i0 as int && live0 {
                        if k == 0 {
                        } else {
                            assert(snake_at(b2, i2).body[k] == snake_at(b, i2).body[k - 1]);
                        }
                    } else if i2 == i1 as int && live1 {
                        if k == 0 {
                        } else {
                            assert(snake_at(b2, i2).body[k] == snake_at(b, i2).body[k - 1]);
                        }
                    } else {
                        assert(b2.snakes[i2] == b.snakes[i2]);
                    }
                }
            }
            assert(board_wf(b2));
            assert(count_live(b2) <= count_live(b));
        }
        nb
    }

    /// Where the head of the agent in `idx` lands under `m`, or the given
    /// sentinel cell when the slot is empty.
    fn next_of(&self, idx: usize, m: Movement, sx: i32, sy: i32) -> (r: Coord)
        requires
            board_wf(self@),
            idx < 4,
        ensures
            live(self@, idx as int) ==> (r.x as int, r.y as int) == next_xy(
                snake_at(self@, idx as int).body[0],
                m,
            ),
            !live(self@, idx as int) ==> r == (Coord { x: sx, y: sy }),
    {
        match &self.snakes[idx] {
            Some(s) => {
                proof {
                    assert(self@.snakes[idx as int] == slot_view(self.snakes@[idx as int]));
                    assert(live(self@, idx as int));
                    assert(snake_at(self@, idx as int) == s@);
                }
                s.next_position(m)
            },
            None => Coord { x: sx, y: sy },
        }
    }

    /// An exact copy of this board with the heuristic caches cleared.
    fn cleared_copy(&self) -> (r: SimpleBoard)
        ensures
            r@ == clear_caches(self@),
    {
        let mut nsnakes: Vec<Option<SimpleSnake>> = Vec::new();
        let n = self.snakes.len();
        let mut j: usize = 0;
        while j < n
            invariant
                0 <= j <= n,
                n == self.snakes@.len(),
                nsnakes@.len() == j,
                forall|k: int|
                    0 <= k < j ==> nsnakes@.map_values(|s| slot_view(s))[k] == self@.snakes[k],
            decreases n - j,
        {
            let ghost old_models = nsnakes@.map_values(|s| slot_view(s));
            match &self.snakes[j] {
                Some(s) => {
                    proof {
                        assert(self@.snakes[j as int] == slot_view(self.snakes@[j as int]));
                    }
                    nsnakes.push(Some(s.duplicate()));
                },
                None => {
                    nsnakes.push(None);
                },
            }
            proof {
                assert(nsnakes@.map_values(|s| slot_view(s)) =~= old_models.push(
                    nsnakes@.map_values(|s| slot_view(s)).last(),
                ));
            }
            j += 1;
        }
        let r = SimpleBoard {
            width: self.width,
            height: self.height,
            food: self.food.clone(),
            snakes: nsnakes,
            team: [self.team[0], self.team[1]],
            opps: [self.opps[0], self.opps[1]],
            stored_fast_heuristic: None,
            stored_flood_fill_heuristic: None,
        };
        proof {
            assert(r@.snakes =~= self@.snakes);
            assert(r@ =~= clear_caches(self@));
        }
        r
    }

    /// Every joint move this side can take from here, each with the board
    /// it leads to. The list is the cartesian product of the two members'
    /// candidate moves, in order, without pairs whose members would land on
    /// the same cell; when that excludes everything, the single fallback is
    /// the default joint move on the unchanged board, so the search always
    /// has a child. When the opposing side moves, the round closes and each
    /// resulting board is elimination-resolved.
    #[verifier::spinoff_prover]
    #[verifier::rlimit(100)]
    pub fn simulate_move(&self, our_team: bool) -> (r: Vec<([SnakeMove; 2], SimpleBoard)>)
        requires
            board_wf(self@),
            side_ready(self@, our_team),
        ensures
            r@.len() >= 1,
            r@.len() == spec_simulate(self@, our_team).len(),
            forall|k: int|
                0 <= k < r@.len() ==> {
                    let sp = spec_simulate(self@, our_team)[k];
                    let pr = #[trigger] r@[k];
                    pr.0@[0].id as int == side_slot(self@, our_team, 0) && pr.0@[1].id as int
                        == side_slot(self@, our_team, 1) && pr.0@[0].mv == sp.0.0 && pr.0@[1].mv
                        == sp.0.1 && pr.1@ == sp.1 && board_wf(pr.1@) && count_live(pr.1@)
                        <= count_live(self@)
                },
            !our_team && spec_simulate_pairs(self@, our_team).len() > 0 ==> forall|k: int|
                0 <= k < r@.len() ==> post_round_ok((#[trigger] r@[k]).1@),
    {
        let ghost b = self@;
        let idx0 = if our_team {
            self.team[0]
        } else {
            self.opps[0]
        };
        let idx1 = if our_team {
            self.team[1]
        } else {
            self.opps[1]
        };
        proof {
            assert(idx0 as int == side_slot(b, our_team, 0));
            assert(idx1 as int == side_slot(b, our_team, 1));
        }
        let cands0 = self.member_candidates(idx0);
        let cands1 = self.member_candidates(idx1);
        let ghost l0 = cands0@;
        let ghost l1 = cands1@;
        proof {
            assert(l0 == spec_member_moves(b, our_team, 0));
            assert(l1 == spec_member_moves(b, our_team, 1));
        }
        let mut sims: Vec<([SnakeMove; 2], SimpleBoard)> = Vec::new();
        let mut a: usize = 0;
        while a < cands0.len()
            invariant
                0 <= a <= l0.len(),
                b == self@,
                board_wf(b),
                side_ready(b, our_team),
                idx0 as int == side_slot(b, our_team, 0),
                idx1 as int == side_slot(b, our_team, 1),
                idx0 < 4,
                idx1 < 4,
                cands0@ == l0,
                cands1@ == l1,
                l0 == spec_member_moves(b, our_team, 0),
                l1 == spec_member_moves(b, our_team, 1),
                sims_match(b, our_team, cart_pairs(b, our_team, l0.take(a as int), l1), sims@),
            decreases l0.len() - a,
        {
            let m0 = cands0[a];
            self.fill_row(
                our_team,
                idx0,
                idx1,
                m0,
                &cands1,
                &mut sims,
                Ghost(cart_pairs(b, our_team, l0.take(a as int), l1)),
            );
            proof {
                assert(l1.take(l1.len() as int) =~= l1);
                lemma_cart_pairs_take(b, our_team, l0, l1, a as int);
            }
            a += 1;
        }
        proof {
            assert(l0.take(l0.len() as int) =~= l0);
        }
        if sims.len() == 0 {
            let nb = self.cleared_copy();
            proof {
                lemma_clear_caches_wf(b);
            }
            sims.push(
                (
                    [
                        SnakeMove { id: idx0, mv: Movement::Down },
                        SnakeMove { id: idx1, mv: Movement::Down },
                    ],
                    nb,
                ),
            );
            proof {
                reveal(spec_simulate);
                assert(sims@[0].0@[0] == (SnakeMove { id: idx0, mv: Movement::Down }));
                assert(sims@[0].0@[1] == (SnakeMove { id: idx1, mv: Movement::Down }));
                assert(sims@[0].1@ == spec_simulate(b, our_team)[0].1);
            }
        } else {
            proof {
                reveal(spec_simulate);
                let ps = spec_simulate_pairs(b, our_team);
                let sspec = spec_simulate(b, our_team);
                assert(sspec.len() == ps.len());
                assert forall|k: int| 0 <= k < sims@.len() implies {
                    let sp = sspec[k];
                    let pr = #[trigger] sims@[k];
                    pr.0@[0].id as int == side_slot(b, our_team, 0) && pr.0@[1].id as int
                        == side_slot(b, our_team, 1) && pr.0@[0].mv == sp.0.0 && pr.0@[1].mv
                        == sp.0.1 && pr.1@ == sp.1 && board_wf(pr.1@) && count_live(pr.1@)
                        <= count_live(b) && (!our_team ==> post_round_ok(pr.1@))
                } by {
                    assert(sim_entry_ok(b, our_team, ps[k], sims@[k]));
                    assert(sspec[k] == (ps[k], spec_apply_pair(b, our_team, ps[k].0, ps[k].1)));
                }
            }
        }
        sims
    }

    /// Appends to the simulation list every admissible joint move that
    /// pairs `m0` with a candidate of the second member.
    fn fill_row(
        &self,
        our_team: bool,
        idx0: usize,
        idx1: usize,
        m0: Movement,
        cands1: &Vec<Movement>,
        sims: &mut Vec<([SnakeMove; 2], SimpleBoard)>,
        done: Ghost<Seq<(Movement, Movement)>>,
    )
        requires
            board_wf(self@),
            side_ready(self@, our_team),
            idx0 as int == side_slot(self@, our_team, 0),
            idx1 as int == side_slot(self@, our_team, 1),
            idx0 < 4,
            idx1 < 4,
            sims_match(self@, our_team, done@, old(sims)@),
        ensures
            sims_match(
                self@,
                our_team,
                done@ + row_pairs(self@, our_team, m0, cands1@),
                final(sims)@,
            ),
    {
        let ghost b = self@;
        let ghost l1 = cands1@;
        let mut bi: usize = 0;
        proof {
            assert(l1.take(0) =~= Seq::<Movement>::empty());
            assert(done@ + row_pairs(b, our_team, m0, l1.take(0)) =~= done@);
        }
        while bi < cands1.len()
            invariant
                0 <= bi <= l1.len(),
                b == self@,
                board_wf(b),
                side_ready(b, our_team),
                idx0 as int == side_slot(b, our_team, 0),
                idx1 as int == side_slot(b, our_team, 1),
                idx0 < 4,
                idx1 < 4,
                cands1@ == l1,
                sims_match(b, our_team, done@ + row_pairs(b, our_team, m0, l1.take(bi as int)), sims@),
            decreases l1.len() - bi,
        {
            let m1 = cands1[bi];
            let np0 = self.next_of(idx0, m0, -2, -1);
            let np1 = self.next_of(idx1, m1, -1, -2);
            proof {
                assert((np0.x as int, np0.y as int) == member_next(b, our_team, 0, m0));
                assert((np1.x as int, np1.y as int) == member_next(b, our_team, 1, m1));
                lemma_row_pairs_take(b, our_team, m0, l1, bi as int);
            }
            if !(np0.x == np1.x && np0.y == np1.y) {
                proof {
                    assert(!pair_excluded(b, our_team, m0, m1));
                }
                let nb = self.apply_pair_exec(our_team, m0, m1);
                let ghost old_sims = sims@;
                sims.push(
                    ([SnakeMove { id: idx0, mv: m0 }, SnakeMove { id: idx1, mv: m1 }], nb),
                );
                proof {
                    assert(sims@ =~= old_sims.push(sims@.last()));
                    assert(sims@.last().0@[0] == (SnakeMove { id: idx0, mv: m0 }));
                    assert(sims@.last().0@[1] == (SnakeMove { id: idx1, mv: m1 }));
                    assert(done@ + row_pairs(b, our_team, m0, l1.take(bi + 1)) =~= (done@
                        + row_pairs(b, our_team, m0, l1.take(bi as int))).push((m0, m1)));
                }
            } else {
                proof {
                    assert(pair_excluded(b, our_team, m0, m1));
                    assert(done@ + row_pairs(b, our_team, m0, l1.take(bi + 1)) =~= done@
                        + row_pairs(b, our_team, m0, l1.take(bi as int)));
                }
            }
            bi += 1;
        }
        proof {
            assert(l1.take(l1.len() as int) =~= l1);
        }
    }

    /// Is the slot `j` live with its tail at `np`?
    fn tail_at(&self, j: usize, np: Coord) -> (r: bool)
        requires
            board_wf(self@),
            j < 4,
        ensures
            r == tail_of_slot(self@, j as int, np.x as int, np.y as int),
    {
        match &self.snakes[j] {
            Some(snake) => {
                proof {
                    assert(self@.snakes[j as int] == slot_view(self.snakes@[j as int]));
                    assert(live(self@, j as int));
                    assert(1 <= snake_at(self@, j as int).body.len());
                    assert(snake_at(self@, j as int) == snake@);
                }
                let back = snake.body[snake.body.len() - 1];
                back.x == np.x && back.y == np.y
            },
            None => false,
        }
    }
}

impl SimpleSnake {
    /// The legal-move generator's collision report against the other agents
    /// on the board: whether moving `self`'s head by `movement` hits any
    /// other agent (`.0`) and whether that hit would be fatal (`.1`), under
    /// the tail-retraction exceptions described at `spec_collision`.
    pub fn collision_with_snakes(&self, simple_board: &SimpleBoard, movement: Movement) -> (r: (
        bool,
        bool,
    ))
        requires
            board_wf(simple_board@),
            self@.body.len() >= 1,
            i32::MIN <= next_xy(self@.body[0], movement).0 <= i32::MAX,
            i32::MIN <= next_xy(self@.body[0], movement).1 <= i32::MAX,
        ensures
            r == spec_collision(
                simple_board@,
                self@,
                next_xy(self@.body[0], movement).0,
                next_xy(self@.body[0], movement).1,
            ),
    {
        let b = simple_board;
        let next_pos = self.next_position(movement);
        let ghost nx = next_xy(self@.body[0], movement).0;
        let ghost ny = next_xy(self@.body[0], movement).1;
        if b.tail_at(b.team[0], next_pos) || b.tail_at(b.team[1], next_pos) {
            return (false, false);
        }
        if b.tail_at(b.opps[0], next_pos) {
            let opp_head = match &b.snakes[b.opps[0]] {
                Some(snake) => snake.body[0],
                None => Coord { x: 0, y: 0 },
            };
            if b.food_adjacent(opp_head) {
                return (true, true);
            }
        }
        if b.tail_at(b.opps[1], next_pos) {
            let opp_head = match &b.snakes[b.opps[1]] {
                Some(snake) => snake.body[0],
                None => Coord { x: 0, y: 0 },
            };
            if b.food_adjacent(opp_head) {
                return (true, true);
            }
        }
        let mut any_collision = false;
        let mut dead = false;
        let mut j: usize = 0;
        while j < 4
            invariant
                0 <= j <= 4,
                board_wf(b@),
                self@.body.len() >= 1,
                any_collision == exists|j2: int|
                    0 <= j2 < j && live(b@, j2) && snake_at(b@, j2) != self@ && body_contains(
                        #[trigger] snake_at(b@, j2),
                        nx,
                        ny,
                    ),
                dead == exists|j2: int|
                    0 <= j2 < j && live(b@, j2) && snake_at(b@, j2) != self@ && body_contains(
                        #[trigger] snake_at(b@, j2),
                        nx,
                        ny,
                    ) && ((snake_at(b@, j2).body[0].x == nx && snake_at(b@, j2).body[0].y == ny)
                        ==> snake_at(b@, j2).body.len() >= self@.body.len()),
            decreases 4 - j,
        {
            match &b.snakes[j] {
                Some(other) => {
                    proof {
                        assert(b@.snakes[j as int] == slot_view(b.snakes@[j as int]));
                    }
                    if !same_snake(other, self) {
                        let hit = other.contains_cell(next_pos);
                        if hit {
                            any_collision = true;
                            let ohead = other.body[0];
                            if ohead.x == next_pos.x && ohead.y == next_pos.y {
                                if other.body.len() >= self.body.len() {
                                    dead = true;
                                }
                            } else {
                                dead = true;
                            }
                        }
                    }
                },
                None => {},
            }
            j += 1;
        }
        (any_collision, dead)
    }

    /// All moves that pass every filter of the legal-move generator, in the
    /// fixed enumeration order. This is a pruning device for the search,
    /// not a survival guarantee: elimination resolution still judges the
    /// states these moves lead to.
    pub fn get_safe_moves(&self, simple_board: &SimpleBoard) -> (r: Vec<Movement>)
        requires
            board_wf(simple_board@),
            self@.body.len() >= 2,
            -2 <= self@.body[0].x <= simple_board@.width + 1,
            -2 <= self@.body[0].y <= simple_board@.height + 1,
        ensures
            r@ == spec_safe_moves(simple_board@, self@),
    {
        let mut r: Vec<Movement> = Vec::new();
        if self.move_is_safe(simple_board, Movement::Up) {
            r.push(Movement::Up);
        }
        if self.move_is_safe(simple_board, Movement::Down) {
            r.push(Movement::Down);
        }
        if self.move_is_safe(simple_board, Movement::Left) {
            r.push(Movement::Left);
        }
        if self.move_is_safe(simple_board, Movement::Right) {
            r.push(Movement::Right);
        }
        proof {
            assert(r@ =~= spec_safe_moves(simple_board@, self@));
        }
        r
    }

    /// One move through all four filters: neck rule, bounds rule, own-body
    /// rule, other-agents rule.
    fn move_is_safe(&self, simple_board: &SimpleBoard, m: Movement) -> (r: bool)
        requires
            board_wf(simple_board@),
            self@.body.len() >= 2,
            -2 <= self@.body[0].x <= simple_board@.width + 1,
            -2 <= self@.body[0].y <= simple_board@.height + 1,
        ensures
            r == move_safe(simple_board@, self@, m),
    {
        let head = self.body[0];
        let neck = self.body[1];
        let excluded = match m {
            Movement::Left => neck.x < head.x,
            Movement::Right => neck.x > head.x,
            Movement::Down => neck.y < head.y,
            Movement::Up => neck.y > head.y,
            Movement::Still => false,
        };
        if excluded {
            return false;
        }
        if simple_out_of_bounds(&head, &m, simple_board.width, simple_board.height) {
            return false;
        }
        proof {
            let nx = next_xy(self@.body[0], m).0;
            let ny = next_xy(self@.body[0], m).1;
            let ncell = Coord { x: nx as i32, y: ny as i32 };
            if self@.body.contains(ncell) {
                let k = choose|k: int| 0 <= k < self@.body.len() && self@.body[k] == ncell;
                assert(self@.body[k].x == nx && self@.body[k].y == ny);
                assert(body_contains(self@, nx, ny));
            }
            if body_contains(self@, nx, ny) {
                let k = choose|k: int|
                    0 <= k < self@.body.len() && self@.body[k].x == nx && self@.body[k].y == ny;
                assert(self@.body[k] == ncell);
                assert(self@.body.contains(ncell));
            }
        }
        if self.collision_with_body(m) {
            return false;
        }
        let (coll, _) = self.collision_with_snakes(simple_board, m);
        !coll
    }

    /// An exact copy of this snake.
    fn duplicate(&self) -> (r: SimpleSnake)
        ensures
            r@ == self@,
    {
        let mut body: VecDeque<Coord> = VecDeque::new();
        let n = self.body.len();
        let mut k: usize = 0;
        while k < n
            invariant
                0 <= k <= n,
                n == self@.body.len(),
                body@ == self@.body.take(k as int),
            decreases n - k,
        {
            body.push_back(self.body[k]);
            proof {
                assert(body@ =~= self@.body.take(k + 1));
            }
            k += 1;
        }
        proof {
            assert(body@ =~= self@.body);
        }
        let r = SimpleSnake { health: self.health, body };
        proof {
            assert(r@ =~= self@);
        }
        r
    }

    /// This snake one ply later, its head on `np`: on a meal it grows and
    /// its health refills, otherwise its tail retracts and it loses one
    /// health.
    fn advanced(&self, np: Coord, ate: bool) -> (r: SimpleSnake)
        requires
            self@.body.len() >= 1,
            self@.health > i32::MIN,
        ensures
            r@ == moved_snake(self@, (np.x as int, np.y as int), ate),
    {
        let mut body: VecDeque<Coord> = VecDeque::new();
        body.push_back(np);
        let copy_len = if ate {
            self.body.len()
        } else {
            self.body.len() - 1
        };
        let mut k: usize = 0;
        while k < copy_len
            invariant
                0 <= k <= copy_len <= self@.body.len(),
                body@ == seq![np] + self@.body.take(k as int),
            decreases copy_len - k,
        {
            body.push_back(self.body[k]);
            proof {
                assert(body@ =~= seq![np] + self@.body.take(k + 1));
            }
            k += 1;
        }
        let health = if ate {
            100
        } else {
            self.health - 1
        };
        let r = SimpleSnake { health, body };
        proof {
            let grown = seq![np] + self@.body;
            if ate {
                assert(body@ =~= grown);
                assert(r@ =~= moved_snake(self@, (np.x as int, np.y as int), ate));
            } else {
                assert(body@ =~= grown.drop_last());
                assert(r@ =~= moved_snake(self@, (np.x as int, np.y as int), ate));
            }
        }
        r
    }

    /// Does any segment of this snake sit at exactly the cell `c`?
    fn contains_cell(&self, c: Coord) -> (r: bool)
        ensures
            r == body_contains(self@, c.x as int, c.y as int),
    {
        let mut k: usize = 0;
        while k < self.body.len()
            invariant
                0 <= k <= self@.body.len(),
                forall|q: int|
                    0 <= q < k ==> !(self@.body[q].x == c.x && (#[trigger] self@.body[q]).y == c.y),
            decreases self@.body.len() - k,
        {
            let s = self.body[k];
            if s.x == c.x && s.y == c.y {
                return true;
            }
            k += 1;
        }
        false
    }
}

} // verus!
