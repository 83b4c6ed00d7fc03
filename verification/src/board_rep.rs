//! Wire-format board operations: applying one agent's move directly to a
//! turn snapshot, and resolving deaths on it. These serve the one-ply
//! search that works on the wire format without building a compact board.
use vstd::prelude::*;

use crate::grid::{Coord, Movement, next_xy};
use crate::simple::food_after;
use crate::wire::{Battlesnake, Board, BoardW, SnakeW, cell_in};

verus! {

/// The first index whose snake has exactly the identifier `id`, or -1.
pub open spec fn sw_find(snakes: Seq<SnakeW>, id: Seq<char>) -> int
    decreases snakes.len(),
{
    if snakes.len() == 0 {
        -1
    } else if snakes[0].id == id {
        0
    } else {
        let r = sw_find(snakes.drop_first(), id);
        if r < 0 {
            -1
        } else {
            r + 1
        }
    }
}

/// `sw_find` returns the first match.
pub proof fn lemma_sw_find_first(snakes: Seq<SnakeW>, id: Seq<char>, j: int)
    requires
        0 <= j < snakes.len(),
        snakes[j].id == id,
        forall|q: int| 0 <= q < j ==> (#[trigger] snakes[q]).id != id,
    ensures
        sw_find(snakes, id) == j,
    decreases j,
{
    if j > 0 {
        lemma_sw_find_first(snakes.drop_first(), id, j - 1);
    }
}

/// `sw_find` returns -1 exactly when no snake matches.
pub proof fn lemma_sw_find_none(snakes: Seq<SnakeW>, id: Seq<char>)
    requires
        forall|q: int| 0 <= q < snakes.len() ==> (#[trigger] snakes[q]).id != id,
    ensures
        sw_find(snakes, id) == -1,
    decreases snakes.len(),
{
    if snakes.len() > 0 {
        lemma_sw_find_none(snakes.drop_first(), id);
    }
}

/// What applying the move `m` to the snake named `id` does to a wire
/// snapshot: nothing if no snake has that identifier; otherwise the first
/// such snake's head advances — onto food it grows, refills its health and
/// the food disappears; otherwise its tail retracts and it loses one
/// health, vanishing from the board when that leaves it at zero or less.
pub open spec fn sw_move_snake(b: BoardW, id: Seq<char>, m: Movement) -> BoardW {
    let j = sw_find(b.snakes, id);
    if j < 0 {
        b
    } else {
        let s = b.snakes[j];
        let nh = Coord { x: next_xy(s.body[0], m).0 as i32, y: next_xy(s.body[0], m).1 as i32 };
        let eaten = cell_in(b.food, nh.x as int, nh.y as int);
        if eaten {
            BoardW {
                food: food_after(b.food, (nh.x as int, nh.y as int), (nh.x as int, nh.y as int)),
                snakes: b.snakes.update(
                    j,
                    SnakeW { health: 100, body: seq![nh] + s.body, length: s.length + 1, ..s },
                ),
                ..b
            }
        } else {
            let s2 = SnakeW {
                health: s.health - 1,
                body: (seq![nh] + s.body).drop_last(),
                ..s
            };
            if s.health - 1 <= 0 {
                BoardW { snakes: b.snakes.remove(j), ..b }
            } else {
                BoardW { snakes: b.snakes.update(j, s2), ..b }
            }
        }
    }
}

/// Applies one move to the named snake on a wire snapshot, as
/// `sw_move_snake` describes. The caller promises the move came from the
/// generator, so it is a real move, and the identifiers on the board are
/// distinct.
pub fn move_snake(board: &Board, id: &String, m: Movement) -> (r: Board)
    requires
        m != Movement::Still,
        forall|j: int| 0 <= j < board@.snakes.len() ==> (#[trigger] board@.snakes[j]).body.len() >= 1,
        forall|j: int, k: int|
            0 <= j < board@.snakes.len() && 0 <= k < board@.snakes[j].body.len() ==> {
                let c = #[trigger] board@.snakes[j].body[k];
                -1000002 <= c.x <= 1000002 && -1000002 <= c.y <= 1000002
            },
        forall|j: int| 0 <= j < board@.snakes.len() ==> (#[trigger] board@.snakes[j]).health >= -10,
        forall|j: int| 0 <= j < board@.snakes.len() ==> (#[trigger] board@.snakes[j]).length <= 2000000,
        forall|j1: int, j2: int|
            0 <= j1 < j2 < board@.snakes.len() ==> (#[trigger] board@.snakes[j1]).id != (
            #[trigger] board@.snakes[j2]).id,
    ensures
        r@ == sw_move_snake(board@, id@, m),
        r.hazards@ == board.hazards@,
        r.width == board.width,
        r.height == board.height,
        forall|j: int| 0 <= j < r@.snakes.len() ==> (#[trigger] r@.snakes[j]).body.len() >= 1,
        forall|j1: int, j2: int|
            0 <= j1 < j2 < r@.snakes.len() ==> (#[trigger] r@.snakes[j1]).id != (
            #[trigger] r@.snakes[j2]).id,
        (forall|j: int, k: int|
            0 <= j < board@.snakes.len() && 0 <= k < board@.snakes[j].body.len() ==> {
                let c = #[trigger] board@.snakes[j].body[k];
                -1000000 <= c.x <= 1000000 && -1000000 <= c.y <= 1000000
            }) ==> (forall|j: int, k: int|
            0 <= j < r@.snakes.len() && 0 <= k < r@.snakes[j].body.len() ==> {
                let c = #[trigger] r@.snakes[j].body[k];
                -1000001 <= c.x <= 1000001 && -1000001 <= c.y <= 1000001
            }),
        (forall|j: int, k: int|
            0 <= j < board@.snakes.len() && 0 <= k < board@.snakes[j].body.len() ==> {
                let c = #[trigger] board@.snakes[j].body[k];
                -1000001 <= c.x <= 1000001 && -1000001 <= c.y <= 1000001
            }) ==> (forall|j: int, k: int|
            0 <= j < r@.snakes.len() && 0 <= k < r@.snakes[j].body.len() ==> {
                let c = #[trigger] r@.snakes[j].body[k];
                -1000002 <= c.x <= 1000002 && -1000002 <= c.y <= 1000002
            }),
        (forall|j: int|
            0 <= j < board@.snakes.len() ==> (#[trigger] board@.snakes[j]).health >= -1) ==> (forall|
            j: int,
        |
            0 <= j < r@.snakes.len() ==> (#[trigger] r@.snakes[j]).health >= -2),
        (forall|j: int|
            0 <= j < board@.snakes.len() ==> (#[trigger] board@.snakes[j]).length <= 1000001)
            ==> (forall|j: int|
            0 <= j < r@.snakes.len() ==> (#[trigger] r@.snakes[j]).length <= 1000002),
        (forall|j: int|
            0 <= j < board@.snakes.len() ==> (#[trigger] board@.snakes[j]).length <= 1000002)
            ==> (forall|j: int|
            0 <= j < r@.snakes.len() ==> (#[trigger] r@.snakes[j]).length <= 1000003),
        (forall|j: int|
            0 <= j < board@.snakes.len() ==> (#[trigger] board@.snakes[j]).length >= 0) ==> (forall|
            j: int,
        |
            0 <= j < r@.snakes.len() ==> (#[trigger] r@.snakes[j]).length >= 0),
    {
        let ghost bw = board@;
        let mut found: Option<usize> = None;
        let mut i: usize = 0;
        while i < board.snakes.len()
            invariant
                0 <= i <= bw.snakes.len(),
                bw == board@,
                found is None,
                forall|q: int| 0 <= q < i ==> (#[trigger] bw.snakes[q]).id != id@,
            decreases bw.snakes.len() - i,
        {
            if board.snakes[i].id.eq(id) {
                proof {
                    assert(bw.snakes[i as int].id == id@);
                }
                found = Some(i);
                break ;
            }
            i += 1;
        }
        match found {
            None => {
                proof {
                    lemma_sw_find_none(bw.snakes, id@);
                }
                let r = clone_board(board);
                proof {
                    assert(r@ =~= sw_move_snake(bw, id@, m));
                }
                r
            },
            Some(j) => {
                proof {
                    lemma_sw_find_first(bw.snakes, id@, j as int);
                }
                let snake = &board.snakes[j];
                let head = snake.body[0];
                let new_head = head.step(m);
                let eaten = food_contains(&board.food, new_head);
                let mut new_snakes: Vec<Battlesnake> = Vec::new();
                let mut q: usize = 0;
                while q < board.snakes.len()
                    invariant
                        0 <= q <= bw.snakes.len(),
                        bw == board@,
                        j < bw.snakes.len(),
                        new_snakes@.len() == q,
                        forall|t: int|
                            0 <= t < q ==> new_snakes@.map_values(|s: Battlesnake| s@)[t] == (
                            #[trigger] bw.snakes[t]),
                    decreases bw.snakes.len() - q,
                {
                    let ghost old_models = new_snakes@.map_values(|s: Battlesnake| s@);
                    new_snakes.push(clone_snake(&board.snakes[q]));
                    proof {
                        assert(new_snakes@.map_values(|s: Battlesnake| s@) =~= old_models.push(
                            new_snakes@.map_values(|s: Battlesnake| s@).last(),
                        ));
                    }
                    q += 1;
                }
                let moved = advance_wire_snake(snake, new_head, eaten);
                new_snakes[j] = moved;
                proof {
                    assert(new_snakes@.map_values(|s: Battlesnake| s@) =~= bw.snakes.update(
                        j as int,
                        new_snakes@.map_values(|s: Battlesnake| s@)[j as int],
                    ));
                }
                let mut new_food: Vec<Coord> = Vec::new();
                if eaten {
                    let mut p: usize = 0;
                    while p < board.food.len()
                        invariant
                            0 <= p <= bw.food.len(),
                            bw == board@,
                            new_food@ == food_after(
                                bw.food.take(p as int),
                                (new_head.x as int, new_head.y as int),
                                (new_head.x as int, new_head.y as int),
                            ),
                        decreases bw.food.len() - p,
                    {
                        let f = board.food[p];
                        proof {
                            crate::simple::lemma_food_after_take(
                                bw.food,
                                (new_head.x as int, new_head.y as int),
                                (new_head.x as int, new_head.y as int),
                                p as int,
                            );
                        }
                        if !(f.x == new_head.x && f.y == new_head.y) {
                            new_food.push(f);
                            proof {
                                assert(new_food@ =~= food_after(
                                    bw.food.take(p as int),
                                    (new_head.x as int, new_head.y as int),
                                    (new_head.x as int, new_head.y as int),
                                ) + seq![bw.food[p as int]]);
                            }
                        } else {
                            proof {
                                assert(new_food@ =~= food_after(
                                    bw.food.take(p as int),
                                    (new_head.x as int, new_head.y as int),
                                    (new_head.x as int, new_head.y as int),
                                ) + Seq::<Coord>::empty());
                            }
                        }
                        p += 1;
                    }
                    proof {
                        assert(bw.food.take(bw.food.len() as int) =~= bw.food);
                    }
                } else {
                    new_food = board.food.clone();
                    if !eaten && snake.health - 1 <= 0 {
                        let removed = remove_at(new_snakes, j);
                        let r = Board {
                            height: board.height,
                            width: board.width,
                            food: new_food,
                            snakes: removed,
                            hazards: board.hazards.clone(),
                        };
                        proof {
                            assert(r@.snakes =~= bw.snakes.update(
                                j as int,
                                r@.snakes[0 as int],
                            ).remove(j as int)) by {
                                assert(bw.snakes.update(j as int, r@.snakes[0 as int]).remove(
                                    j as int,
                                ) =~= bw.snakes.remove(j as int));
                                assert(r@.snakes =~= bw.snakes.remove(j as int));
                            }
                            assert(r@.snakes =~= bw.snakes.remove(j as int));
                            assert(r@ =~= sw_move_snake(bw, id@, m));
                        }
                        return r;
                    }
                }
                let r = Board {
                    height: board.height,
                    width: board.width,
                    food: new_food,
                    snakes: new_snakes,
                    hazards: board.hazards.clone(),
                };
                proof {
                    assert(r@ =~= sw_move_snake(bw, id@, m));
                }
                r
            },
        }
    }

/// The moved copy of one wire snake.
fn advance_wire_snake(snake: &Battlesnake, new_head: Coord, eaten: bool) -> (r: Battlesnake)
    requires
        snake@.body.len() >= 1,
        snake@.health > i32::MIN,
        snake@.length < i32::MAX,
    ensures
        r@ == (if eaten {
            SnakeW {
                health: 100,
                body: seq![new_head] + snake@.body,
                length: snake@.length + 1,
                ..snake@
            }
        } else {
            SnakeW {
                health: snake@.health - 1,
                body: (seq![new_head] + snake@.body).drop_last(),
                ..snake@
            }
        }),
{
    let mut body: Vec<Coord> = Vec::new();
    body.push(new_head);
    let copy_len = if eaten {
        snake.body.len()
    } else {
        snake.body.len() - 1
    };
    let mut k: usize = 0;
    while k < copy_len
        invariant
            0 <= k <= copy_len <= snake@.body.len(),
            body@ == seq![new_head] + snake@.body.take(k as int),
        decreases copy_len - k,
    {
        body.push(snake.body[k]);
        proof {
            assert(body@ =~= seq![new_head] + snake@.body.take(k + 1));
        }
        k += 1;
    }
    let r = Battlesnake {
        id: snake.id.clone(),
        name: snake.name.clone(),
        health: if eaten {
            100
        } else {
            snake.health - 1
        },
        body,
        head: snake.head,
        length: if eaten {
            snake.length + 1
        } else {
            snake.length
        },
        latency: snake.latency.clone(),
        shout: None,
    };
    proof {
        if eaten {
            assert(body@ =~= seq![new_head] + snake@.body);
            assert(r@ =~= (SnakeW {
                health: 100,
                body: seq![new_head] + snake@.body,
                length: snake@.length + 1,
                ..snake@
            }));
        } else {
            assert(body@ =~= (seq![new_head] + snake@.body).drop_last());
            assert(r@ =~= (SnakeW {
                health: snake@.health - 1,
                body: (seq![new_head] + snake@.body).drop_last(),
                ..snake@
            }));
        }
    }
    r
}

/// A snake dies head-on when some differently-named snake's head sits on
/// the same cell and that snake is at least as long (so two equally long
/// snakes meeting head-on both die).
pub open spec fn sw_headon_dead(all: Seq<SnakeW>, x: SnakeW) -> bool {
    exists|b2: int|
        0 <= b2 < all.len() && (#[trigger] all[b2]).id != x.id && all[b2].body[0] == x.body[0]
            && all[b2].length >= x.length
}

/// A snake dies to a body collision when its head sits on another snake's
/// body — the whole body when a full round has passed, else the body
/// without its tail, which is about to retract.
pub open spec fn sw_body_dead(all: Seq<SnakeW>, x: SnakeW, full_turn: bool) -> bool {
    exists|j: int|
        0 <= j < all.len() && (#[trigger] all[j]).id != x.id && cell_in(
            if full_turn {
                all[j].body
            } else {
                all[j].body.drop_last()
            },
            x.body[0].x as int,
            x.body[0].y as int,
        )
}

/// Death resolution on a wire snapshot: first every head-on loser is
/// dropped, judged against the original snake list; then, among the
/// survivors, every snake whose head lies on another survivor's body is
/// dropped, all judged against the same survivor list.
pub open spec fn sw_check_deaths(b: BoardW, full_turn: bool) -> BoardW {
    let p1 = b.snakes.filter(|x: SnakeW| !sw_headon_dead(b.snakes, x));
    let p2 = p1.filter(|x: SnakeW| !sw_body_dead(p1, x, full_turn));
    BoardW { snakes: p2, ..b }
}

/// Every snake that survives a filter was on the original list.
proof fn lemma_filter_members(s: Seq<SnakeW>, pred: spec_fn(SnakeW) -> bool)
    ensures
        forall|i: int|
            0 <= i < s.filter(pred).len() ==> s.contains(#[trigger] s.filter(pred)[i]),
    decreases s.len(),
{
    reveal(Seq::filter);
    if s.len() > 0 {
        lemma_filter_members(s.drop_last(), pred);
        assert forall|i: int| 0 <= i < s.filter(pred).len() implies s.contains(
            #[trigger] s.filter(pred)[i],
        ) by {
            let sub = s.drop_last().filter(pred);
            if i < sub.len() {
                assert(s.filter(pred)[i] == sub[i]);
                assert(s.drop_last().contains(sub[i]));
                let w = choose|w: int| 0 <= w < s.drop_last().len() && s.drop_last()[w] == sub[i];
                assert(s[w] == sub[i]);
            } else {
                assert(s.filter(pred)[i] == s.last());
                assert(s[s.len() - 1] == s.last());
            }
        }
    }
}

/// Resolves deaths on a wire snapshot, as `sw_check_deaths` describes; the
/// snake list never grows.
pub fn check_deaths(board: &Board, full_turn: bool) -> (r: Board)
    requires
        forall|j: int| 0 <= j < board@.snakes.len() ==> (#[trigger] board@.snakes[j]).body.len() >= 1,
    ensures
        r@ == sw_check_deaths(board@, full_turn),
        r.hazards@ == board.hazards@,
        r.width == board.width,
        r.height == board.height,
        r@.snakes.len() <= board@.snakes.len(),
        forall|j: int|
            0 <= j < r@.snakes.len() ==> board@.snakes.contains(#[trigger] r@.snakes[j]),
{
    let ghost bw = board@;
    let ghost pred1 = |x: SnakeW| !sw_headon_dead(bw.snakes, x);
    let mut p1: Vec<Battlesnake> = Vec::new();
    let mut i: usize = 0;
    while i < board.snakes.len()
        invariant
            0 <= i <= bw.snakes.len(),
            bw == board@,
            forall|j: int| 0 <= j < bw.snakes.len() ==> (#[trigger] bw.snakes[j]).body.len() >= 1,
            p1@.map_values(|s: Battlesnake| s@) == bw.snakes.take(i as int).filter(pred1),
            pred1 == (|x: SnakeW| !sw_headon_dead(bw.snakes, x)),
        decreases bw.snakes.len() - i,
    {
        proof {
            reveal(Seq::filter);
            assert(bw.snakes.take(i + 1).drop_last() =~= bw.snakes.take(i as int));
            assert(bw.snakes.take(i + 1).last() == bw.snakes[i as int]);
        }
        let ghost old_models = p1@.map_values(|s: Battlesnake| s@);
        if !headon_dead_exec(board, i) {
            p1.push(clone_snake(&board.snakes[i]));
            proof {
                assert(p1@.map_values(|s: Battlesnake| s@) =~= old_models.push(
                    bw.snakes[i as int],
                ));
            }
        }
        i += 1;
    }
    proof {
        assert(bw.snakes.take(bw.snakes.len() as int) =~= bw.snakes);
    }
    let ghost t1 = p1@.map_values(|s: Battlesnake| s@);
    let ghost pred2 = |x: SnakeW| !sw_body_dead(t1, x, full_turn);
    proof {
        lemma_filter_members(bw.snakes, pred1);
        assert forall|j: int| 0 <= j < t1.len() implies (#[trigger] t1[j]).body.len() >= 1 by {
            assert(bw.snakes.contains(t1[j]));
            let w = choose|w: int| 0 <= w < bw.snakes.len() && bw.snakes[w] == t1[j];
            assert(bw.snakes[w].body.len() >= 1);
        }
        assert forall|j: int| 0 <= j < p1@.len() implies (#[trigger] p1@[j])@.body.len() >= 1 by {
            assert(t1[j] == p1@[j]@);
        }
    }
    let mut p2: Vec<Battlesnake> = Vec::new();
    let mut i: usize = 0;
    while i < p1.len()
        invariant
            0 <= i <= t1.len(),
            bw == board@,
            t1 == p1@.map_values(|s: Battlesnake| s@),
            forall|j: int| 0 <= j < t1.len() ==> (#[trigger] t1[j]).body.len() >= 1,
            p2@.map_values(|s: Battlesnake| s@) == t1.take(i as int).filter(pred2),
            pred2 == (|x: SnakeW| !sw_body_dead(t1, x, full_turn)),
        decreases t1.len() - i,
    {
        proof {
            reveal(Seq::filter);
            assert(t1.take(i + 1).drop_last() =~= t1.take(i as int));
            assert(t1.take(i + 1).last() == t1[i as int]);
        }
        let ghost old_models = p2@.map_values(|s: Battlesnake| s@);
        if !body_dead_exec(&p1, i, full_turn) {
            p2.push(clone_snake(&p1[i]));
            proof {
                assert(p2@.map_values(|s: Battlesnake| s@) =~= old_models.push(t1[i as int]));
            }
        }
        i += 1;
    }
    proof {
        assert(t1.take(t1.len() as int) =~= t1);
        bw.snakes.lemma_filter_len(pred1);
        t1.lemma_filter_len(pred2);
    }
    let r = Board {
        height: board.height,
        width: board.width,
        food: board.food.clone(),
        snakes: p2,
        hazards: board.hazards.clone(),
    };
    proof {
        assert(r@ =~= sw_check_deaths(bw, full_turn));
        lemma_filter_members(t1, pred2);
        assert forall|j: int| 0 <= j < r@.snakes.len() implies bw.snakes.contains(
            #[trigger] r@.snakes[j],
        ) by {
            assert(t1.contains(r@.snakes[j]));
            let w = choose|w: int| 0 <= w < t1.len() && t1[w] == r@.snakes[j];
            assert(bw.snakes.contains(t1[w]));
        }
    }
    r
}

/// Does the snake at index `i` lose a head-on meeting?
fn headon_dead_exec(board: &Board, i: usize) -> (r: bool)
    requires
        i < board@.snakes.len(),
        forall|j: int| 0 <= j < board@.snakes.len() ==> (#[trigger] board@.snakes[j]).body.len() >= 1,
    ensures
        r == sw_headon_dead(board@.snakes, board@.snakes[i as int]),
{
    let me = &board.snakes[i];
    proof {
        assert(me@ == board@.snakes[i as int]);
        assert(board@.snakes[i as int].body.len() >= 1);
    }
    let my_head = me.body[0];
    let mut j: usize = 0;
    while j < board.snakes.len()
        invariant
            0 <= j <= board@.snakes.len(),
            i < board@.snakes.len(),
            forall|q: int| 0 <= q < board@.snakes.len() ==> (#[trigger] board@.snakes[q]).body.len() >= 1,
            me@ == board@.snakes[i as int],
            my_head == board@.snakes[i as int].body[0],
            forall|q: int|
                0 <= q < j ==> !((#[trigger] board@.snakes[q]).id != me@.id
                    && board@.snakes[q].body[0] == me@.body[0] && board@.snakes[q].length
                    >= me@.length),
        decreases board@.snakes.len() - j,
    {
        let other = &board.snakes[j];
        proof {
            assert(board@.snakes[j as int] == other@);
        }
        if !other.id.eq(&me.id) {
            let oh = other.body[0];
            if oh.x == my_head.x && oh.y == my_head.y && other.length >= me.length {
                return true;
            }
        }
        j += 1;
    }
    false
}

/// Does the snake at index `i` of the survivor list die to a body
/// collision among those survivors?
fn body_dead_exec(list: &Vec<Battlesnake>, i: usize, full_turn: bool) -> (r: bool)
    requires
        i < list@.len(),
        forall|j: int| 0 <= j < list@.len() ==> (#[trigger] list@[j])@.body.len() >= 1,
    ensures
        r == sw_body_dead(
            list@.map_values(|s: Battlesnake| s@),
            list@.map_values(|s: Battlesnake| s@)[i as int],
            full_turn,
        ),
{
    let ghost t = list@.map_values(|s: Battlesnake| s@);
    let me = &list[i];
    proof {
        assert(me@ == list@[i as int]@);
        assert(list@[i as int]@.body.len() >= 1);
    }
    let my_head = me.body[0];
    let mut j: usize = 0;
    while j < list.len()
        invariant
            0 <= j <= t.len(),
            t == list@.map_values(|s: Battlesnake| s@),
            i < t.len(),
            forall|q: int| 0 <= q < t.len() ==> (#[trigger] t[q]).body.len() >= 1,
            me@ == t[i as int],
            my_head == t[i as int].body[0],
            forall|q: int|
                0 <= q < j ==> !((#[trigger] t[q]).id != me@.id && cell_in(
                    if full_turn {
                        t[q].body
                    } else {
                        t[q].body.drop_last()
                    },
                    me@.body[0].x as int,
                    me@.body[0].y as int,
                )),
        decreases t.len() - j,
    {
        let other = &list[j];
        proof {
            assert(t[j as int] == other@);
        }
        if !other.id.eq(&me.id) {
            let hit = if full_turn {
                let part = &other.body[0..other.body.len()];
                proof {
                    assert(part@ =~= other@.body);
                }
                crate::wire::collision_with_body(&my_head, part, Movement::Still)
            } else {
                let part = &other.body[0..other.body.len() - 1];
                proof {
                    assert(part@ =~= other@.body.drop_last());
                }
                crate::wire::collision_with_body(&my_head, part, Movement::Still)
            };
            if hit {
                return true;
            }
        }
        j += 1;
    }
    false
}

/// An exact copy of one wire snake (the shout is not carried over; the
/// engine never reads it).
fn clone_snake(s: &Battlesnake) -> (r: Battlesnake)
    ensures
        r@ == s@,
{
    let r = Battlesnake {
        id: s.id.clone(),
        name: s.name.clone(),
        health: s.health,
        body: s.body.clone(),
        head: s.head,
        length: s.length,
        latency: s.latency.clone(),
        shout: None,
    };
    proof {
        assert(r@ =~= s@);
    }
    r
}

/// An exact copy of a wire board.
fn clone_board(b: &Board) -> (r: Board)
    ensures
        r@ == b@,
        r.hazards@ == b.hazards@,
        r.width == b.width,
        r.height == b.height,
{
    let mut snakes: Vec<Battlesnake> = Vec::new();
    let mut q: usize = 0;
    while q < b.snakes.len()
        invariant
            0 <= q <= b.snakes@.len(),
            snakes@.len() == q,
            forall|t: int|
                0 <= t < q ==> snakes@.map_values(|s: Battlesnake| s@)[t] == (
                #[trigger] b@.snakes[t]),
        decreases b.snakes@.len() - q,
    {
        let ghost old_models = snakes@.map_values(|s: Battlesnake| s@);
        snakes.push(clone_snake(&b.snakes[q]));
        proof {
            assert(snakes@.map_values(|s: Battlesnake| s@) =~= old_models.push(
                snakes@.map_values(|s: Battlesnake| s@).last(),
            ));
        }
        q += 1;
    }
    let r = Board {
        height: b.height,
        width: b.width,
        food: b.food.clone(),
        snakes,
        hazards: b.hazards.clone(),
    };
    proof {
        assert(r@.snakes =~= b@.snakes);
        assert(r@ =~= b@);
    }
    r
}

/// Does the food list hold exactly the cell `c`?
fn food_contains(food: &Vec<Coord>, c: Coord) -> (r: bool)
    ensures
        r == cell_in(food@, c.x as int, c.y as int),
{
    let mut p: usize = 0;
    while p < food.len()
        invariant
            0 <= p <= food@.len(),
            forall|q: int|
                0 <= q < p ==> !(food@[q].x == c.x && (#[trigger] food@[q]).y == c.y),
        decreases food@.len() - p,
    {
        let f = food[p];
        if f.x == c.x && f.y == c.y {
            proof {
                assert(food@[p as int].x == c.x && food@[p as int].y == c.y);
            }
            return true;
        }
        p += 1;
    }
    false
}

/// Removes the element at `j`, preserving the order of the rest.
fn remove_at(mut v: Vec<Battlesnake>, j: usize) -> (r: Vec<Battlesnake>)
    requires
        j < v@.len(),
    ensures
        r@.map_values(|s: Battlesnake| s@) == v@.map_values(|s: Battlesnake| s@).remove(j as int),
{
    let ghost pre = v@.map_values(|s: Battlesnake| s@);
    v.remove(j);
    proof {
        assert(v@.map_values(|s: Battlesnake| s@) =~= pre.remove(j as int));
    }
    v
}

} // verus!
