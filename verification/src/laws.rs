//! The engine's cross-cutting guarantees, stated once and proved from the
//! specifications the executable functions carry.
use vstd::prelude::*;

use crate::grid::{Coord, Movement, next_xy};
use crate::simple::{
    BoardModel, SnakeModel, board_wf, body_contains, count_live, food_after, food_keep,
    heuristic_rel, live, move_safe, moved_snake, neck_excluded, on_grid_head, seq_has_cell,
    snake_at, spec_fast_heuristic, spec_kill, spec_kill_condition, spec_safe_moves,
};

verus! {

/// Food conservation. After a ply in which the two members land on `np0`
/// and `np1`, no food remains on either landing cell, a cell that held
/// food yields a strictly shorter food list, and the agent that ate grew
/// by exactly one segment with its health reset to full.
pub proof fn lemma_food_conservation(
    food: Seq<Coord>,
    np0: (int, int),
    np1: (int, int),
    s: SnakeModel,
)
    ensures
        food_after(food, np0, np1).len() <= food.len(),
        !seq_has_cell(food_after(food, np0, np1), np0),
        !seq_has_cell(food_after(food, np0, np1), np1),
        seq_has_cell(food, np0) ==> food_after(food, np0, np1).len() < food.len(),
        moved_snake(s, np0, true).body.len() == s.body.len() + 1,
        moved_snake(s, np0, true).health == 100,
    decreases food.len(),
{
    if food.len() > 0 {
        lemma_food_conservation(food.drop_last(), np0, np1, s);
        let pre = food.drop_last();
        let out = food_after(food, np0, np1);
        let sub = food_after(pre, np0, np1);
        assert forall|np: (int, int)|
            !seq_has_cell(sub, np) && (np == np0 || np == np1) implies !seq_has_cell(out, np) by {
            if seq_has_cell(out, np) {
                let p = choose|p: int|
                    0 <= p < out.len() && out[p].x == np.0 && (#[trigger] out[p]).y == np.1;
                if food_keep(food.last(), np0, np1) {
                    if p < sub.len() {
                        assert(sub[p] == out[p]);
                        assert(seq_has_cell(sub, np));
                    } else {
                        assert(out[p] == food.last());
                    }
                } else {
                    assert(sub[p] == out[p]);
                    assert(seq_has_cell(sub, np));
                }
            }
        }
        if seq_has_cell(food, np0) {
            if !food_keep(food.last(), np0, np1) {
                assert(sub.len() <= pre.len());
            } else {
                assert(seq_has_cell(pre, np0)) by {
                    let p = choose|p: int|
                        0 <= p < food.len() && food[p].x == np0.0 && (#[trigger] food[p]).y
                            == np0.1;
                    if p == food.len() - 1 {
                        assert(!food_keep(food.last(), np0, np1));
                        assert(false);
                    }
                    assert(pre[p] == food[p]);
                }
            }
        }
    }
}

/// The neck rule holds for every legal move: no move the generator returns
/// lands the agent's head on its own second body segment, whatever the
/// agent's heading.
pub proof fn lemma_neck_rule(b: BoardModel, s: SnakeModel, k: int)
    requires
        s.body.len() >= 2,
        0 <= k < spec_safe_moves(b, s).len(),
    ensures
        next_xy(s.body[0], spec_safe_moves(b, s)[k]) != (s.body[1].x as int, s.body[1].y as int),
{
    let m = spec_safe_moves(b, s)[k];
    assert(move_safe(b, s, m));
    assert(!body_contains(s, next_xy(s.body[0], m).0, next_xy(s.body[0], m).1));
    if next_xy(s.body[0], m) == (s.body[1].x as int, s.body[1].y as int) {
        assert(s.body[1].x == next_xy(s.body[0], m).0 && s.body[1].y == next_xy(s.body[0], m).1);
        assert(body_contains(s, next_xy(s.body[0], m).0, next_xy(s.body[0], m).1));
    }
}

/// Elimination only empties slots: after a round is resolved the number of
/// live agents never increases, and any agent whose head lies off the grid
/// is gone.
pub proof fn lemma_elimination(b: BoardModel)
    requires
        board_wf(b),
    ensures
        count_live(spec_kill(b)) <= count_live(b),
        forall|i: int| live(spec_kill(b), i) ==> on_grid_head(spec_kill(b), i),
{
    assert forall|i: int| live(spec_kill(b), i) implies on_grid_head(spec_kill(b), i) by {
        assert(spec_kill(b).snakes[i] == b.snakes[i]);
        assert(!spec_kill_condition(b, i));
    }
}

/// The head-on tie-break. Two agents of equal length whose heads meet on
/// the same cell are both eliminated by the round's resolution. When the
/// lengths differ, the shorter is eliminated; the longer survives provided
/// nothing else kills it — its head on the grid, health left, and no other
/// agent's segment under its head.
pub proof fn lemma_headon_equal(b: BoardModel, i: int, j: int)
    requires
        board_wf(b),
        live(b, i),
        live(b, j),
        i != j,
        snake_at(b, i).body[0] == snake_at(b, j).body[0],
        snake_at(b, i).body.len() == snake_at(b, j).body.len(),
    ensures
        spec_kill(b).snakes[i] is None,
        spec_kill(b).snakes[j] is None,
{
    assert(spec_kill_condition(b, i)) by {
        assert(snake_at(b, j).body[0] == snake_at(b, i).body[0]);
    }
    assert(spec_kill_condition(b, j)) by {
        assert(snake_at(b, i).body[0] == snake_at(b, j).body[0]);
    }
}

/// The unequal half of the tie-break.
pub proof fn lemma_headon_unequal(b: BoardModel, i: int, j: int)
    requires
        board_wf(b),
        live(b, i),
        live(b, j),
        i != j,
        snake_at(b, i).body[0] == snake_at(b, j).body[0],
        snake_at(b, i).body.len() > snake_at(b, j).body.len(),
        snake_at(b, i).health >= 1,
        on_grid_head(b, i),
        forall|j2: int, k: int|
            live(b, j2) && j2 != i && 0 <= k < snake_at(b, j2).body.len() && #[trigger] snake_at(
                b,
                j2,
            ).body[k] == snake_at(b, i).body[0] ==> j2 == j && k == 0,
    ensures
        spec_kill(b).snakes[i] == b.snakes[i],
        spec_kill(b).snakes[j] is None,
{
    assert(spec_kill_condition(b, j)) by {
        assert(snake_at(b, i).body[0] == snake_at(b, j).body[0]);
    }
    assert(!spec_kill_condition(b, i));
}

/// Sentinel correctness of the material heuristic: a board whose two team
/// slots are both empty evaluates to the minimum sentinel; one whose two
/// opposing slots are both empty — while our side still stands — evaluates
/// to the maximum sentinel; and as long as any agent at all is live, the
/// two conditions cannot hold together. (From a position where all four
/// agents are live and both heads of the only two survivors meet at equal
/// length, one transition can empty both sides at once; on such boards our
/// side is checked first and the minimum sentinel is returned.)
pub proof fn lemma_sentinels(b: BoardModel)
    requires
        board_wf(b),
    ensures
        !live(b, b.team.0) && !live(b, b.team.1) ==> spec_fast_heuristic(b) == i32::MIN as int,
        (live(b, b.team.0) || live(b, b.team.1)) && !live(b, b.opps.0) && !live(b, b.opps.1)
            ==> spec_fast_heuristic(b) == i32::MAX as int,
        (exists|i: int| live(b, i)) ==> !(!live(b, b.team.0) && !live(b, b.team.1) && !live(
            b,
            b.opps.0,
        ) && !live(b, b.opps.1)),
{
    if exists|i: int| live(b, i) {
        let i = choose|i: int| live(b, i);
        assert(0 <= i < 4);
        assert(i == b.team.0 || i == b.team.1 || i == b.opps.0 || i == b.opps.1);
    }
}

/// Idempotence of caching: two heuristic evaluations of the same board with
/// no transition in between return the same value — whatever the first
/// evaluation computed, the second reads back from the memo.
pub proof fn lemma_heuristic_idempotent(
    pre: BoardModel,
    fast: bool,
    r1: int,
    mid: BoardModel,
    r2: int,
    post: BoardModel,
)
    requires
        board_wf(pre),
        heuristic_rel(pre, fast, r1, mid),
        heuristic_rel(mid, fast, r2, post),
    ensures
        r1 == r2,
{
    assert(mid.snakes == pre.snakes);
    assert(mid.team == pre.team);
    assert(mid.opps == pre.opps);
    crate::simple::lemma_heuristic_cache_independent(mid, pre);
}

} // verus!
