//! The one-ply wire-format search: our two agents' joint moves are
//! enumerated, each is applied to the snapshot, deaths are resolved, the
//! material heuristic scores the result, and the best-scoring joint move is
//! returned as wire move strings.
use vstd::prelude::*;

use crate::board_rep::{check_deaths, move_snake, sw_check_deaths, sw_find, sw_move_snake,
    lemma_sw_find_first, lemma_sw_find_none};
use crate::grid::Movement;
use crate::wire::{Battlesnake, Board, BoardW, get_safe_moves, wire_safe_moves};

verus! {

/// What one identifier contributes to the one-ply score: its snake's
/// length plus a low-health penalty of one, counted for us and against the
/// enemy; an absent identifier contributes nothing.
pub open spec fn sw_snake_value(snakes: Seq<crate::wire::SnakeW>, id: Seq<char>, friendly: bool) -> int {
    let j = sw_find(snakes, id);
    if j < 0 {
        0
    } else {
        let s = snakes[j];
        if friendly {
            s.length + (if s.health < 50 {
                -1int
            } else {
                0int
            })
        } else {
            -s.length + (if s.health < 50 {
                1int
            } else {
                0int
            })
        }
    }
}

/// The one-ply material score of a snapshot for our pair of identifiers
/// against the enemy pair.
pub open spec fn sw_heuristic(b: BoardW, t0: Seq<char>, t1: Seq<char>, e0: Seq<char>, e1: Seq<char>) -> int {
    sw_snake_value(b.snakes, t0, true) + sw_snake_value(b.snakes, t1, true) + sw_snake_value(
        b.snakes,
        e0,
        false,
    ) + sw_snake_value(b.snakes, e1, false)
}

/// The row of joint moves pairing `m0` with each element of `l1`.
pub open spec fn pair_row_all(m0: Movement, l1: Seq<Movement>) -> Seq<(Movement, Movement)>
    decreases l1.len(),
{
    if l1.len() == 0 {
        Seq::<(Movement, Movement)>::empty()
    } else {
        pair_row_all(m0, l1.drop_last()) + seq![(m0, l1.last())]
    }
}

/// The full cartesian product of the two members' move lists, in order.
pub open spec fn all_pairs(l0: Seq<Movement>, l1: Seq<Movement>) -> Seq<(Movement, Movement)>
    decreases l0.len(),
{
    if l0.len() == 0 {
        Seq::<(Movement, Movement)>::empty()
    } else {
        all_pairs(l0.drop_last(), l1) + pair_row_all(l0.last(), l1)
    }
}

/// One team member's candidate moves on the wire snapshot: its legal
/// moves, or the single default move when it is absent or cornered.
pub open spec fn sw_member_moves(b: BoardW, id: Seq<char>) -> Seq<Movement> {
    let j = sw_find(b.snakes, id);
    if j < 0 {
        seq![Movement::Down]
    } else {
        let sm = wire_safe_moves(b, b.snakes[j]);
        if sm.len() == 0 {
            seq![Movement::Down]
        } else {
            sm
        }
    }
}

/// All joint moves of our pair on the wire snapshot.
pub open spec fn sw_joint_moves(b: BoardW, id0: Seq<char>, id1: Seq<char>) -> Seq<
    (Movement, Movement),
> {
    all_pairs(sw_member_moves(b, id0), sw_member_moves(b, id1))
}

/// The one-ply score of one joint move: both members' moves applied in
/// order, deaths resolved mid-round, and the material score of the result.
pub open spec fn sw_value(
    b: BoardW,
    id0: Seq<char>,
    id1: Seq<char>,
    e0: Seq<char>,
    e1: Seq<char>,
    p: (Movement, Movement),
) -> int {
    sw_heuristic(
        sw_check_deaths(sw_move_snake(sw_move_snake(b, id0, p.0), id1, p.1), false),
        id0,
        id1,
        e0,
        e1,
    )
}

/// The preconditions under which the one-ply wire search cannot panic or
/// overflow: a plausible grid, every snake with head, neck and at least one
/// more segment, bounded coordinates, healths and lengths, and pairwise
/// distinct identifiers.
pub open spec fn search_ready(b: BoardW) -> bool {
    &&& 1 <= b.width <= 1000000
    &&& 1 <= b.height <= 1000000
    &&& forall|j: int| 0 <= j < b.snakes.len() ==> (#[trigger] b.snakes[j]).body.len() >= 3
    &&& forall|j: int, k: int|
        0 <= j < b.snakes.len() && 0 <= k < b.snakes[j].body.len() ==> {
            let c = #[trigger] b.snakes[j].body[k];
            -1000000 <= c.x <= 1000000 && -1000000 <= c.y <= 1000000
        }
    &&& forall|j: int| 0 <= j < b.snakes.len() ==> (#[trigger] b.snakes[j]).health >= 0
    &&& forall|j: int| 0 <= j < b.snakes.len() ==> 0 <= (#[trigger] b.snakes[j]).length <= 1000000
    &&& forall|j1: int, j2: int|
        0 <= j1 < j2 < b.snakes.len() ==> (#[trigger] b.snakes[j1]).id != (#[trigger] b.snakes[j2]).id
}

/// Finds the first snake with the given identifier.
fn find_index(board: &Board, id: &String) -> (r: Option<usize>)
    ensures
        r matches Some(j) ==> j < board@.snakes.len() && sw_find(board@.snakes, id@) == j as int,
        r is None ==> sw_find(board@.snakes, id@) == -1,
{
    let mut i: usize = 0;
    while i < board.snakes.len()
        invariant
            0 <= i <= board@.snakes.len(),
            forall|q: int| 0 <= q < i ==> (#[trigger] board@.snakes[q]).id != id@,
        decreases board@.snakes.len() - i,
    {
        if board.snakes[i].id.eq(id) {
            proof {
                assert(board@.snakes[i as int].id == id@);
                lemma_sw_find_first(board@.snakes, id@, i as int);
            }
            return Some(i);
        }
        i += 1;
    }
    proof {
        lemma_sw_find_none(board@.snakes, id@);
    }
    None
}

/// One identifier's contribution to the one-ply score.
fn snake_value(board: &Board, id: &String, friendly: bool) -> (r: i32)
    requires
        forall|j: int|
            0 <= j < board@.snakes.len() ==> -2000000 <= (#[trigger] board@.snakes[j]).length
                <= 2000000,
    ensures
        r as int == sw_snake_value(board@.snakes, id@, friendly),
        -2000001 <= r <= 2000001,
{
    match find_index(board, id) {
        Some(j) => {
            let s = &board.snakes[j];
            proof {
                assert(s@ == board@.snakes[j as int]);
            }
            let penalty: i32 = if s.health < 50 {
                1
            } else {
                0
            };
            if friendly {
                s.length - penalty
            } else {
                -s.length + penalty
            }
        },
        None => 0,
    }
}

/// The one-ply material score of a snapshot: our two identifiers count for
/// us, the enemy pair counts against us, each with its low-health penalty.
pub fn heuristic(_board: &Board, team_ids: &[String; 2], enemy_ids: &[String; 2]) -> (r: i32)
    requires
        forall|j: int|
            0 <= j < _board@.snakes.len() ==> -2000000 <= (#[trigger] _board@.snakes[j]).length
                <= 2000000,
    ensures
        r as int == sw_heuristic(_board@, team_ids@[0]@, team_ids@[1]@, enemy_ids@[0]@, enemy_ids@[1]@),
{
    let v0 = snake_value(_board, &team_ids[0], true);
    let v1 = snake_value(_board, &team_ids[1], true);
    let v2 = snake_value(_board, &enemy_ids[0], false);
    let v3 = snake_value(_board, &enemy_ids[1], false);
    v0 + v1 + v2 + v3
}

/// One member's candidate moves.
fn member_list(board: &Board, id: &String) -> (r: Vec<Movement>)
    requires
        1 <= board@.width <= 1000000,
        1 <= board@.height <= 1000000,
        forall|j: int| 0 <= j < board@.snakes.len() ==> (#[trigger] board@.snakes[j]).body.len() >= 3,
        forall|j: int, k: int|
            0 <= j < board@.snakes.len() && 0 <= k < board@.snakes[j].body.len() ==> {
                let c = #[trigger] board@.snakes[j].body[k];
                -1000000 <= c.x <= 1000000 && -1000000 <= c.y <= 1000000
            },
    ensures
        r@ == sw_member_moves(board@, id@),
        r@.len() >= 1,
{
    match find_index(board, id) {
        Some(j) => {
            let snake = &board.snakes[j];
            proof {
                assert(snake@ == board@.snakes[j as int]);
            }
            let mut m = get_safe_moves(board, snake);
            if m.len() == 0 {
                m.push(Movement::Down);
                proof {
                    assert(m@ =~= seq![Movement::Down]);
                }
            }
            m
        },
        None => {
            let mut v: Vec<Movement> = Vec::new();
            v.push(Movement::Down);
            proof {
                assert(v@ =~= seq![Movement::Down]);
            }
            v
        },
    }
}

/// All joint moves of our pair, in candidate order.
#[verifier::spinoff_prover]
#[verifier::rlimit(100)]
pub fn get_joint_moves(_board: &Board, team_ids: &[String; 2]) -> (r: Vec<[Movement; 2]>)
    requires
        1 <= _board@.width <= 1000000,
        1 <= _board@.height <= 1000000,
        forall|j: int| 0 <= j < _board@.snakes.len() ==> (#[trigger] _board@.snakes[j]).body.len() >= 3,
        forall|j: int, k: int|
            0 <= j < _board@.snakes.len() && 0 <= k < _board@.snakes[j].body.len() ==> {
                let c = #[trigger] _board@.snakes[j].body[k];
                -1000000 <= c.x <= 1000000 && -1000000 <= c.y <= 1000000
            },
    ensures
        ({
            let jm = sw_joint_moves(_board@, team_ids@[0]@, team_ids@[1]@);
            r@.len() == jm.len() && r@.len() >= 1 && forall|k: int|
                0 <= k < r@.len() ==> (#[trigger] r@[k])@[0] == jm[k].0 && r@[k]@[1] == jm[k].1
        }),
{
    let l0 = member_list(_board, &team_ids[0]);
    let l1 = member_list(_board, &team_ids[1]);
    let ghost s0 = l0@;
    let ghost s1 = l1@;
    let mut out: Vec<[Movement; 2]> = Vec::new();
    let mut a: usize = 0;
    while a < l0.len()
        invariant
            0 <= a <= s0.len(),
            l0@ == s0,
            l1@ == s1,
            s1.len() >= 1,
            out@.len() == all_pairs(s0.take(a as int), s1).len(),
            forall|k: int|
                0 <= k < out@.len() ==> (#[trigger] out@[k])@[0] == all_pairs(
                    s0.take(a as int),
                    s1,
                )[k].0 && out@[k]@[1] == all_pairs(s0.take(a as int), s1)[k].1,
        decreases s0.len() - a,
    {
        let m0 = l0[a];
        fill_pairs_row(m0, &l1, &mut out, Ghost(all_pairs(s0.take(a as int), s1)));
        proof {
            assert(s0.take(a + 1).drop_last() =~= s0.take(a as int));
            assert(s0.take(a + 1).last() == s0[a as int]);
        }
        a += 1;
    }
    proof {
        assert(s0.take(s0.len() as int) =~= s0);
        assert(all_pairs(s0, s1).len() >= pair_row_all(s0.last(), s1).len());
        lemma_pair_row_all_len(s0.last(), s1);
    }
    out
}

/// Appends the row pairing `m0` with every element of `l1`.
fn fill_pairs_row(
    m0: Movement,
    l1: &Vec<Movement>,
    out: &mut Vec<[Movement; 2]>,
    done: Ghost<Seq<(Movement, Movement)>>,
)
    requires
        old(out)@.len() == done@.len(),
        forall|k: int|
            0 <= k < old(out)@.len() ==> (#[trigger] old(out)@[k])@[0] == done@[k].0 && old(
                out,
            )@[k]@[1] == done@[k].1,
    ensures
        final(out)@.len() == (done@ + pair_row_all(m0, l1@)).len(),
        forall|k: int|
            0 <= k < final(out)@.len() ==> {
                let pp = (done@ + pair_row_all(m0, l1@))[k];
                (#[trigger] final(out)@[k])@[0] == pp.0 && final(out)@[k]@[1] == pp.1
            },
{
    let ghost s1 = l1@;
    let mut bi: usize = 0;
    proof {
        assert(s1.take(0) =~= Seq::<Movement>::empty());
        assert(done@ + pair_row_all(m0, s1.take(0)) =~= done@);
    }
    while bi < l1.len()
        invariant
            0 <= bi <= s1.len(),
            l1@ == s1,
            out@.len() == (done@ + pair_row_all(m0, s1.take(bi as int))).len(),
            forall|k: int|
                0 <= k < out@.len() ==> {
                    let pp = (done@ + pair_row_all(m0, s1.take(bi as int)))[k];
                    (#[trigger] out@[k])@[0] == pp.0 && out@[k]@[1] == pp.1
                },
        decreases s1.len() - bi,
    {
        let m1 = l1[bi];
        proof {
            assert(s1.take(bi + 1).drop_last() =~= s1.take(bi as int));
            assert(s1.take(bi + 1).last() == s1[bi as int]);
        }
        let ghost old_out = out@;
        out.push([m0, m1]);
        proof {
            assert(out@ =~= old_out.push(out@.last()));
            assert(out@.last()@[0] == m0 && out@.last()@[1] == m1);
        }
        bi += 1;
    }
    proof {
        assert(s1.take(s1.len() as int) =~= s1);
    }
}

/// A row of the cartesian product has one pair per move of the second
/// member.
proof fn lemma_pair_row_all_len(m0: Movement, l1: Seq<Movement>)
    ensures
        pair_row_all(m0, l1).len() == l1.len(),
    decreases l1.len(),
{
    if l1.len() > 0 {
        lemma_pair_row_all_len(m0, l1.drop_last());
    }
}

/// A member's candidates are actual moves, never the stand-still marker.
proof fn lemma_member_moves_not_still(b: BoardW, id: Seq<char>)
    ensures
        forall|q: int|
            0 <= q < sw_member_moves(b, id).len() ==> (#[trigger] sw_member_moves(b, id)[q])
                != Movement::Still,
{
}

/// A cartesian row of actual moves holds actual moves.
proof fn lemma_pair_row_not_still(m0: Movement, l1: Seq<Movement>)
    requires
        m0 != Movement::Still,
        forall|q: int| 0 <= q < l1.len() ==> (#[trigger] l1[q]) != Movement::Still,
    ensures
        forall|k: int|
            0 <= k < pair_row_all(m0, l1).len() ==> (#[trigger] pair_row_all(m0, l1)[k]).0
                != Movement::Still && pair_row_all(m0, l1)[k].1 != Movement::Still,
    decreases l1.len(),
{
    if l1.len() > 0 {
        lemma_pair_row_not_still(m0, l1.drop_last());
    }
}

/// The full cartesian product of actual moves holds actual moves.
proof fn lemma_all_pairs_not_still(l0: Seq<Movement>, l1: Seq<Movement>)
    requires
        forall|q: int| 0 <= q < l0.len() ==> (#[trigger] l0[q]) != Movement::Still,
        forall|q: int| 0 <= q < l1.len() ==> (#[trigger] l1[q]) != Movement::Still,
    ensures
        forall|k: int|
            0 <= k < all_pairs(l0, l1).len() ==> (#[trigger] all_pairs(l0, l1)[k]).0
                != Movement::Still && all_pairs(l0, l1)[k].1 != Movement::Still,
    decreases l0.len(),
{
    if l0.len() > 0 {
        lemma_all_pairs_not_still(l0.drop_last(), l1);
        lemma_pair_row_not_still(l0.last(), l1);
    }
}

/// The one-ply wire search: scores every joint move of our pair by
/// applying it, resolving deaths and reading the material heuristic, and
/// returns the wire spelling of the earliest joint move with the maximum
/// score. The time budget is accepted for interface compatibility; one ply
/// is always searched in full.
pub fn search(_board: &Board, team_ids: &[String; 2], enemy_ids: &[String; 2], timeout: u32) -> (r:
    [String; 2])
    requires
        search_ready(_board@),
    ensures
        ({
            let jm = sw_joint_moves(_board@, team_ids@[0]@, team_ids@[1]@);
            exists|k: int|
                0 <= k < jm.len() && r@[0]@ == (#[trigger] jm[k]).0.spec_text() && r@[1]@
                    == jm[k].1.spec_text() && (forall|q: int|
                    0 <= q < jm.len() ==> sw_value(
                        _board@,
                        team_ids@[0]@,
                        team_ids@[1]@,
                        enemy_ids@[0]@,
                        enemy_ids@[1]@,
                        #[trigger] jm[q],
                    ) <= sw_value(
                        _board@,
                        team_ids@[0]@,
                        team_ids@[1]@,
                        enemy_ids@[0]@,
                        enemy_ids@[1]@,
                        jm[k],
                    )) && (forall|q: int|
                    0 <= q < k ==> sw_value(
                        _board@,
                        team_ids@[0]@,
                        team_ids@[1]@,
                        enemy_ids@[0]@,
                        enemy_ids@[1]@,
                        #[trigger] jm[q],
                    ) < sw_value(
                        _board@,
                        team_ids@[0]@,
                        team_ids@[1]@,
                        enemy_ids@[0]@,
                        enemy_ids@[1]@,
                        jm[k],
                    ))
        }),
{
    let ghost bw = _board@;
    let ghost id0 = team_ids@[0]@;
    let ghost id1 = team_ids@[1]@;
    let ghost e0 = enemy_ids@[0]@;
    let ghost e1 = enemy_ids@[1]@;
    let joint_moves = get_joint_moves(_board, team_ids);
    let ghost jm = sw_joint_moves(bw, id0, id1);
    proof {
        lemma_member_moves_not_still(bw, id0);
        lemma_member_moves_not_still(bw, id1);
        lemma_all_pairs_not_still(sw_member_moves(bw, id0), sw_member_moves(bw, id1));
    }
    let mut best_idx: usize = 0;
    let mut best_value: i32 = pair_value(_board, team_ids, enemy_ids, &joint_moves[0]);
    let mut k: usize = 1;
    while k < joint_moves.len()
        invariant
            1 <= k <= jm.len(),
            joint_moves@.len() == jm.len(),
            bw == _board@,
            search_ready(bw),
            forall|q: int|
                0 <= q < jm.len() ==> (#[trigger] joint_moves@[q])@[0] == jm[q].0
                    && joint_moves@[q]@[1] == jm[q].1,
            0 <= best_idx < k,
            best_value as int == sw_value(bw, id0, id1, e0, e1, jm[best_idx as int]),
            forall|q: int|
                0 <= q < k ==> sw_value(bw, id0, id1, e0, e1, #[trigger] jm[q]) <= best_value as int,
            forall|q: int|
                0 <= q < best_idx ==> sw_value(bw, id0, id1, e0, e1, #[trigger] jm[q])
                    < best_value as int,
            forall|q: int|
                0 <= q < jm.len() ==> (#[trigger] jm[q]).0 != Movement::Still && jm[q].1
                    != Movement::Still,
        decreases jm.len() - k,
    {
        let v = pair_value(_board, team_ids, enemy_ids, &joint_moves[k]);
        if v > best_value {
            best_value = v;
            best_idx = k;
        }
        k += 1;
    }
    let chosen = &joint_moves[best_idx];
    let m0 = chosen[0];
    let m1 = chosen[1];
    proof {
        assert(jm[best_idx as int].0 == m0 && jm[best_idx as int].1 == m1);
    }
    [m0.text(), m1.text()]
}

/// Applies one joint move of our pair and scores the outcome.
fn pair_value(_board: &Board, team_ids: &[String; 2], enemy_ids: &[String; 2], pair: &[Movement; 2]) -> (r:
    i32)
    requires
        search_ready(_board@),
        pair@[0] != Movement::Still,
        pair@[1] != Movement::Still,
    ensures
        r as int == sw_value(
            _board@,
            team_ids@[0]@,
            team_ids@[1]@,
            enemy_ids@[0]@,
            enemy_ids@[1]@,
            (pair@[0], pair@[1]),
        ),
{
    let b1 = move_snake(_board, &team_ids[0], pair[0]);
    let b2 = move_snake(&b1, &team_ids[1], pair[1]);
    let b3 = check_deaths(&b2, false);
    proof {
        assert forall|j: int| 0 <= j < b3@.snakes.len() implies -2000000 <= (
        #[trigger] b3@.snakes[j]).length <= 2000000 by {
            assert(b2@.snakes.contains(b3@.snakes[j]));
            let w = choose|w: int| 0 <= w < b2@.snakes.len() && b2@.snakes[w] == b3@.snakes[j];
            assert(0 <= b2@.snakes[w].length <= 1000003);
        }
    }
    heuristic(&b3, team_ids, enemy_ids)
}

} // verus!
