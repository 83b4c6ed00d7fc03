//! The time-budgeted adversarial search over the compact board: depth-first
//! minimax with alpha-beta pruning, alternating between our side and the
//! opposing side, children ordered by their heuristic so that promising
//! moves tighten the bounds early, and a wall-clock budget that shrinks as
//! siblings are consumed so the search degrades to shallower depth rather
//! than failing.
use vstd::prelude::*;

use crate::grid::{Movement, SnakeMove, on_grid};
use crate::simple::{
    BoardModel, SimpleBoard, board_wf, clear_caches, from_rel, friendly, hostile, live, side_ready,
    side_slot, snake_at, spec_heuristic_value, spec_simulate, wire_sum_lens,
};
use crate::wire::{Board, GameInfo};

verus! {


/// The two boards agree on everything but their heuristic memo fields.
pub open spec fn eq_mod_caches(b1: BoardModel, b2: BoardModel) -> bool {
    b2 == (BoardModel { fast_cache: b2.fast_cache, flood_cache: b2.flood_cache, ..b1 })
}

/// Some position of `sk` holds exactly `k`.
pub open spec fn covered(sk: Seq<int>, k: int) -> bool {
    exists|j: int| 0 <= j < sk.len() && #[trigger] sk[j] == k
}

/// The largest value in a list (the minimum `i32` for an empty one, the
/// maximizing side's starting bound).
pub open spec fn seq_max_int(s: Seq<int>) -> int
    decreases s.len(),
{
    if s.len() == 0 {
        i32::MIN as int
    } else if s.len() == 1 {
        s[0]
    } else {
        let m = seq_max_int(s.drop_last());
        if s.last() > m {
            s.last()
        } else {
            m
        }
    }
}

/// The smallest value in a list (the maximum `i32` for an empty one, the
/// minimizing side's starting bound).
pub open spec fn seq_min_int(s: Seq<int>) -> int
    decreases s.len(),
{
    if s.len() == 0 {
        i32::MAX as int
    } else if s.len() == 1 {
        s[0]
    } else {
        let m = seq_min_int(s.drop_last());
        if s.last() < m {
            s.last()
        } else {
            m
        }
    }
}

/// Everything a search node may return, whatever the wall clock said: the
/// position's own heuristic (a depth or time leaf, or a side unfit to
/// move); a sentinel already visible in some child's heuristic; or the
/// best — maximum for our side, minimum for the opposing side — of the
/// values `vs` that the subtrees of a nonempty selection `ks` of its
/// children returned, each value plausible one ply deeper on a board `bms`
/// that is its child's board up to the heuristic memo fields.
pub open spec fn minmax_plausible(b: BoardModel, our: bool, fuel: nat, v: int) -> bool
    decreases fuel,
{
    ||| v == spec_heuristic_value(b)
    ||| (our && v == i32::MAX as int && exists|k: int|
        0 <= k < spec_simulate(b, our).len() && spec_heuristic_value(
            (#[trigger] spec_simulate(b, our)[k]).1,
        ) == i32::MAX as int)
    ||| (!our && v == i32::MIN as int && exists|k: int|
        0 <= k < spec_simulate(b, our).len() && spec_heuristic_value(
            (#[trigger] spec_simulate(b, our)[k]).1,
        ) == i32::MIN as int)
    ||| (fuel > 0 && exists|vs: Seq<int>, ks: Seq<int>, bms: Seq<BoardModel>|
        #[trigger] witness_lists(vs, ks, bms) && vs.len() >= 1 && vs.len() == ks.len() && vs.len()
            == bms.len() && (forall|t: int|
            0 <= t < vs.len() ==> 0 <= #[trigger] ks[t] < spec_simulate(b, our).len()) && (forall|
            t: int,
        |
            0 <= t < vs.len() ==> eq_mod_caches(
                spec_simulate(b, our)[#[trigger] ks[t]].1,
                bms[t],
            )) && (forall|t: int|
            0 <= t < vs.len() ==> minmax_plausible(#[trigger] bms[t], !our, (fuel - 1) as nat, vs[t]))
            && v == (if our {
            seq_max_int(vs)
        } else {
            seq_min_int(vs)
        }))
}

/// Marks a triple of ghost lists as candidate returned values, child
/// indices and witness boards; only a quantifier handle, true of every
/// triple.
pub open spec fn witness_lists(vs: Seq<int>, ks: Seq<int>, bms: Seq<BoardModel>) -> bool {
    true
}

/// Introduces the children-fold case of `minmax_plausible` from concrete
/// witness lists.
#[verifier::rlimit(100)]
proof fn lemma_plausible_fold(
    b: BoardModel,
    our: bool,
    fuel: nat,
    vs: Seq<int>,
    ks: Seq<int>,
    bms: Seq<BoardModel>,
    v: int,
)
    requires
        fuel > 0,
        vs.len() >= 1,
        vs.len() == ks.len(),
        vs.len() == bms.len(),
        forall|t: int| 0 <= t < vs.len() ==> 0 <= #[trigger] ks[t] < spec_simulate(b, our).len(),
        forall|t: int|
            0 <= t < vs.len() ==> eq_mod_caches(spec_simulate(b, our)[#[trigger] ks[t]].1, bms[t]),
        forall|t: int|
            0 <= t < vs.len() ==> minmax_plausible(#[trigger] bms[t], !our, (fuel - 1) as nat, vs[t]),
        v == (if our {
            seq_max_int(vs)
        } else {
            seq_min_int(vs)
        }),
    ensures
        minmax_plausible(b, our, fuel, v),
{
    assert(witness_lists(vs, ks, bms));
}

#[verifier::external_type_specification]
#[verifier::external_body]
pub struct ExInstant(std::time::Instant);

/// Relies on std::time::Instant::now: an opaque timestamp of this moment.
/// The value depends on the wall clock, so nothing is promised of it.
#[verifier::external_body]
fn clock_now() -> std::time::Instant {
    std::time::Instant::now()
}

/// Relies on std::time::Instant::elapsed: how long ago `start` was taken,
/// converted to nanoseconds and truncated to `u64` (exact below about 584
/// years). The value depends on the wall clock, so nothing is promised of
/// it.
#[verifier::external_body]
fn nanos_since(start: &std::time::Instant) -> u64 {
    start.elapsed().as_nanos() as u64
}

/// Checks at run time that the given side's live members are fit to move:
/// head and neck present, not starved, head on the grid.
fn ready_check(board: &SimpleBoard, our_team: bool) -> (r: bool)
    requires
        board_wf(board@),
    ensures
        r == side_ready(board@, our_team),
{
    let i0 = if our_team {
        board.team[0]
    } else {
        board.opps[0]
    };
    let i1 = if our_team {
        board.team[1]
    } else {
        board.opps[1]
    };
    let ok0 = slot_ready(board, i0);
    let ok1 = slot_ready(board, i1);
    proof {
        assert(i0 as int == side_slot(board@, our_team, 0));
        assert(i1 as int == side_slot(board@, our_team, 1));
        if ok0 && ok1 {
            assert forall|w: int|
                0 <= w < 2 && live(board@, #[trigger] side_slot(board@, our_team, w)) implies {
                let s = snake_at(board@, side_slot(board@, our_team, w));
                s.body.len() >= 2 && s.health >= 0 && on_grid(
                    s.body[0].x as int,
                    s.body[0].y as int,
                    board@.width,
                    board@.height,
                )
            } by {
                assert(w == 0 || w == 1);
            }
        }
    }
    ok0 && ok1
}

/// One slot's readiness to move.
fn slot_ready(board: &SimpleBoard, idx: usize) -> (r: bool)
    requires
        board_wf(board@),
        idx < 4,
    ensures
        r == (live(board@, idx as int) ==> {
            let s = snake_at(board@, idx as int);
            s.body.len() >= 2 && s.health >= 0 && on_grid(
                s.body[0].x as int,
                s.body[0].y as int,
                board@.width,
                board@.height,
            )
        }),
{
    match &board.snakes[idx] {
        Some(s) => {
            proof {
                assert(board@.snakes[idx as int] == crate::simple::slot_view(
                    board.snakes@[idx as int],
                ));
                assert(live(board@, idx as int));
                assert(snake_at(board@, idx as int) == s@);
                assert(1 <= snake_at(board@, idx as int).body.len());
            }
            let head = s.body[0];
            s.body.len() >= 2 && s.health >= 0 && 0 <= head.x && head.x < board.width && 0
                <= head.y && head.y < board.height
        },
        None => true,
    }
}

/// Where a child of the given heuristic value goes in the move-ordering
/// list: after every child it does not beat (descending for our side,
/// ascending for the opposing side), keeping equals in arrival order.
fn insert_pos(scored: &Vec<(i32, SimpleBoard)>, h: i32, our_team: bool) -> (r: usize)
    ensures
        r <= scored@.len(),
        forall|q: int|
            0 <= q < r ==> (if our_team {
                (#[trigger] scored@[q]).0 >= h
            } else {
                scored@[q].0 <= h
            }),
        r < scored@.len() ==> (if our_team {
            scored@[r as int].0 < h
        } else {
            scored@[r as int].0 > h
        }),
{
    let mut j: usize = 0;
    while j < scored.len()
        invariant
            0 <= j <= scored@.len(),
            forall|q: int|
                0 <= q < j ==> (if our_team {
                    (#[trigger] scored@[q]).0 >= h
                } else {
                    scored@[q].0 <= h
                }),
        decreases scored@.len() - j,
    {
        let keep = if our_team {
            scored[j].0 >= h
        } else {
            scored[j].0 <= h
        };
        if !keep {
            return j;
        }
        j += 1;
    }
    j
}

/// Evaluates every child once and orders the list by those values —
/// descending for our side, ascending for the opposing side, equals in
/// arrival order — so the search tries promising moves first. Returns the
/// ordered list and, for the proof, which child of the transition each
/// entry came from.
#[verifier::spinoff_prover]
#[verifier::rlimit(100)]
fn score_children(
    sims: Vec<([SnakeMove; 2], SimpleBoard)>,
    our_team: bool,
    bmg: Ghost<BoardModel>,
) -> (r: (Vec<(i32, SimpleBoard)>, Ghost<Seq<int>>))
    requires
        board_wf(bmg@),
        sims@.len() == spec_simulate(bmg@, our_team).len(),
        sims@.len() >= 1,
        forall|q: int|
            0 <= q < sims@.len() ==> (#[trigger] sims@[q]).1@ == spec_simulate(bmg@, our_team)[q].1
                && board_wf(sims@[q].1@),
    ensures
        r.1@.len() == r.0@.len(),
        r.0@.len() == spec_simulate(bmg@, our_team).len(),
        forall|j: int|
            0 <= j < r.0@.len() ==> 0 <= #[trigger] r.1@[j] < spec_simulate(bmg@, our_team).len()
                && r.0@[j].0 as int == spec_heuristic_value(
                spec_simulate(bmg@, our_team)[r.1@[j]].1,
            ) && eq_mod_caches(spec_simulate(bmg@, our_team)[r.1@[j]].1, r.0@[j].1@) && board_wf(
                r.0@[j].1@,
            ),
        forall|j1: int, j2: int|
            0 <= j1 <= j2 < r.0@.len() ==> (if our_team {
                (#[trigger] r.0@[j1]).0 >= (#[trigger] r.0@[j2]).0
            } else {
                r.0@[j1].0 <= r.0@[j2].0
            }),
        forall|k: int| 0 <= k < r.0@.len() ==> #[trigger] covered(r.1@, k),
{
    let ghost bm = bmg@;
    let mut sims = sims;
    let n = sims.len();
    let ghost sims0 = sims@;
    let ghost cval = |k: int| spec_heuristic_value(spec_simulate(bm, our_team)[k].1);
    let mut scored: Vec<(i32, SimpleBoard)> = Vec::new();
    let ghost mut sk: Seq<int> = Seq::empty();
    let mut done: usize = 0;
    while sims.len() > 0
        invariant
            board_wf(bm),
            n == sims0.len(),
            n >= 1,
            n == spec_simulate(bm, our_team).len(),
            done + sims@.len() == n,
            forall|q: int| 0 <= q < sims@.len() ==> sims@[q] == sims0[done + q],
            forall|q: int|
                0 <= q < n ==> (#[trigger] sims0[q]).1@ == spec_simulate(bm, our_team)[q].1
                    && board_wf(sims0[q].1@),
            cval == (|k: int| spec_heuristic_value(spec_simulate(bm, our_team)[k].1)),
            sk.len() == scored@.len(),
            scored@.len() == done,
            forall|j: int|
                0 <= j < scored@.len() ==> 0 <= #[trigger] sk[j] < done && scored@[j].0 as int
                    == cval(sk[j]) && eq_mod_caches(
                    spec_simulate(bm, our_team)[sk[j]].1,
                    scored@[j].1@,
                ) && board_wf(scored@[j].1@),
            forall|j1: int, j2: int|
                0 <= j1 <= j2 < scored@.len() ==> (if our_team {
                    (#[trigger] scored@[j1]).0 >= (#[trigger] scored@[j2]).0
                } else {
                    scored@[j1].0 <= scored@[j2].0
                }),
            forall|k: int| 0 <= k < done ==> #[trigger] covered(sk, k),
        decreases sims@.len(),
    {
        let (_, mut child) = sims.remove(0);
        proof {
            assert(child@ == sims0[done as int].1@);
        }
        let ghost child_pre = child@;
        let h = child.heuristic(false);
        proof {
            assert(h as int == cval(done as int));
            assert(eq_mod_caches(spec_simulate(bm, our_team)[done as int].1, child@));
        }
        let j = insert_pos(&scored, h, our_team);
        let ghost old_scored = scored@;
        let ghost old_sk = sk;
        scored.insert(j, (h, child));
        proof {
            sk = old_sk.insert(j as int, done as int);
            assert(scored@ == old_scored.insert(j as int, (h, scored@[j as int].1)));
            assert forall|j2: int|
                0 <= j2 < scored@.len() implies 0 <= #[trigger] sk[j2] < done + 1
                && scored@[j2].0 as int == cval(sk[j2]) && eq_mod_caches(
                spec_simulate(bm, our_team)[sk[j2]].1,
                scored@[j2].1@,
            ) && board_wf(scored@[j2].1@) by {
                if j2 < j {
                    assert(sk[j2] == old_sk[j2]);
                    assert(scored@[j2] == old_scored[j2]);
                } else if j2 == j {
                } else {
                    assert(sk[j2] == old_sk[j2 - 1]);
                    assert(scored@[j2] == old_scored[j2 - 1]);
                }
            }
            assert forall|j1: int, j2: int|
                0 <= j1 <= j2 < scored@.len() implies (if our_team {
                (#[trigger] scored@[j1]).0 >= (#[trigger] scored@[j2]).0
            } else {
                scored@[j1].0 <= scored@[j2].0
            }) by {
                if j1 < j && j2 < j {
                    assert(scored@[j1] == old_scored[j1] && scored@[j2] == old_scored[j2]);
                } else if j1 < j && j2 == j {
                    assert(scored@[j1] == old_scored[j1]);
                } else if j1 < j && j2 > j {
                    assert(scored@[j1] == old_scored[j1] && scored@[j2] == old_scored[j2 - 1]);
                } else if j1 == j && j2 == j {
                } else if j1 == j && j2 > j {
                    assert(scored@[j2] == old_scored[j2 - 1]);
                    assert(j2 - 1 >= j);
                    if (j as int) < old_scored.len() {
                        assert(if our_team {
                            old_scored[j as int].0 < h
                        } else {
                            old_scored[j as int].0 > h
                        });
                    }
                } else {
                    assert(scored@[j1] == old_scored[j1 - 1] && scored@[j2] == old_scored[j2 - 1]);
                }
            }
            assert forall|k: int| 0 <= k < done + 1 implies #[trigger] covered(sk, k) by {
                if k == done as int {
                    assert(sk[j as int] == k);
                } else {
                    assert(covered(old_sk, k));
                    let j0 = choose|j0: int| 0 <= j0 < old_sk.len() && #[trigger] old_sk[j0] == k;
                    if j0 < j {
                        assert(sk[j0] == k);
                    } else {
                        assert(sk[j0 + 1] == k);
                    }
                }
            }
        }
        done += 1;
    }
    proof {
        assert forall|j: int|
            0 <= j < scored@.len() implies 0 <= #[trigger] sk[j] < n as int && scored@[j].0 as int
            == spec_heuristic_value(spec_simulate(bm, our_team)[sk[j]].1) && eq_mod_caches(
            spec_simulate(bm, our_team)[sk[j]].1,
            (#[trigger] scored@[j]).1@,
        ) && board_wf(scored@[j].1@) by {
            assert(cval(sk[j]) == spec_heuristic_value(spec_simulate(bm, our_team)[sk[j]].1));
        }
    }
    (scored, Ghost(sk))
}

/// One node of the minimax recursion: our side maximizes, the opposing
/// side minimizes, alpha-beta bounds prune, and the node returns its best
/// value so far as soon as its budget runs out. Boards whose moving side is
/// not fit to move (a degenerate fallback line) are treated as leaves. The
/// board is only changed in its heuristic memo fields.
#[verifier::spinoff_prover]
#[verifier::rlimit(100)]
fn minmax(
    board: &mut SimpleBoard,
    depth: u32,
    our_team: bool,
    alpha0: i32,
    beta0: i32,
    timeout_ns: u64,
) -> (r: i32)
    requires
        board_wf(old(board)@),
        depth <= 100,
    ensures
        board_wf(final(board)@),
        final(board)@ == (BoardModel {
            fast_cache: final(board)@.fast_cache,
            flood_cache: final(board)@.flood_cache,
            ..old(board)@
        }),
        (depth >= 100 || timeout_ns == 0) ==> r as int == spec_heuristic_value(old(board)@),
        (depth < 100 && timeout_ns != 0 && !side_ready(old(board)@, our_team)) ==> r as int
            == spec_heuristic_value(old(board)@),
        (depth < 100 && timeout_ns != 0 && side_ready(old(board)@, our_team) && our_team && (exists|
            k: int,
        |
            0 <= k < spec_simulate(old(board)@, our_team).len() && spec_heuristic_value(
                (#[trigger] spec_simulate(old(board)@, our_team)[k]).1,
            ) == i32::MAX as int)) ==> r == i32::MAX,
        (depth < 100 && timeout_ns != 0 && side_ready(old(board)@, our_team) && !our_team && (exists|
            k: int,
        |
            0 <= k < spec_simulate(old(board)@, our_team).len() && spec_heuristic_value(
                (#[trigger] spec_simulate(old(board)@, our_team)[k]).1,
            ) == i32::MIN as int)) ==> r == i32::MIN,
        minmax_plausible(old(board)@, our_team, (100 - depth) as nat, r as int),
    decreases 100 - depth,
{
    let ghost bm = old(board)@;
    let ghost fuel = (100 - depth) as nat;
    let start = clock_now();
    if depth >= 100 || timeout_ns == 0 {
        return board.heuristic(false);
    }
    if !ready_check(board, our_team) {
        return board.heuristic(false);
    }
    let mut alpha = alpha0;
    let mut beta = beta0;
    let sims = board.simulate_move(our_team);
    let n = sims.len();
    let (scored, skg) = score_children(sims, our_team, Ghost(bm));
    let mut scored = scored;
    let ghost sk = skg@;
    proof {
        assert(n as int == spec_simulate(bm, our_team).len());
        assert forall|j: int| 0 <= j < scored@.len() implies board_wf(
            (#[trigger] scored@[j]).1@,
        ) by {
            assert(0 <= sk[j] < n as int);
        }
    }
    if scored.len() > 0 {
        let top = scored[0].0;
        if our_team && top == i32::MAX {
            proof {
                assert(spec_heuristic_value(spec_simulate(bm, our_team)[sk[0]].1)
                    == i32::MAX as int);
            }
            return i32::MAX;
        }
        if !our_team && top == i32::MIN {
            proof {
                assert(spec_heuristic_value(spec_simulate(bm, our_team)[sk[0]].1)
                    == i32::MIN as int);
            }
            return i32::MIN;
        }
    }
    proof {
        if our_team {
            assert forall|k: int| 0 <= k < n implies spec_heuristic_value(
                (#[trigger] spec_simulate(bm, our_team)[k]).1,
            ) != i32::MAX as int by {
                assert(covered(sk, k));
                let j = choose|j: int| 0 <= j < sk.len() && #[trigger] sk[j] == k;
                assert(scored@[j].0 as int == spec_heuristic_value(
                    spec_simulate(bm, our_team)[k].1,
                ));
                assert(scored@[0].0 >= scored@[j].0);
            }
        } else {
            assert forall|k: int| 0 <= k < n implies spec_heuristic_value(
                (#[trigger] spec_simulate(bm, our_team)[k]).1,
            ) != i32::MIN as int by {
                assert(covered(sk, k));
                let j = choose|j: int| 0 <= j < sk.len() && #[trigger] sk[j] == k;
                assert(scored@[j].0 as int == spec_heuristic_value(
                    spec_simulate(bm, our_team)[k].1,
                ));
                assert(scored@[0].0 <= scored@[j].0);
            }
        }
    }
    let mut best_value: i32 = if our_team {
        i32::MIN
    } else {
        i32::MAX
    };
    let mut evaluated = false;
    let mut pos: usize = 0;
    let ghost mut vs_used: Seq<int> = Seq::empty();
    let ghost mut ks_used: Seq<int> = Seq::empty();
    let ghost mut bms_used: Seq<BoardModel> = Seq::empty();
    while scored.len() > 0
        invariant
            board_wf(board@),
            board@ == (BoardModel {
                fast_cache: board@.fast_cache,
                flood_cache: board@.flood_cache,
                ..bm
            }),
            bm == old(board)@,
            depth < 100,
            timeout_ns != 0,
            side_ready(bm, our_team),
            n == spec_simulate(bm, our_team).len(),
            our_team ==> forall|k: int|
                0 <= k < n ==> spec_heuristic_value((#[trigger] spec_simulate(bm, our_team)[k]).1)
                    != i32::MAX as int,
            !our_team ==> forall|k: int|
                0 <= k < n ==> spec_heuristic_value((#[trigger] spec_simulate(bm, our_team)[k]).1)
                    != i32::MIN as int,
            n >= 1,
            depth < 100,
            fuel == (100 - depth) as nat,
            pos as int + scored@.len() == sk.len(),
            sk.len() == n,
            forall|j: int|
                0 <= j < scored@.len() ==> 0 <= #[trigger] sk[pos + j] < n && eq_mod_caches(
                    spec_simulate(bm, our_team)[sk[pos + j]].1,
                    scored@[j].1@,
                ) && board_wf(scored@[j].1@),
            evaluated == (vs_used.len() > 0),
            vs_used.len() == ks_used.len(),
            vs_used.len() == bms_used.len(),
            forall|t: int| 0 <= t < ks_used.len() ==> 0 <= #[trigger] ks_used[t] < n,
            forall|t: int|
                0 <= t < vs_used.len() ==> eq_mod_caches(
                    spec_simulate(bm, our_team)[#[trigger] ks_used[t]].1,
                    bms_used[t],
                ),
            forall|t: int|
                0 <= t < vs_used.len() ==> minmax_plausible(
                    #[trigger] bms_used[t],
                    !our_team,
                    (fuel - 1) as nat,
                    vs_used[t],
                ),
            best_value as int == (if our_team {
                seq_max_int(vs_used)
            } else {
                seq_min_int(vs_used)
            }),
        decreases scored@.len(),
    {
        let elapsed = nanos_since(&start);
        if elapsed >= timeout_ns {
            if evaluated {
                proof {
                    lemma_plausible_fold(
                        bm,
                        our_team,
                        fuel,
                        vs_used,
                        ks_used,
                        bms_used,
                        best_value as int,
                    );
                }
                return best_value;
            }
            let ghost mid = board@;
            let r = board.heuristic(false);
            proof {
                crate::simple::lemma_heuristic_cache_independent(mid, bm);
            }
            return r;
        }
        let time_left = timeout_ns - elapsed;
        let share = time_left / (scored.len() as u64);
        let ghost pre_remove = scored@;
        proof {
            assert(0 <= sk[pos as int + 0] < n && board_wf(scored@[0].1@) && eq_mod_caches(
                spec_simulate(bm, our_team)[sk[pos as int + 0]].1,
                scored@[0].1@,
            ));
        }
        let (_, mut child) = scored.remove(0);
        let ghost child_pre = child@;
        let value = minmax(&mut child, depth + 1, !our_team, alpha, beta, share);
        proof {
            let old_vs = vs_used;
            vs_used = vs_used.push(value as int);
            ks_used = ks_used.push(sk[pos as int]);
            bms_used = bms_used.push(child_pre);
            assert(minmax_plausible(child_pre, !our_team, (fuel - 1) as nat, value as int));
            assert(vs_used.drop_last() =~= old_vs);
            assert forall|j: int|
                0 <= j < scored@.len() implies 0 <= #[trigger] sk[pos + 1 + j] < n
                && eq_mod_caches(
                spec_simulate(bm, our_team)[sk[pos + 1 + j]].1,
                scored@[j].1@,
            ) && board_wf(scored@[j].1@) by {
                assert(scored@[j] == pre_remove[j + 1]);
                assert(sk[pos + 1 + j] == sk[pos as int + (j + 1)]);
            }
        }
        evaluated = true;
        pos += 1;
        if our_team {
            if value > best_value {
                best_value = value;
            }
            if best_value > alpha {
                alpha = best_value;
            }
            if best_value >= beta {
                break ;
            }
        } else {
            if value < best_value {
                best_value = value;
            }
            if best_value < beta {
                beta = best_value;
            }
            if best_value <= alpha {
                break ;
            }
        }
    }
    if !evaluated {
        let ghost mid = board@;
        let r = board.heuristic(false);
        proof {
            crate::simple::lemma_heuristic_cache_independent(mid, bm);
        }
        return r;
    }
    proof {
        lemma_plausible_fold(bm, our_team, fuel, vs_used, ks_used, bms_used, best_value as int);
    }
    best_value
}

/// The root of the adversarial search: builds the compact board from the
/// wire snapshot, enumerates our side's joint moves, searches the opposing
/// reply of each within an even share of the remaining time budget, and
/// returns the joint move of the best-scoring child (earliest on a tie).
/// The result is always one of the joint moves the transition offered.
#[verifier::spinoff_prover]
#[verifier::rlimit(100)]
pub fn search(board: &Board, game_info: &GameInfo) -> (r: [SnakeMove; 2])
    requires
        1 <= board.width <= 1000,
        1 <= board.height <= 1000,
        board.snakes@.len() <= 4,
        forall|k: int|
            0 <= k < board.snakes@.len() ==> 0 <= #[trigger] board.snakes@[k].health <= 100
                && 2 <= board.snakes@[k].body@.len(),
        forall|k: int, j: int|
            0 <= k < board.snakes@.len() && 0 <= j < board.snakes@[k].body@.len() ==> on_grid(
                #[trigger] board.snakes@[k].body@[j].x as int,
                board.snakes@[k].body@[j].y as int,
                board.width as int,
                board.height as int,
            ),
        wire_sum_lens(board.snakes@) + board.food@.len() <= 1000000,
        forall|a: int, b: int, c: int|
            0 <= a < b && b < c && c < board.snakes@.len() && #[trigger] friendly(
                board.snakes@,
                game_info.agent_ids@,
                a,
            ) && #[trigger] friendly(board.snakes@, game_info.agent_ids@, b) && #[trigger] friendly(
                board.snakes@,
                game_info.agent_ids@,
                c,
            ) ==> false,
        forall|a: int, b: int, c: int|
            0 <= a < b && b < c && c < board.snakes@.len() && #[trigger] hostile(
                board.snakes@,
                game_info.agent_ids@,
                a,
            ) && #[trigger] hostile(board.snakes@, game_info.agent_ids@, b) && #[trigger] hostile(
                board.snakes@,
                game_info.agent_ids@,
                c,
            ) ==> false,
    ensures
        exists|bm: BoardModel, k: int|
            from_rel(
                board.snakes@,
                game_info.agent_ids@,
                board.width as int,
                board.height as int,
                board.food@,
                bm,
            ) && 0 <= k < spec_simulate(bm, true).len() && r@[0].id as int == side_slot(bm, true, 0)
                && r@[1].id as int == side_slot(bm, true, 1) && r@[0].mv == (
            #[trigger] spec_simulate(bm, true)[k]).0.0 && r@[1].mv == spec_simulate(bm, true)[k].0.1,
{
    let start = clock_now();
    let sb = SimpleBoard::from(board, game_info);
    let ghost bm = sb@;
    proof {
        assert(side_ready(bm, true)) by {
            assert forall|w: int|
                0 <= w < 2 && live(bm, #[trigger] side_slot(bm, true, w)) implies {
                let s = snake_at(bm, side_slot(bm, true, w));
                s.body.len() >= 2 && s.health >= 0 && on_grid(
                    s.body[0].x as int,
                    s.body[0].y as int,
                    bm.width,
                    bm.height,
                )
            } by {
                let i = side_slot(bm, true, w);
                assert(0 <= i < 4);
                if i < board.snakes@.len() {
                    assert(bm.snakes[i] == Some(crate::simple::wire_snake_model(
                        board.snakes@[i],
                    )));
                }
            }
        }
    }
    let timeout_ns: u64 = (game_info.timeout as u64) * 1000000;
    let mut sims = sb.simulate_move(true);
    let ghost sims0 = sims@;
    let total_e: usize = sims.len();
    let mut best_move: [SnakeMove; 2] = sims[0].0;
    let ghost mut best_k: int = 0;
    let mut best_value: i32 = i32::MIN;
    let mut first = true;
    let mut k: usize = 0;
    while sims.len() > 0
        invariant
            sims0.len() >= 1,
            total_e as int == sims0.len(),
            k <= total_e,
            k as int + sims@.len() == sims0.len(),
            forall|q: int| 0 <= q < sims@.len() ==> sims@[q] == sims0[k + q],
            forall|q: int| 0 <= q < sims0.len() ==> board_wf((#[trigger] sims0[q]).1@),
            sims0.len() == spec_simulate(bm, true).len(),
            forall|q: int|
                0 <= q < sims0.len() ==> (#[trigger] sims0[q]).0@[0].id as int == side_slot(
                    bm,
                    true,
                    0,
                ) && sims0[q].0@[1].id as int == side_slot(bm, true, 1) && sims0[q].0@[0].mv
                    == spec_simulate(bm, true)[q].0.0 && sims0[q].0@[1].mv == spec_simulate(
                    bm,
                    true,
                )[q].0.1,
            0 <= best_k < sims0.len(),
            best_move == sims0[best_k].0,
        decreases sims@.len(),
    {
        let elapsed = nanos_since(&start);
        if elapsed >= timeout_ns {
            break ;
        }
        let time_left = timeout_ns - elapsed;
        let share = time_left / (sims.len() as u64);
        let (mv, mut child) = sims.remove(0);
        proof {
            assert(mv == sims0[k as int].0);
        }
        let value = minmax(&mut child, 1, false, best_value, i32::MAX, share);
        if first || value > best_value {
            best_value = value;
            best_move = mv;
            proof {
                best_k = k as int;
            }
        }
        first = false;
        k += 1;
    }
    proof {
        assert(from_rel(
            board.snakes@,
            game_info.agent_ids@,
            board.width as int,
            board.height as int,
            board.food@,
            bm,
        ));
        assert(0 <= best_k < spec_simulate(bm, true).len());
        assert(best_move@[0].id as int == side_slot(bm, true, 0));
        assert(best_move@[0].mv == spec_simulate(bm, true)[best_k].0.0);
    }
    best_move
}

} // verus!
