//! The general laws of the engine, stated over the mathematical model
//! and proved once for every input.

use vstd::prelude::*;

use crate::board::{Board, ScoreEntry};
use crate::eval::{child_grid, spec_minimax, spec_ultimate};
use crate::model::{
    can_jump, can_jump_h, cell, gv, has_capture, in_bounds, is_king, lemma_moves_shape,
    lemma_poss_moves_shape, movable_of, promoted, side_of, spec_poss_moves, Grid,
};
use crate::rules::{
    do_move_when, lemma_do_move_props, lemma_do_move_step, lemma_grid_set, lemma_scan_props,
    spec_do_move, spec_finish, spec_scan, step_grid,
};
use crate::search::score_entry_ok;

verus! {

/// Move-generation completeness: a piece with a jump available is
/// offered captures only, and the list is then nonempty — a plain step
/// never stands beside a jump.
pub proof fn lemma_jumps_dominate(g: Grid, x: int, y: int)
    requires
        in_bounds(x, y),
    ensures
        has_capture(spec_poss_moves(g, x, y)) <==> can_jump(g, side_of(cell(g, x, y)), x, y),
        can_jump(g, side_of(cell(g, x, y)), x, y) ==> spec_poss_moves(g, x, y).len() > 0 && (forall|
            k: int,
        |
            0 <= k < spec_poss_moves(g, x, y).len() ==> (#[trigger] spec_poss_moves(g, x, y)[k]).piece
                is Some),
{
    let s = side_of(cell(g, x, y));
    let h = Seq::<(usize, usize)>::empty();
    lemma_poss_moves_shape(g, x, y);
    lemma_moves_shape(g, s, x, y, h, true);
    assert(can_jump_h(g, s, x, y, h) == can_jump(g, s, x, y));
}

/// Chain-capture soundness: a turn that captured never ends while a
/// further capture is available to the moving piece from the square it
/// finally stands on.
pub proof fn lemma_chain_capture_sound(g: Grid, player: int, px: int, py: int, nx: int, ny: int)
    requires
        do_move_when(g, player, px, py, nx, ny),
    ensures
        ({
            let r = spec_do_move(g, player, px, py, nx, ny);
            r.2 ==> !has_capture(spec_poss_moves(r.0, r.1.0, r.1.1))
        }),
{
    lemma_do_move_props(g, player, px, py, nx, ny);
}

/// Promotion: a man written to its far rank becomes a king, and the
/// promotion map never turns a king into anything else.
pub proof fn lemma_promotion(v: i32, row: int)
    ensures
        row == 0 && v == 1 ==> promoted(v, row) == 2,
        row == 7 && v == -1 ==> promoted(v, row) == -2i32,
        is_king(v) ==> promoted(v, row) == v,
{
}

/// One validated move changes the board only by emptying squares and
/// by writing the promoted mover to the destination: every other cell
/// keeps its value.  With `lemma_promotion` this says no king is ever
/// demoted by a move: a cell either keeps its value, is emptied, or is
/// the destination holding the (never-demoted) mover.
pub proof fn lemma_step_cells(g: Grid, player: int, px: int, py: int, nx: int, ny: int, i: int)
    requires
        do_move_when(g, player, px, py, nx, ny),
        0 <= i < spec_poss_moves(g, px, py).len(),
        spec_poss_moves(g, px, py)[i].x as int == nx,
        spec_poss_moves(g, px, py)[i].y as int == ny,
    ensures
        ({
            let m = spec_poss_moves(g, px, py)[i];
            let g4 = step_grid(g, player, px, py, m.piece, nx, ny);
            &&& cell(g4, nx, ny) == promoted(cell(g, px, py), nx)
            &&& forall|a: int, b: int|
                in_bounds(a, b) && !(a == nx && b == ny) ==> cell(g4, a, b) == cell(g, a, b) || cell(
                    g4,
                    a,
                    b,
                ) == 0
        }),
{
    let ms = spec_poss_moves(g, px, py);
    let m = ms[i];
    lemma_do_move_step(g, player, px, py, nx, ny, i);
    lemma_poss_moves_shape(g, px, py);
    let g1 = match m.piece {
        Some(p) => crate::model::grid_set(g, p.x as int, p.y as int, 0),
        None => g,
    };
    if m.piece is Some {
        let p = m.piece->0;
        lemma_grid_set(g, p.x as int, p.y as int, 0);
    }
    let g2 = spec_scan(g1, player, px, py);
    lemma_scan_props(g1, player, px, py);
    crate::rules::lemma_scan_cells(g1, player, px, py);
    assert(cell(g2, px, py) == cell(g, px, py));
    let v3 = promoted(cell(g2, px, py), nx);
    let g3 = crate::model::grid_set(g2, nx, ny, v3);
    lemma_grid_set(g2, nx, ny, v3);
    let g4 = crate::model::grid_set(g3, px, py, 0);
    lemma_grid_set(g3, px, py, 0);
    assert(cell(g, px, py) != 0 && cell(g, nx, ny) == 0);
    assert(cell(g4, nx, ny) == v3);
}

/// A plain (non-capturing) legal move is a single step: the moving
/// piece stands promoted on the destination when the turn ends there.
pub proof fn lemma_promotion_on_move(g: Grid, player: int, px: int, py: int, nx: int, ny: int)
    requires
        do_move_when(g, player, px, py, nx, ny),
        ({
            let ms = spec_poss_moves(g, px, py);
            crate::model::find_move(ms, nx, ny) matches Some(i) && ms[i].piece is None
        }),
    ensures
        ({
            let r = spec_do_move(g, player, px, py, nx, ny);
            &&& r.1 == (nx, ny)
            &&& !r.2
            &&& cell(r.0, nx, ny) == promoted(cell(g, px, py), nx)
        }),
{
    let ms = spec_poss_moves(g, px, py);
    crate::model::lemma_find_in_range(ms, 0, nx, ny);
    let i = crate::model::find_move(ms, nx, ny)->0;
    lemma_step_cells(g, player, px, py, nx, ny, i);
}

/// Termination: the side with no movable piece has lost, the other
/// side wins, and a game with movable pieces on both sides goes on.
pub proof fn lemma_termination(g: Grid)
    ensures
        movable_of(g, 1).len() == 0 ==> spec_finish(g) == (true, -1i32),
        movable_of(g, 1).len() > 0 && movable_of(g, -1).len() == 0 ==> spec_finish(g) == (
        true,
        1i32,
        ),
        movable_of(g, 1).len() > 0 && movable_of(g, -1).len() > 0 ==> spec_finish(g) == (
        false,
        0i32,
        ),
{
}

/// Search determinism: two boards holding the same grid and the same
/// side to move are assigned the same move by the search, whatever
/// their caches or piece-list bookkeeping hold.  Together with the
/// contract of `ultimate_move` — its result is exactly this value —
/// repeated calls on an identical position return the same move.
pub proof fn lemma_search_deterministic(b1: Board, b2: Board)
    requires
        b1.g() == b2.g(),
        b1.curr_player == b2.curr_player,
    ensures
        spec_ultimate(b1.g(), b1.curr_player as int) == spec_ultimate(
            b2.g(),
            b2.curr_player as int,
        ),
{
}

/// The heuristic cascade is deterministic in its first three tiers:
/// boards with equal grid and side to move are assigned the same
/// forced-capture, safety-trade and edge choices.
pub proof fn lemma_cascade_deterministic(b1: Board, b2: Board)
    requires
        b1.g() == b2.g(),
        b1.curr_player == b2.curr_player,
    ensures
        crate::heur::spec_first_prior(b1.g(), b1.curr_player as int) == crate::heur::spec_first_prior(
            b2.g(),
            b2.curr_player as int,
        ),
        crate::heur::spec_second_prior(b1.g(), b1.curr_player as int)
            == crate::heur::spec_second_prior(b2.g(), b2.curr_player as int),
        crate::heur::spec_side_prior(b1.g(), b1.curr_player as int) == crate::heur::spec_side_prior(
            b2.g(),
            b2.curr_player as int,
        ),
{
}

/// Cache correctness: a valid score entry holds exactly the value the
/// search recomputes for its position, move and parameters, so a cache
/// hit can never change a result; the contracts of `minimax` and
/// `ultimate_move` state their results over the cache-free model, so
/// an empty cache and a populated one yield the same move and score.
pub proof fn lemma_cache_transparent(e: ScoreEntry)
    requires
        score_entry_ok(e),
    ensures
        e.score as int == spec_minimax(
            child_grid(
                gv(e.state@),
                e.player as int,
                e.px as int,
                e.py as int,
                e.nx as int,
                e.ny as int,
            ),
            -(e.player as int),
            e.depth as int,
            e.is_max,
            e.alpha as int,
            e.beta as int,
        ),
{
}

} // verus!

