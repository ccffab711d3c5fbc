//! Alpha-beta pruning changes nothing: the pruned search of `eval`
//! equals a plain full minimax over the same tree when started with
//! the full window.

use vstd::prelude::*;

use crate::board::Pos;
use crate::eval::{
    child_grid, heur_bound, lemma_heur_range, lemma_movable_len, mm_moves_max, mm_moves_min,
    mm_pieces_max, mm_pieces_min, spec_heur, spec_minimax,
};
use crate::model::{lemma_movable_from_wf, lemma_pieces_from_wf, movable_of, pieces_of,
    spec_poss_moves, Grid};
use crate::rules::spec_finish;

verus! {

/// Plain depth-limited minimax without any pruning.
pub open spec fn spec_minimax_full(g: Grid, player: int, depth: int, is_max: bool) -> int
    decreases depth, 66int, 0int, 0int
        via spec_minimax_full_dec
{
    if spec_finish(g).0 || depth <= 0 {
        spec_heur(g)
    } else {
        let ps = movable_of(g, player);
        if is_max {
            fp_max(g, player, ps, 0, depth, -999999)
        } else {
            fp_min(g, player, ps, 0, depth, 999999)
        }
    }
}

#[via_fn]
proof fn spec_minimax_full_dec(g: Grid, player: int, depth: int, is_max: bool) {
    lemma_movable_len(g, player);
}

pub open spec fn fp_max(g: Grid, player: int, ps: Seq<Pos>, i: int, depth: int, best: int) -> int
    decreases depth, ps.len() - i, 1int, 0int
        when 0 <= i <= ps.len() && depth >= 1
{
    if i >= ps.len() {
        best
    } else {
        let ms = spec_poss_moves(g, ps[i].x as int, ps[i].y as int);
        fp_max(g, player, ps, i + 1, depth, fm_max(g, player, ps[i].x as int, ps[i].y as int, ms, 0, depth, best))
    }
}

pub open spec fn fm_max(g: Grid, player: int, px: int, py: int, ms: Seq<Pos>, j: int, depth: int, best: int) -> int
    decreases depth, 0int, 0int, ms.len() - j
        when 0 <= j <= ms.len() && depth >= 1
{
    if j >= ms.len() {
        best
    } else {
        let r = spec_minimax_full(
            child_grid(g, player, px, py, ms[j].x as int, ms[j].y as int),
            -player,
            depth - 1,
            false,
        );
        fm_max(g, player, px, py, ms, j + 1, depth, if r > best {
            r
        } else {
            best
        })
    }
}

pub open spec fn fp_min(g: Grid, player: int, ps: Seq<Pos>, i: int, depth: int, best: int) -> int
    decreases depth, ps.len() - i, 1int, 0int
        when 0 <= i <= ps.len() && depth >= 1
{
    if i >= ps.len() {
        best
    } else {
        let ms = spec_poss_moves(g, ps[i].x as int, ps[i].y as int);
        fp_min(g, player, ps, i + 1, depth, fm_min(g, player, ps[i].x as int, ps[i].y as int, ms, 0, depth, best))
    }
}

pub open spec fn fm_min(g: Grid, player: int, px: int, py: int, ms: Seq<Pos>, j: int, depth: int, best: int) -> int
    decreases depth, 0int, 0int, ms.len() - j
        when 0 <= j <= ms.len() && depth >= 1
{
    if j >= ms.len() {
        best
    } else {
        let r = spec_minimax_full(
            child_grid(g, player, px, py, ms[j].x as int, ms[j].y as int),
            -player,
            depth - 1,
            true,
        );
        fm_min(g, player, px, py, ms, j + 1, depth, if r < best {
            r
        } else {
            best
        })
    }
}

proof fn lemma_fm_max_mono(g: Grid, player: int, px: int, py: int, ms: Seq<Pos>, j: int, depth: int, best: int)
    requires
        0 <= j <= ms.len(),
        depth >= 1,
    ensures
        fm_max(g, player, px, py, ms, j, depth, best) >= best,
    decreases ms.len() - j,
{
    if j < ms.len() {
        let r = spec_minimax_full(
            child_grid(g, player, px, py, ms[j].x as int, ms[j].y as int),
            -player,
            depth - 1,
            false,
        );
        lemma_fm_max_mono(g, player, px, py, ms, j + 1, depth, if r > best {
            r
        } else {
            best
        });
    }
}

proof fn lemma_fm_min_mono(g: Grid, player: int, px: int, py: int, ms: Seq<Pos>, j: int, depth: int, best: int)
    requires
        0 <= j <= ms.len(),
        depth >= 1,
    ensures
        fm_min(g, player, px, py, ms, j, depth, best) <= best,
    decreases ms.len() - j,
{
    if j < ms.len() {
        let r = spec_minimax_full(
            child_grid(g, player, px, py, ms[j].x as int, ms[j].y as int),
            -player,
            depth - 1,
            true,
        );
        lemma_fm_min_mono(g, player, px, py, ms, j + 1, depth, if r < best {
            r
        } else {
            best
        });
    }
}

/// The full value of a position stays within the reach of the static
/// evaluation, strictly inside the sentinel scores.
pub proof fn lemma_full_range(g: Grid, player: int, depth: int, is_max: bool)
    requires
        player == 1 || player == -1,
    ensures
        -heur_bound() <= spec_minimax_full(g, player, depth, is_max) <= heur_bound(),
    decreases depth, 66int, 0int, 0int,
{
    if spec_finish(g).0 || depth <= 0 {
        lemma_heur_range(g);
    } else {
        let ps = movable_of(g, player);
        lemma_movable_len(g, player);
        lemma_pieces_from_wf(g, 0, 0, player);
        lemma_movable_from_wf(g, pieces_of(g, player), 0);
        assert(ps.len() > 0);
        if is_max {
            lemma_fp_max_range(g, player, ps, 0, depth, -999999);
        } else {
            lemma_fp_min_range(g, player, ps, 0, depth, 999999);
        }
    }
}

proof fn lemma_fp_max_range(g: Grid, player: int, ps: Seq<Pos>, i: int, depth: int, best: int)
    requires
        player == 1 || player == -1,
        0 <= i <= ps.len(),
        depth >= 1,
        ps == movable_of(g, player),
        -999999 <= best <= heur_bound(),
    ensures
        best <= fp_max(g, player, ps, i, depth, best) <= heur_bound(),
        i < ps.len() ==> fp_max(g, player, ps, i, depth, best) >= -heur_bound(),
    decreases depth, ps.len() - i, 1int, 0int,
{
    if i < ps.len() {
        let ms = spec_poss_moves(g, ps[i].x as int, ps[i].y as int);
        lemma_pieces_from_wf(g, 0, 0, player);
        lemma_movable_from_wf(g, pieces_of(g, player), 0);
        assert(ms.len() > 0);
        lemma_fm_max_range(g, player, ps[i].x as int, ps[i].y as int, ms, 0, depth, best);
        let b2 = fm_max(g, player, ps[i].x as int, ps[i].y as int, ms, 0, depth, best);
        lemma_fp_max_range(g, player, ps, i + 1, depth, b2);
    }
}

proof fn lemma_fm_max_range(g: Grid, player: int, px: int, py: int, ms: Seq<Pos>, j: int, depth: int, best: int)
    requires
        player == 1 || player == -1,
        0 <= j <= ms.len(),
        depth >= 1,
        -999999 <= best <= heur_bound(),
    ensures
        best <= fm_max(g, player, px, py, ms, j, depth, best) <= heur_bound(),
        j < ms.len() ==> fm_max(g, player, px, py, ms, j, depth, best) >= -heur_bound(),
    decreases depth, 0int, 0int, ms.len() - j,
{
    if j < ms.len() {
        let r = spec_minimax_full(
            child_grid(g, player, px, py, ms[j].x as int, ms[j].y as int),
            -player,
            depth - 1,
            false,
        );
        lemma_full_range(
            child_grid(g, player, px, py, ms[j].x as int, ms[j].y as int),
            -player,
            depth - 1,
            false,
        );
        let b2: int = if r > best {
            r
        } else {
            best
        };
        lemma_fm_max_range(g, player, px, py, ms, j + 1, depth, b2);
    }
}

proof fn lemma_fp_min_range(g: Grid, player: int, ps: Seq<Pos>, i: int, depth: int, best: int)
    requires
        player == 1 || player == -1,
        0 <= i <= ps.len(),
        depth >= 1,
        ps == movable_of(g, player),
        -heur_bound() <= best <= 999999,
    ensures
        -heur_bound() <= fp_min(g, player, ps, i, depth, best) <= best,
        i < ps.len() ==> fp_min(g, player, ps, i, depth, best) <= heur_bound(),
    decreases depth, ps.len() - i, 1int, 0int,
{
    if i < ps.len() {
        let ms = spec_poss_moves(g, ps[i].x as int, ps[i].y as int);
        lemma_pieces_from_wf(g, 0, 0, player);
        lemma_movable_from_wf(g, pieces_of(g, player), 0);
        assert(ms.len() > 0);
        lemma_fm_min_range(g, player, ps[i].x as int, ps[i].y as int, ms, 0, depth, best);
        let b2 = fm_min(g, player, ps[i].x as int, ps[i].y as int, ms, 0, depth, best);
        lemma_fp_min_range(g, player, ps, i + 1, depth, b2);
    }
}

proof fn lemma_fm_min_range(g: Grid, player: int, px: int, py: int, ms: Seq<Pos>, j: int, depth: int, best: int)
    requires
        player == 1 || player == -1,
        0 <= j <= ms.len(),
        depth >= 1,
        -heur_bound() <= best <= 999999,
    ensures
        -heur_bound() <= fm_min(g, player, px, py, ms, j, depth, best) <= best,
        j < ms.len() ==> fm_min(g, player, px, py, ms, j, depth, best) <= heur_bound(),
    decreases depth, 0int, 0int, ms.len() - j,
{
    if j < ms.len() {
        let r = spec_minimax_full(
            child_grid(g, player, px, py, ms[j].x as int, ms[j].y as int),
            -player,
            depth - 1,
            true,
        );
        lemma_full_range(
            child_grid(g, player, px, py, ms[j].x as int, ms[j].y as int),
            -player,
            depth - 1,
            true,
        );
        let b2: int = if r < best {
            r
        } else {
            best
        };
        lemma_fm_min_range(g, player, px, py, ms, j + 1, depth, b2);
    }
}

/// The running state of a maximizing fold against its full companion:
/// both still below the entry alpha, or agreeing strictly inside the
/// window, or both at or above beta.
pub open spec fn inv_max(a_in: int, beta: int, best: int, fbest: int) -> bool {
    ||| (best <= a_in && fbest <= a_in)
    ||| (a_in < best < beta && best == fbest)
    ||| (best >= beta && fbest >= beta)
}

pub open spec fn inv_min(b_in: int, alpha: int, best: int, fbest: int) -> bool {
    ||| (best >= b_in && fbest >= b_in)
    ||| (alpha < best < b_in && best == fbest)
    ||| (best <= alpha && fbest <= alpha)
}

/// The bounded-window property of the pruned search: a value at or
/// below alpha or at or above beta is a correct bound, and a value
/// strictly inside the window is the full minimax value.
pub proof fn lemma_ab_node(g: Grid, player: int, depth: int, is_max: bool, alpha: int, beta: int)
    requires
        player == 1 || player == -1,
        -999999 <= alpha < beta <= 999999,
    ensures
        ({
            let a = spec_minimax(g, player, depth, is_max, alpha, beta);
            let f = spec_minimax_full(g, player, depth, is_max);
            &&& (a <= alpha ==> f <= alpha)
            &&& (a >= beta ==> f >= beta)
            &&& (alpha < a < beta ==> a == f)
        }),
    decreases depth, 66int, 0int, 0int,
{
    if spec_finish(g).0 || depth <= 0 {
    } else {
        let ps = movable_of(g, player);
        lemma_movable_len(g, player);
        if is_max {
            lemma_ab_pieces_max(g, player, ps, 0, depth, alpha, beta, alpha, -999999, -999999);
        } else {
            lemma_ab_pieces_min(g, player, ps, 0, depth, alpha, beta, beta, 999999, 999999);
        }
    }
}

proof fn lemma_ab_pieces_max(g: Grid, player: int, ps: Seq<Pos>, i: int, depth: int, alpha: int, beta: int, a_in: int, best: int, fbest: int)
    requires
        player == 1 || player == -1,
        0 <= i <= ps.len(),
        depth >= 1,
        -999999 <= a_in < beta <= 999999,
        alpha == (if best > a_in {
            best
        } else {
            a_in
        }),
        inv_max(a_in, beta, best, fbest),
    ensures
        ({
            let a = mm_pieces_max(g, player, ps, i, depth, alpha, beta, best);
            let f = fp_max(g, player, ps, i, depth, fbest);
            inv_max(a_in, beta, a, f)
        }),
    decreases depth, ps.len() - i, 1int, 0int,
{
    if i < ps.len() {
        let ms = spec_poss_moves(g, ps[i].x as int, ps[i].y as int);
        lemma_ab_moves_max(g, player, ps[i].x as int, ps[i].y as int, ms, 0, depth, alpha, beta, a_in, best, fbest);
        let r = mm_moves_max(g, player, ps[i].x as int, ps[i].y as int, ms, 0, depth, alpha, beta, best);
        let f2 = fm_max(g, player, ps[i].x as int, ps[i].y as int, ms, 0, depth, fbest);
        lemma_ab_pieces_max(g, player, ps, i + 1, depth, r.1, beta, a_in, r.0, f2);
    }
}

proof fn lemma_ab_moves_max(g: Grid, player: int, px: int, py: int, ms: Seq<Pos>, j: int, depth: int, alpha: int, beta: int, a_in: int, best: int, fbest: int)
    requires
        player == 1 || player == -1,
        0 <= j <= ms.len(),
        depth >= 1,
        -999999 <= a_in < beta <= 999999,
        alpha == (if best > a_in {
            best
        } else {
            a_in
        }),
        inv_max(a_in, beta, best, fbest),
    ensures
        ({
            let r = mm_moves_max(g, player, px, py, ms, j, depth, alpha, beta, best);
            let f = fm_max(g, player, px, py, ms, j, depth, fbest);
            &&& inv_max(a_in, beta, r.0, f)
            &&& r.1 == (if r.0 > a_in {
                r.0
            } else {
                a_in
            })
            &&& r.0 >= best
        }),
    decreases depth, 0int, 0int, ms.len() - j,
{
    if j >= ms.len() {
    } else {
        let cg = child_grid(g, player, px, py, ms[j].x as int, ms[j].y as int);
        let r = spec_minimax(cg, -player, depth - 1, false, alpha, beta);
        let fr = spec_minimax_full(cg, -player, depth - 1, false);
        let best2: int = if r > best {
            r
        } else {
            best
        };
        let alpha2: int = if best2 > alpha {
            best2
        } else {
            alpha
        };
        let fbest2: int = if fr > fbest {
            fr
        } else {
            fbest
        };
        if best >= beta {
            // the window is already shut: the pruned fold stops after
            // this one entry, and both folds stay at or above beta
            lemma_fm_max_mono(g, player, px, py, ms, j + 1, depth, fbest2);
            assert(beta <= alpha2);
            assert(mm_moves_max(g, player, px, py, ms, j, depth, alpha, beta, best) == (
            best2,
            alpha2,
            ));
        } else {
            assert(alpha < beta);
            lemma_ab_node(cg, -player, depth - 1, false, alpha, beta);
            if r >= beta {
                // fail high: both folds reach beta and the pruned one stops
                lemma_fm_max_mono(g, player, px, py, ms, j + 1, depth, fbest2);
                assert(fr >= beta);
                assert(mm_moves_max(g, player, px, py, ms, j, depth, alpha, beta, best) == (
                best2,
                alpha2,
                ));
            } else {
                assert(inv_max(a_in, beta, best2, fbest2));
                assert(alpha2 == (if best2 > a_in {
                    best2
                } else {
                    a_in
                }));
                lemma_ab_moves_max(g, player, px, py, ms, j + 1, depth, alpha2, beta, a_in, best2, fbest2);
            }
        }
    }
}

proof fn lemma_ab_pieces_min(g: Grid, player: int, ps: Seq<Pos>, i: int, depth: int, alpha: int, beta: int, b_in: int, best: int, fbest: int)
    requires
        player == 1 || player == -1,
        0 <= i <= ps.len(),
        depth >= 1,
        -999999 <= alpha < b_in <= 999999,
        beta == (if best < b_in {
            best
        } else {
            b_in
        }),
        inv_min(b_in, alpha, best, fbest),
    ensures
        ({
            let a = mm_pieces_min(g, player, ps, i, depth, alpha, beta, best);
            let f = fp_min(g, player, ps, i, depth, fbest);
            inv_min(b_in, alpha, a, f)
        }),
    decreases depth, ps.len() - i, 1int, 0int,
{
    if i < ps.len() {
        let ms = spec_poss_moves(g, ps[i].x as int, ps[i].y as int);
        lemma_ab_moves_min(g, player, ps[i].x as int, ps[i].y as int, ms, 0, depth, alpha, beta, b_in, best, fbest);
        let r = mm_moves_min(g, player, ps[i].x as int, ps[i].y as int, ms, 0, depth, alpha, beta, best);
        let f2 = fm_min(g, player, ps[i].x as int, ps[i].y as int, ms, 0, depth, fbest);
        lemma_ab_pieces_min(g, player, ps, i + 1, depth, alpha, r.1, b_in, r.0, f2);
    }
}

proof fn lemma_ab_moves_min(g: Grid, player: int, px: int, py: int, ms: Seq<Pos>, j: int, depth: int, alpha: int, beta: int, b_in: int, best: int, fbest: int)
    requires
        player == 1 || player == -1,
        0 <= j <= ms.len(),
        depth >= 1,
        -999999 <= alpha < b_in <= 999999,
        beta == (if best < b_in {
            best
        } else {
            b_in
        }),
        inv_min(b_in, alpha, best, fbest),
    ensures
        ({
            let r = mm_moves_min(g, player, px, py, ms, j, depth, alpha, beta, best);
            let f = fm_min(g, player, px, py, ms, j, depth, fbest);
            &&& inv_min(b_in, alpha, r.0, f)
            &&& r.1 == (if r.0 < b_in {
                r.0
            } else {
                b_in
            })
            &&& r.0 <= best
        }),
    decreases depth, 0int, 0int, ms.len() - j,
{
    if j >= ms.len() {
    } else {
        let cg = child_grid(g, player, px, py, ms[j].x as int, ms[j].y as int);
        let r = spec_minimax(cg, -player, depth - 1, true, alpha, beta);
        let fr = spec_minimax_full(cg, -player, depth - 1, true);
        let best2: int = if r < best {
            r
        } else {
            best
        };
        let beta2: int = if best2 < beta {
            best2
        } else {
            beta
        };
        let fbest2: int = if fr < fbest {
            fr
        } else {
            fbest
        };
        if best <= alpha {
            lemma_fm_min_mono(g, player, px, py, ms, j + 1, depth, fbest2);
            assert(beta2 <= alpha);
            assert(mm_moves_min(g, player, px, py, ms, j, depth, alpha, beta, best) == (
            best2,
            beta2,
            ));
        } else {
            assert(alpha < beta);
            lemma_ab_node(cg, -player, depth - 1, true, alpha, beta);
            if r <= alpha {
                lemma_fm_min_mono(g, player, px, py, ms, j + 1, depth, fbest2);
                assert(fr <= alpha);
                assert(mm_moves_min(g, player, px, py, ms, j, depth, alpha, beta, best) == (
                best2,
                beta2,
                ));
            } else {
                assert(inv_min(b_in, alpha, best2, fbest2));
                assert(beta2 == (if best2 < b_in {
                    best2
                } else {
                    b_in
                }));
                lemma_ab_moves_min(g, player, px, py, ms, j + 1, depth, alpha, beta2, b_in, best2, fbest2);
            }
        }
    }
}

/// Alpha-beta equivalence: with the full window the pruned search
/// returns exactly the full minimax value of the same tree.
pub proof fn lemma_alphabeta_equiv(g: Grid, player: int, depth: int, is_max: bool)
    requires
        player == 1 || player == -1,
    ensures
        spec_minimax(g, player, depth, is_max, -999999, 999999) == spec_minimax_full(
            g,
            player,
            depth,
            is_max,
        ),
{
    if spec_finish(g).0 || depth <= 0 {
    } else {
        lemma_ab_node(g, player, depth, is_max, -999999, 999999);
        lemma_full_range(g, player, depth, is_max);
        let a = spec_minimax(g, player, depth, is_max, -999999, 999999);
        let f = spec_minimax_full(g, player, depth, is_max);
        if a <= -999999 {
            assert(f <= -999999);
        } else if a >= 999999 {
            assert(f >= 999999);
        }
    }
}

} // verus!
