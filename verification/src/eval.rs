//! The mathematical model of the computer opponent: the static
//! evaluation, depth-limited minimax with alpha-beta pruning, and the
//! choice of the best root move.

use vstd::prelude::*;

use crate::board::Pos;
use crate::model::{movable_of, spec_poss_moves, Grid};
use crate::rules::{spec_do_move, spec_finish};

verus! {

/// Mobility counters saturate here, far above anything a real position
/// can produce, so that the score always fits its machine word.
pub open spec fn mob_cap() -> int {
    8000
}

pub open spec fn cap_add(a: int, n: int) -> int {
    if a + n <= mob_cap() {
        a + n
    } else {
        mob_cap()
    }
}

/// The number of cells holding exactly `v`, scanned from `(i, j)`.
pub open spec fn count_val_from(g: Grid, v: i32, i: int, j: int) -> int
    decreases 8 - i, 8 - j when 0 <= i && 0 <= j <= 8
{
    if i >= 8 {
        0
    } else if j >= 8 {
        count_val_from(g, v, i + 1, 0)
    } else {
        (if g[i][j] == v {
            1int
        } else {
            0int
        }) + count_val_from(g, v, i, j + 1)
    }
}

pub open spec fn count_val(g: Grid, v: i32) -> int {
    count_val_from(g, v, 0, 0)
}

pub proof fn lemma_count_val_range(g: Grid, v: i32, i: int, j: int)
    requires
        0 <= i <= 8,
        0 <= j <= 8,
        8 * i + j <= 64,
    ensures
        0 <= count_val_from(g, v, i, j) <= 64 - (8 * i + j),
    decreases 8 - i, 8 - j,
{
    if i >= 8 {
    } else if j >= 8 {
        lemma_count_val_range(g, v, i + 1, 0);
    } else {
        lemma_count_val_range(g, v, i, j + 1);
    }
}

/// The number of capturing moves in a candidate list, from `k` on.
pub open spec fn count_caps(ms: Seq<Pos>, k: int) -> int
    decreases ms.len() - k when 0 <= k <= ms.len()
{
    if k >= ms.len() {
        0
    } else {
        (if ms[k].piece is Some {
            1int
        } else {
            0int
        }) + count_caps(ms, k + 1)
    }
}

pub proof fn lemma_count_caps_range(ms: Seq<Pos>, k: int)
    requires
        0 <= k <= ms.len(),
    ensures
        0 <= count_caps(ms, k) <= ms.len() - k,
    decreases ms.len() - k,
{
    if k < ms.len() {
        lemma_count_caps_range(ms, k + 1);
    }
}

/// The saturating tallies of destination moves and of captures among
/// them, over the movable pieces of one side from entry `k` on.
pub open spec fn tally_from(g: Grid, ps: Seq<Pos>, k: int, mc: int, tc: int) -> (int, int)
    decreases ps.len() - k when 0 <= k <= ps.len()
{
    if k >= ps.len() {
        (mc, tc)
    } else {
        let ms = spec_poss_moves(g, ps[k].x as int, ps[k].y as int);
        tally_from(g, ps, k + 1, cap_add(mc, ms.len() as int), cap_add(tc, count_caps(ms, 0)))
    }
}

pub open spec fn spec_mobility(g: Grid, s: int) -> (int, int) {
    tally_from(g, movable_of(g, s), 0, 0, 0)
}

pub proof fn lemma_tally_range(g: Grid, ps: Seq<Pos>, k: int, mc: int, tc: int)
    requires
        0 <= k <= ps.len(),
        0 <= mc <= mob_cap(),
        0 <= tc <= mob_cap(),
    ensures
        0 <= tally_from(g, ps, k, mc, tc).0 <= mob_cap(),
        0 <= tally_from(g, ps, k, mc, tc).1 <= mob_cap(),
        tally_from(g, ps, k, mc, tc).0 >= mc,
        tally_from(g, ps, k, mc, tc).1 >= tc,
    decreases ps.len() - k,
{
    if k < ps.len() {
        let ms = spec_poss_moves(g, ps[k].x as int, ps[k].y as int);
        lemma_count_caps_range(ms, 0);
        lemma_tally_range(g, ps, k + 1, cap_add(mc, ms.len() as int), cap_add(tc, count_caps(ms, 0)));
    }
}

/// The static evaluation: king, capture-threat, mobility and man
/// differences, weighted 1000, 100, 10 and 1; positive favours the
/// minus side.
pub open spec fn spec_heur(g: Grid) -> int {
    let op_kings = count_val(g, -2i32);
    let op_men = count_val(g, -1i32);
    let my_kings = count_val(g, 2i32);
    let my_men = count_val(g, 1i32);
    let op_mob = spec_mobility(g, -1);
    let my_mob = spec_mobility(g, 1);
    1000 * (op_kings - my_kings) + 100 * (op_mob.1 - my_mob.1) + 10 * (op_mob.0 - my_mob.0) + (
    op_men - my_men)
}

/// A bound on every score the evaluation can produce; strictly inside
/// the sentinels used for unbeatably bad and good values.
pub open spec fn heur_bound() -> int {
    944064
}

pub proof fn lemma_heur_range(g: Grid)
    ensures
        -heur_bound() <= spec_heur(g) <= heur_bound(),
{
    lemma_count_val_range(g, -2i32, 0, 0);
    lemma_count_val_range(g, -1i32, 0, 0);
    lemma_count_val_range(g, 2i32, 0, 0);
    lemma_count_val_range(g, 1i32, 0, 0);
    lemma_tally_range(g, movable_of(g, -1), 0, 0, 0);
    lemma_tally_range(g, movable_of(g, 1), 0, 0, 0);
}

/// The board a candidate move leads to.
pub open spec fn child_grid(g: Grid, player: int, px: int, py: int, nx: int, ny: int) -> Grid {
    spec_do_move(g, player, px, py, nx, ny).0
}

pub proof fn lemma_pieces_len(g: Grid, i: int, j: int, s: int)
    requires
        0 <= i <= 8,
        0 <= j <= 8,
        8 * i + j <= 64,
    ensures
        crate::model::pieces_from(g, i, j, s).len() <= 64 - (8 * i + j),
    decreases 8 - i, 8 - j,
{
    if i >= 8 {
    } else if j >= 8 {
        lemma_pieces_len(g, i + 1, 0, s);
    } else {
        lemma_pieces_len(g, i, j + 1, s);
    }
}

pub proof fn lemma_movable_len(g: Grid, s: int)
    ensures
        movable_of(g, s).len() <= 64,
{
    lemma_pieces_len(g, 0, 0, s);
    crate::model::lemma_movable_from_wf(g, crate::model::pieces_of(g, s), 0);
}

/// Depth-limited minimax with alpha-beta pruning: terminal positions
/// and depth zero evaluate statically; otherwise the side to move's
/// pieces and their candidate moves are folded in order, a maximizing
/// node raising alpha and a minimizing node lowering beta, a piece's
/// remaining moves being skipped once beta is no more than alpha.
pub open spec fn spec_minimax(g: Grid, player: int, depth: int, is_max: bool, alpha: int, beta: int) -> int
    decreases depth, 66int, 0int, 0int
        via spec_minimax_dec
{
    if spec_finish(g).0 || depth <= 0 {
        spec_heur(g)
    } else {
        let ps = movable_of(g, player);
        if is_max {
            mm_pieces_max(g, player, ps, 0, depth, alpha, beta, -999999)
        } else {
            mm_pieces_min(g, player, ps, 0, depth, alpha, beta, 999999)
        }
    }
}

#[via_fn]
proof fn spec_minimax_dec(g: Grid, player: int, depth: int, is_max: bool, alpha: int, beta: int) {
    lemma_movable_len(g, player);
}

pub open spec fn mm_pieces_max(g: Grid, player: int, ps: Seq<Pos>, i: int, depth: int, alpha: int, beta: int, best: int) -> int
    decreases depth, ps.len() - i, 1int, 0int
        when 0 <= i <= ps.len() && depth >= 1
{
    if i >= ps.len() {
        best
    } else {
        let ms = spec_poss_moves(g, ps[i].x as int, ps[i].y as int);
        let r = mm_moves_max(g, player, ps[i].x as int, ps[i].y as int, ms, 0, depth, alpha, beta, best);
        mm_pieces_max(g, player, ps, i + 1, depth, r.1, beta, r.0)
    }
}

pub open spec fn mm_moves_max(g: Grid, player: int, px: int, py: int, ms: Seq<Pos>, j: int, depth: int, alpha: int, beta: int, best: int) -> (int, int)
    decreases depth, 0int, 0int, ms.len() - j
        when 0 <= j <= ms.len() && depth >= 1
{
    if j >= ms.len() {
        (best, alpha)
    } else {
        let r = spec_minimax(
            child_grid(g, player, px, py, ms[j].x as int, ms[j].y as int),
            -player,
            depth - 1,
            false,
            alpha,
            beta,
        );
        let best2 = if r > best {
            r
        } else {
            best
        };
        let alpha2 = if best2 > alpha {
            best2
        } else {
            alpha
        };
        if beta <= alpha2 {
            (best2, alpha2)
        } else {
            mm_moves_max(g, player, px, py, ms, j + 1, depth, alpha2, beta, best2)
        }
    }
}

pub open spec fn mm_pieces_min(g: Grid, player: int, ps: Seq<Pos>, i: int, depth: int, alpha: int, beta: int, best: int) -> int
    decreases depth, ps.len() - i, 1int, 0int
        when 0 <= i <= ps.len() && depth >= 1
{
    if i >= ps.len() {
        best
    } else {
        let ms = spec_poss_moves(g, ps[i].x as int, ps[i].y as int);
        let r = mm_moves_min(g, player, ps[i].x as int, ps[i].y as int, ms, 0, depth, alpha, beta, best);
        mm_pieces_min(g, player, ps, i + 1, depth, alpha, r.1, r.0)
    }
}

pub open spec fn mm_moves_min(g: Grid, player: int, px: int, py: int, ms: Seq<Pos>, j: int, depth: int, alpha: int, beta: int, best: int) -> (int, int)
    decreases depth, 0int, 0int, ms.len() - j
        when 0 <= j <= ms.len() && depth >= 1
{
    if j >= ms.len() {
        (best, beta)
    } else {
        let r = spec_minimax(
            child_grid(g, player, px, py, ms[j].x as int, ms[j].y as int),
            -player,
            depth - 1,
            true,
            alpha,
            beta,
        );
        let best2 = if r < best {
            r
        } else {
            best
        };
        let beta2 = if best2 < beta {
            best2
        } else {
            beta
        };
        if beta2 <= alpha {
            (best2, beta2)
        } else {
            mm_moves_min(g, player, px, py, ms, j + 1, depth, alpha, beta2, best2)
        }
    }
}

/// The score of one root move: the position it leads to, searched to
/// the fixed depth with a full window, the opponent minimizing first.
pub open spec fn spec_move_score(g: Grid, player: int, px: int, py: int, nx: int, ny: int) -> int {
    spec_minimax(child_grid(g, player, px, py, nx, ny), -player, 9, false, -999999, 999999)
}

/// The fold that keeps the strictly best root move, first found wins
/// ties, over one piece's candidate moves.
pub open spec fn spec_ult_moves(g: Grid, player: int, p: Pos, ms: Seq<Pos>, j: int, bs: int, bp: Pos, bn: Pos) -> (int, Pos, Pos)
    decreases ms.len() - j when 0 <= j <= ms.len()
{
    if j >= ms.len() {
        (bs, bp, bn)
    } else {
        let sc = spec_move_score(g, player, p.x as int, p.y as int, ms[j].x as int, ms[j].y as int);
        if sc > bs {
            spec_ult_moves(g, player, p, ms, j + 1, sc, p, ms[j])
        } else {
            spec_ult_moves(g, player, p, ms, j + 1, bs, bp, bn)
        }
    }
}

pub open spec fn spec_ult_pieces(g: Grid, player: int, ps: Seq<Pos>, i: int, bs: int, bp: Pos, bn: Pos) -> (int, Pos, Pos)
    decreases ps.len() - i when 0 <= i <= ps.len()
{
    if i >= ps.len() {
        (bs, bp, bn)
    } else {
        let ms = spec_poss_moves(g, ps[i].x as int, ps[i].y as int);
        let r = spec_ult_moves(g, player, ps[i], ms, 0, bs, bp, bn);
        spec_ult_pieces(g, player, ps, i + 1, r.0, r.1, r.2)
    }
}

/// The move the search chooses for the side to move.
pub open spec fn spec_ultimate(g: Grid, player: int) -> (int, Pos, Pos) {
    spec_ult_pieces(
        g,
        player,
        movable_of(g, player),
        0,
        -999999,
        Pos { x: 0, y: 0, piece: None },
        Pos { x: 0, y: 0, piece: None },
    )
}

} // verus!
