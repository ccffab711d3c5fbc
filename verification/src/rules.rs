//! The mathematical model of a turn: legality, the forfeit sweep, the
//! move itself with promotion, and the forced continuation of a chain.

use vstd::prelude::*;

use crate::board::Pos;
use crate::model::{
    cell, count_from, find_move, first_cap_from, grid_count, grid_set, grid_wf, has_capture,
    in_bounds, lemma_count_nonneg, lemma_count_set, lemma_find_in_range, lemma_first_cap_in_range,
    lemma_movable_from_wf, lemma_pieces_from_wf, lemma_poss_moves_shape, movable_of, pieces_of,
    promoted, side_of, spec_poss_moves, wf_mv, Grid,
};

verus! {

pub open spec fn do_move_when(g: Grid, player: int, px: int, py: int, nx: int, ny: int) -> bool {
    &&& grid_wf(g)
    &&& in_bounds(px, py)
    &&& in_bounds(nx, ny)
    &&& (player == 1 || player == -1)
}

pub proof fn lemma_grid_set(g: Grid, x: int, y: int, v: i32)
    requires
        grid_wf(g),
        in_bounds(x, y),
    ensures
        grid_wf(grid_set(g, x, y, v)),
        forall|a: int, b: int|
            in_bounds(a, b) ==> cell(grid_set(g, x, y, v), a, b) == (if a == x && b == y {
                v
            } else {
                cell(g, a, b)
            }),
{
    let g2 = grid_set(g, x, y, v);
    assert forall|i: int| 0 <= i < 8 implies (#[trigger] g2[i]).len() == 8 by {
        if i == x {
            assert(g2[i] == g[x].update(y, v));
        }
    }
}

/// The forfeit sweep over the movable pieces of the side to move, from
/// entry `k` on: the first piece standing on another square than
/// `(px, py)` that has a capture available is removed from the board.
pub open spec fn spec_scan_from(g: Grid, mv: Seq<Pos>, k: int, px: int, py: int) -> Grid
    decreases mv.len() - k when 0 <= k <= mv.len()
{
    if k >= mv.len() {
        g
    } else if !(mv[k].x as int == px && mv[k].y as int == py) && has_capture(
        spec_poss_moves(g, mv[k].x as int, mv[k].y as int),
    ) {
        grid_set(g, mv[k].x as int, mv[k].y as int, 0)
    } else {
        spec_scan_from(g, mv, k + 1, px, py)
    }
}

pub open spec fn spec_scan(g: Grid, player: int, px: int, py: int) -> Grid {
    spec_scan_from(g, movable_of(g, player), 0, px, py)
}

pub proof fn lemma_scan_from_props(g: Grid, mv: Seq<Pos>, k: int, px: int, py: int)
    requires
        grid_wf(g),
        0 <= k <= mv.len(),
        forall|k2: int|
            0 <= k2 < mv.len() ==> in_bounds((#[trigger] mv[k2]).x as int, mv[k2].y as int),
    ensures
        grid_wf(spec_scan_from(g, mv, k, px, py)),
        count_from(spec_scan_from(g, mv, k, px, py), 0, 0) <= count_from(g, 0, 0),
        forall|a: int, b: int|
            in_bounds(a, b) && (cell(g, a, b) == 0 || (a == px && b == py)) ==> cell(
                spec_scan_from(g, mv, k, px, py),
                a,
                b,
            ) == cell(g, a, b),
    decreases mv.len() - k,
{
    if k >= mv.len() {
    } else if !(mv[k].x as int == px && mv[k].y as int == py) && has_capture(
        spec_poss_moves(g, mv[k].x as int, mv[k].y as int),
    ) {
        let rx = mv[k].x as int;
        let ry = mv[k].y as int;
        lemma_grid_set(g, rx, ry, 0);
        lemma_count_set(g, rx, ry, 0, 0, 0);
        lemma_poss_moves_shape(g, rx, ry);
    } else {
        lemma_scan_from_props(g, mv, k + 1, px, py);
    }
}

pub proof fn lemma_scan_props(g: Grid, player: int, px: int, py: int)
    requires
        grid_wf(g),
    ensures
        grid_wf(spec_scan(g, player, px, py)),
        count_from(spec_scan(g, player, px, py), 0, 0) <= count_from(g, 0, 0),
        forall|a: int, b: int|
            in_bounds(a, b) && (cell(g, a, b) == 0 || (a == px && b == py)) ==> cell(
                spec_scan(g, player, px, py),
                a,
                b,
            ) == cell(g, a, b),
{
    let ps = pieces_of(g, player);
    lemma_pieces_from_wf(g, 0, 0, player);
    lemma_movable_from_wf(g, ps, 0);
    let mv = movable_of(g, player);
    assert forall|k2: int| 0 <= k2 < mv.len() implies in_bounds(
        (#[trigger] mv[k2]).x as int,
        mv[k2].y as int,
    ) by {
        assert(ps.contains(mv[k2]));
        let i = choose|i: int| 0 <= i < ps.len() && ps[i] == mv[k2];
        assert(in_bounds(ps[i].x as int, ps[i].y as int));
    }
    lemma_scan_from_props(g, mv, 0, px, py);
}

pub proof fn lemma_scan_from_cells(g: Grid, mv: Seq<Pos>, k: int, px: int, py: int)
    requires
        grid_wf(g),
        0 <= k <= mv.len(),
        forall|k2: int|
            0 <= k2 < mv.len() ==> in_bounds((#[trigger] mv[k2]).x as int, mv[k2].y as int),
    ensures
        forall|a: int, b: int|
            in_bounds(a, b) ==> cell(spec_scan_from(g, mv, k, px, py), a, b) == cell(g, a, b)
                || cell(spec_scan_from(g, mv, k, px, py), a, b) == 0,
    decreases mv.len() - k,
{
    if k >= mv.len() {
    } else if !(mv[k].x as int == px && mv[k].y as int == py) && has_capture(
        spec_poss_moves(g, mv[k].x as int, mv[k].y as int),
    ) {
        lemma_grid_set(g, mv[k].x as int, mv[k].y as int, 0);
    } else {
        lemma_scan_from_cells(g, mv, k + 1, px, py);
    }
}

/// The forfeit sweep only empties squares: every cell keeps its value
/// or becomes empty.
pub proof fn lemma_scan_cells(g: Grid, player: int, px: int, py: int)
    requires
        grid_wf(g),
    ensures
        forall|a: int, b: int|
            in_bounds(a, b) ==> cell(spec_scan(g, player, px, py), a, b) == cell(g, a, b) || cell(
                spec_scan(g, player, px, py),
                a,
                b,
            ) == 0,
{
    let ps = pieces_of(g, player);
    lemma_pieces_from_wf(g, 0, 0, player);
    lemma_movable_from_wf(g, ps, 0);
    let mv = movable_of(g, player);
    assert forall|k2: int| 0 <= k2 < mv.len() implies in_bounds(
        (#[trigger] mv[k2]).x as int,
        mv[k2].y as int,
    ) by {
        assert(ps.contains(mv[k2]));
        let i = choose|i: int| 0 <= i < ps.len() && ps[i] == mv[k2];
        assert(in_bounds(ps[i].x as int, ps[i].y as int));
    }
    lemma_scan_from_cells(g, mv, 0, px, py);
}

/// What one validated move does to the board, before any continuation:
/// the captured piece (if any) is removed, the forfeit sweep runs, the
/// mover's (possibly promoted) value is written to the destination and
/// the origin is cleared.
pub open spec fn step_grid(g: Grid, player: int, px: int, py: int, cap: Option<crate::board::Piece>, nx: int, ny: int) -> Grid {
    let g1 = match cap {
        Some(p) => grid_set(g, p.x as int, p.y as int, 0),
        None => g,
    };
    let g2 = spec_scan(g1, player, px, py);
    let g3 = grid_set(g2, nx, ny, promoted(cell(g2, px, py), nx));
    grid_set(g3, px, py, 0)
}

/// Facts about one validated move: the board stays well formed, and a
/// capture strictly lowers the number of pieces on the board.
pub proof fn lemma_do_move_step(g: Grid, player: int, px: int, py: int, nx: int, ny: int, i: int)
    requires
        do_move_when(g, player, px, py, nx, ny),
        0 <= i < spec_poss_moves(g, px, py).len(),
        spec_poss_moves(g, px, py)[i].x as int == nx,
        spec_poss_moves(g, px, py)[i].y as int == ny,
    ensures
        ({
            let m = spec_poss_moves(g, px, py)[i];
            let g4 = step_grid(g, player, px, py, m.piece, nx, ny);
            &&& grid_wf(g4)
            &&& cell(g, px, py) != 0
            &&& 0 <= grid_count(g4)
            &&& grid_count(g4) <= grid_count(g)
            &&& (m.piece is Some ==> grid_count(g4) < grid_count(g))
        }),
{
    let ms = spec_poss_moves(g, px, py);
    let m = ms[i];
    lemma_poss_moves_shape(g, px, py);
    assert(wf_mv(g, side_of(cell(g, px, py)), m));
    assert(cell(g, nx, ny) == 0);
    let g1 = match m.piece {
        Some(p) => grid_set(g, p.x as int, p.y as int, 0),
        None => g,
    };
    if m.piece is Some {
        let p = m.piece->0;
        lemma_grid_set(g, p.x as int, p.y as int, 0);
        lemma_count_set(g, p.x as int, p.y as int, 0, 0, 0);
        assert(cell(g, p.x as int, p.y as int) != 0);
        assert(count_from(g1, 0, 0) == count_from(g, 0, 0) - 1);
        // the captured square holds the other side, the origin the mover
        assert(cell(g1, px, py) == cell(g, px, py));
        assert(cell(g1, nx, ny) == 0);
    }
    let g2 = spec_scan(g1, player, px, py);
    lemma_scan_props(g1, player, px, py);
    assert(cell(g2, px, py) == cell(g, px, py));
    assert(cell(g2, nx, ny) == 0);
    let mval = cell(g2, px, py);
    let v3 = promoted(mval, nx);
    assert(v3 != 0);
    let g3 = grid_set(g2, nx, ny, v3);
    lemma_grid_set(g2, nx, ny, v3);
    lemma_count_set(g2, nx, ny, v3, 0, 0);
    assert(count_from(g3, 0, 0) == count_from(g2, 0, 0) + 1);
    assert(cell(g3, px, py) == mval) by {
        assert(!(px == nx && py == ny));
    }
    let g4 = grid_set(g3, px, py, 0);
    lemma_grid_set(g3, px, py, 0);
    lemma_count_set(g3, px, py, 0, 0, 0);
    assert(count_from(g4, 0, 0) == count_from(g2, 0, 0));
    lemma_count_nonneg(g4, 0, 0);
}

/// What a whole turn (one call on a legal or illegal move, with every
/// forced continuation applied) does to the grid; also the square the
/// moving piece finally stands on and whether anything was captured.
pub open spec fn spec_do_move(g: Grid, player: int, px: int, py: int, nx: int, ny: int) -> (Grid, (int, int), bool)
    decreases grid_count(g), 0int
        when do_move_when(g, player, px, py, nx, ny)
        via spec_do_move_dec
{
    let ms = spec_poss_moves(g, px, py);
    match find_move(ms, nx, ny) {
        None => (g, (px, py), false),
        Some(i) => {
            let took = ms[i].piece is Some;
            let g4 = step_grid(g, player, px, py, ms[i].piece, nx, ny);
            if took {
                let cont = spec_poss_moves(g4, nx, ny);
                match first_cap_from(cont, 0) {
                    Some(j) => {
                        let rec = spec_do_move(
                            g4,
                            player,
                            nx,
                            ny,
                            cont[j].x as int,
                            cont[j].y as int,
                        );
                        (rec.0, rec.1, true)
                    },
                    None => (g4, (nx, ny), true),
                }
            } else {
                (g4, (nx, ny), false)
            }
        },
    }
}

#[via_fn]
proof fn spec_do_move_dec(g: Grid, player: int, px: int, py: int, nx: int, ny: int) {
    let ms = spec_poss_moves(g, px, py);
    lemma_find_in_range(ms, 0, nx, ny);
    if find_move(ms, nx, ny) is Some {
        let i = find_move(ms, nx, ny)->0;
        lemma_do_move_step(g, player, px, py, nx, ny, i);
    }
}

/// The grid after a whole turn stays well formed, and if the turn
/// captured, no further capture is available to the moving piece from
/// the square it ended on.
#[verifier::rlimit(100)]
#[verifier::spinoff_prover]
pub proof fn lemma_do_move_props(g: Grid, player: int, px: int, py: int, nx: int, ny: int)
    requires
        do_move_when(g, player, px, py, nx, ny),
    ensures
        ({
            let r = spec_do_move(g, player, px, py, nx, ny);
            &&& grid_wf(r.0)
            &&& in_bounds(r.1.0, r.1.1)
            &&& grid_count(r.0) <= grid_count(g)
            &&& (r.2 ==> !has_capture(spec_poss_moves(r.0, r.1.0, r.1.1)))
        }),
    decreases grid_count(g), 1int,
{
    lemma_count_nonneg(g, 0, 0);
    let ms = spec_poss_moves(g, px, py);
    lemma_find_in_range(ms, 0, nx, ny);
    match find_move(ms, nx, ny) {
        None => {},
        Some(i) => {
            lemma_do_move_step(g, player, px, py, nx, ny, i);
            let took = ms[i].piece is Some;
            let g4 = step_grid(g, player, px, py, ms[i].piece, nx, ny);
            if took {
                let cont = spec_poss_moves(g4, nx, ny);
                lemma_first_cap_in_range(cont, 0);
                match first_cap_from(cont, 0) {
                    Some(j) => {
                        lemma_do_move_props(g4, player, nx, ny, cont[j].x as int, cont[j].y as int);
                    },
                    None => {
                        assert(!has_capture(cont)) by {
                            if has_capture(cont) {
                                let k = choose|k: int|
                                    0 <= k < cont.len() && cont[k].piece is Some;
                                assert(cont[k].piece is Some);
                            }
                        }
                    },
                }
            }
        },
    }
}

/// Whether the game is over and who won: a side with no movable piece
/// has lost; the side checked first is the plus side.
pub open spec fn spec_finish(g: Grid) -> (bool, i32) {
    if movable_of(g, 1).len() == 0 {
        (true, -1i32)
    } else if movable_of(g, -1).len() == 0 {
        (true, 1i32)
    } else {
        (false, 0i32)
    }
}

} // verus!
