//! The turn executor: validating a move, applying it with capture
//! removal, the forfeit sweep, promotion and forced continuation, and
//! the end-of-game test.

use vstd::prelude::*;

use crate::board::{Board, Pos};
use crate::model::{
    cell, find_from, find_move, first_cap_from, grid_count, grid_set, gv, has_capture, in_bounds,
    init_val, lemma_find_in_range, lemma_first_cap_in_range, lemma_movable_from_wf,
    lemma_pieces_from_wf, lemma_poss_moves_shape, movable_of, pieces_of, promoted, side_of,
    spec_poss_moves, wf_mv,
};
use crate::rules::{
    lemma_do_move_step, spec_do_move, spec_finish, spec_scan, spec_scan_from, step_grid,
};

verus! {

/// Whether some candidate move in the list captures.
fn vec_has_capture(v: &Vec<Pos>) -> (r: bool)
    ensures
        r == has_capture(v@),
{
    let mut j: usize = 0;
    while j < v.len()
        invariant
            j <= v@.len(),
            forall|k: int| 0 <= k < j ==> !((#[trigger] v@[k]).piece is Some),
        decreases v@.len() - j,
    {
        if v[j].piece.is_some() {
            proof {
                assert(v@[j as int].piece is Some);
            }
            return true;
        }
        j += 1;
    }
    proof {
        if has_capture(v@) {
            let k = choose|k: int| 0 <= k < v@.len() && v@[k].piece is Some;
            assert(!(v@[k].piece is Some));
        }
    }
    false
}

impl Board {
    fn take_piece(&mut self, x_pos: usize, y_pos: usize)
        requires
            old(self).wf(),
            in_bounds(x_pos as int, y_pos as int),
        ensures
            final(self).wf(),
            final(self).g() == grid_set(old(self).g(), x_pos as int, y_pos as int, 0),
            final(self).curr_player == old(self).curr_player,
            final(self).my_pieces == old(self).my_pieces,
            final(self).op_pieces == old(self).op_pieces,
            final(self).cache_table == old(self).cache_table,
            final(self).minax_cache == old(self).minax_cache,
            final(self).quix == old(self).quix,
    {
        self.set_cell(x_pos, y_pos, 0);
    }

    /// Searches the generated candidates for the requested destination;
    /// the first match decides, and a matching capture removes the
    /// captured piece from the grid.
    fn is_move_legal(&mut self, piece: Pos, next_pos: Pos) -> (r: (bool, bool))
        requires
            old(self).wf(),
            in_bounds(piece.x as int, piece.y as int),
            in_bounds(next_pos.x as int, next_pos.y as int),
        ensures
            final(self).wf(),
            final(self).curr_player == old(self).curr_player,
            final(self).my_pieces == old(self).my_pieces,
            final(self).op_pieces == old(self).op_pieces,
            final(self).cache_table == old(self).cache_table,
            final(self).minax_cache == old(self).minax_cache,
            final(self).quix == old(self).quix,
            ({
                let ms = spec_poss_moves(old(self).g(), piece.x as int, piece.y as int);
                match find_move(ms, next_pos.x as int, next_pos.y as int) {
                    None => r == (false, false) && final(self).g() == old(self).g(),
                    Some(i) => r.0 && (match ms[i].piece {
                        Some(p) => r.1 && final(self).g() == grid_set(
                            old(self).g(),
                            p.x as int,
                            p.y as int,
                            0,
                        ),
                        None => !r.1 && final(self).g() == old(self).g(),
                    }),
                }
            }),
    {
        let ghost g0 = self.g();
        let ghost px = piece.x as int;
        let ghost py = piece.y as int;
        let ghost nx = next_pos.x as int;
        let ghost ny = next_pos.y as int;
        proof {
            lemma_poss_moves_shape(g0, px, py);
        }
        let mut legal: bool = false;
        let mut took_piece: bool = false;

        let poss_moves = self.possible_moves(piece, None);
        let ghost ms = spec_poss_moves(g0, px, py);

        let mut i: usize = 0;
        while !legal && i < poss_moves.len()
            invariant
                self.wf(),
                poss_moves@ == ms,
                ms == spec_poss_moves(g0, px, py),
                nx == next_pos.x as int && ny == next_pos.y as int,
                forall|k: int|
                    0 <= k < ms.len() ==> wf_mv(g0, side_of(cell(g0, px, py)), #[trigger] ms[k]),
                i <= ms.len(),
                self.curr_player == old(self).curr_player,
                self.my_pieces == old(self).my_pieces,
                self.op_pieces == old(self).op_pieces,
                self.cache_table == old(self).cache_table,
                self.minax_cache == old(self).minax_cache,
                self.quix == old(self).quix,
                !legal ==> !took_piece && self.g() == g0 && find_from(ms, 0, nx, ny) == find_from(
                    ms,
                    i as int,
                    nx,
                    ny,
                ),
                legal ==> (match find_from(ms, 0, nx, ny) {
                    Some(fi) => (match ms[fi].piece {
                        Some(p) => took_piece && self.g() == grid_set(g0, p.x as int, p.y as int, 0),
                        None => !took_piece && self.g() == g0,
                    }),
                    None => false,
                }),
            decreases ms.len() - i + (if legal {
                0int
            } else {
                1int
            }),
        {
            let x_pos = poss_moves[i].x;
            let y_pos = poss_moves[i].y;

            if x_pos == next_pos.x && y_pos == next_pos.y {
                proof {
                    assert(find_from(ms, i as int, nx, ny) == Some(i as int));
                    assert(wf_mv(g0, side_of(cell(g0, px, py)), ms[i as int]));
                }
                if let Some(p) = poss_moves[i].piece {
                    self.take_piece(p.x, p.y);
                    took_piece = true;
                }
                legal = true;
            } else {
                proof {
                    assert(find_from(ms, i as int, nx, ny) == find_from(ms, i as int + 1, nx, ny));
                }
                i += 1;
            }
        }
        (legal, took_piece)
    }

    /// The forfeit sweep: removes the first other movable piece of the
    /// side to move that left a capture unused.
    fn scan_board(&mut self, piece: Pos)
        requires
            old(self).wf(),
        ensures
            final(self).wf(),
            final(self).g() == spec_scan(
                old(self).g(),
                old(self).curr_player as int,
                piece.x as int,
                piece.y as int,
            ),
            final(self).curr_player == old(self).curr_player,
            final(self).cache_table == old(self).cache_table,
            final(self).minax_cache == old(self).minax_cache,
            final(self).quix == old(self).quix,
    {
        let ghost g0 = self.g();
        let ghost player = self.curr_player as int;
        let ghost px = piece.x as int;
        let ghost py = piece.y as int;

        let side = self.curr_player;
        let all_pieces = self.all_movable_pieces(side);
        let ghost mv = movable_of(g0, player);

        proof {
            lemma_pieces_from_wf(g0, 0, 0, player);
            lemma_movable_from_wf(g0, pieces_of(g0, player), 0);
            assert forall|k2: int| 0 <= k2 < mv.len() implies in_bounds(
                (#[trigger] mv[k2]).x as int,
                mv[k2].y as int,
            ) by {
                let ps = pieces_of(g0, player);
                assert(ps.contains(mv[k2]));
                let q = choose|q: int| 0 <= q < ps.len() && ps[q] == mv[k2];
                assert(in_bounds(ps[q].x as int, ps[q].y as int));
            }
        }

        let mut found: bool = false;
        let mut i: usize = 0;
        while !found && i < all_pieces.len()
            invariant
                self.wf(),
                all_pieces@ == mv,
                px == piece.x as int && py == piece.y as int,
                forall|k2: int|
                    0 <= k2 < mv.len() ==> in_bounds((#[trigger] mv[k2]).x as int, mv[k2].y as int),
                i <= mv.len(),
                self.curr_player == old(self).curr_player,
                self.cache_table == old(self).cache_table,
                self.minax_cache == old(self).minax_cache,
                self.quix == old(self).quix,
                !found ==> self.g() == g0 && spec_scan_from(g0, mv, 0, px, py) == spec_scan_from(
                    g0,
                    mv,
                    i as int,
                    px,
                    py,
                ),
                found ==> self.g() == spec_scan_from(g0, mv, 0, px, py),
            decreases mv.len() - i + (if found {
                0int
            } else {
                1int
            }),
        {
            let p = all_pieces[i];
            if p.x != piece.x || p.y != piece.y {
                let curr_piece = Pos::new(p.x, p.y, None);
                let moves = self.possible_moves(curr_piece, None);
                if vec_has_capture(&moves) {
                    proof {
                        assert(has_capture(spec_poss_moves(g0, p.x as int, p.y as int)));
                        assert(spec_scan_from(g0, mv, i as int, px, py) == grid_set(
                            g0,
                            p.x as int,
                            p.y as int,
                            0,
                        ));
                    }
                    self.take_piece(p.x, p.y);
                    found = true;
                } else {
                    proof {
                        assert(spec_scan_from(g0, mv, i as int, px, py) == spec_scan_from(
                            g0,
                            mv,
                            i as int + 1,
                            px,
                            py,
                        ));
                    }
                    i += 1;
                }
            } else {
                proof {
                    assert(spec_scan_from(g0, mv, i as int, px, py) == spec_scan_from(
                        g0,
                        mv,
                        i as int + 1,
                        px,
                        py,
                    ));
                }
                i += 1;
            }
        }
    }

    /// One whole move without the trailing turn toggle: validation,
    /// capture, forfeit sweep, promotion, and every forced continuation
    /// of a capture chain.
    fn do_move_inner(&mut self, piece: Pos, next_pos: Pos)
        requires
            old(self).wf(),
            in_bounds(piece.x as int, piece.y as int),
            in_bounds(next_pos.x as int, next_pos.y as int),
        ensures
            final(self).wf(),
            final(self).g() == spec_do_move(
                old(self).g(),
                old(self).curr_player as int,
                piece.x as int,
                piece.y as int,
                next_pos.x as int,
                next_pos.y as int,
            ).0,
            final(self).curr_player == old(self).curr_player,
            final(self).cache_table == old(self).cache_table,
            final(self).minax_cache == old(self).minax_cache,
            final(self).quix == old(self).quix,
        decreases grid_count(self.g()),
    {
        let ghost g0 = self.g();
        let ghost player = self.curr_player as int;
        let ghost px = piece.x as int;
        let ghost py = piece.y as int;
        let ghost nx = next_pos.x as int;
        let ghost ny = next_pos.y as int;
        let ghost ms = spec_poss_moves(g0, px, py);

        let (legal, took) = self.is_move_legal(piece, next_pos);

        if legal {
            let ghost i = find_move(ms, nx, ny)->0;
            let ghost cap = ms[i].piece;
            proof {
                lemma_find_in_range(ms, 0, nx, ny);
                lemma_do_move_step(g0, player, px, py, nx, ny, i);
            }

            self.scan_board(piece);
            let ghost g2 = self.g();

            proof {
                assert(self.state@.len() == 8);
                assert(gv(self.state@)[px] == self.state@[px]@);
            }
            let m = self.state[piece.x][piece.y];
            let vdest: i32 = if next_pos.x == 0 && m == self.my_side {
                2
            } else if next_pos.x == 7 && m == self.op_side {
                -2
            } else {
                m
            };
            proof {
                assert(vdest == promoted(cell(g2, px, py), nx));
            }
            self.set_cell(next_pos.x, next_pos.y, vdest);
            self.set_cell(piece.x, piece.y, 0);
            let ghost g4 = self.g();
            proof {
                assert(g4 == step_grid(g0, player, px, py, cap, nx, ny));
            }

            if took {
                let poss_moves = self.possible_moves(next_pos, None);
                let ghost cont = spec_poss_moves(g4, nx, ny);

                let mut found: bool = false;
                let mut idx: usize = 0;
                while !found && idx < poss_moves.len()
                    invariant
                        poss_moves@ == cont,
                        idx <= cont.len(),
                        !found ==> first_cap_from(cont, 0) == first_cap_from(cont, idx as int),
                        found ==> first_cap_from(cont, 0) == Some(idx as int),
                    decreases cont.len() - idx + (if found {
                        0int
                    } else {
                        1int
                    }),
                {
                    if poss_moves[idx].piece.is_some() {
                        proof {
                            assert(first_cap_from(cont, idx as int) == Some(idx as int));
                        }
                        found = true;
                    } else {
                        proof {
                            assert(first_cap_from(cont, idx as int) == first_cap_from(
                                cont,
                                idx as int + 1,
                            ));
                        }
                        idx += 1;
                    }
                }

                if found {
                    proof {
                        lemma_first_cap_in_range(cont, 0);
                        lemma_poss_moves_shape(g4, nx, ny);
                        assert(cap is Some);
                        assert(grid_count(g4) < grid_count(g0));
                    }
                    let np = Pos::new(poss_moves[idx].x, poss_moves[idx].y, None);
                    self.do_move_inner(next_pos, np);
                }
            }
        }
    }

    /// Applies a move for the side to move.  An illegal pair leaves the
    /// grid unchanged; legal captures are chained as far as they go; the
    /// turn passes to the other side exactly once, even on an illegal
    /// attempt.
    pub fn do_move(&mut self, piece: Pos, next_pos: Pos)
        requires
            old(self).wf(),
            in_bounds(piece.x as int, piece.y as int),
            in_bounds(next_pos.x as int, next_pos.y as int),
        ensures
            final(self).wf(),
            final(self).g() == spec_do_move(
                old(self).g(),
                old(self).curr_player as int,
                piece.x as int,
                piece.y as int,
                next_pos.x as int,
                next_pos.y as int,
            ).0,
            final(self).curr_player == -old(self).curr_player,
            final(self).cache_table == old(self).cache_table,
            final(self).minax_cache == old(self).minax_cache,
            final(self).quix == old(self).quix,
    {
        self.do_move_inner(piece, next_pos);
        self.curr_player = -self.curr_player;
    }

    /// Whether the game is over, and who won: the side whose opponent
    /// has no movable piece left.
    pub fn finish_state(&mut self) -> (r: (bool, i32))
        requires
            old(self).wf(),
        ensures
            final(self).wf(),
            final(self).state@ == old(self).state@,
            final(self).curr_player == old(self).curr_player,
            final(self).cache_table == old(self).cache_table,
            final(self).minax_cache == old(self).minax_cache,
            final(self).quix == old(self).quix,
            r == spec_finish(old(self).g()),
    {
        let my_side = self.my_side;
        let op_side = self.op_side;
        let my_movable = self.all_movable_pieces(my_side);
        let op_movable = self.all_movable_pieces(op_side);

        if my_movable.len() == 0 {
            (true, op_side)
        } else if op_movable.len() == 0 {
            (true, my_side)
        } else {
            (false, 0)
        }
    }

    /// Lays out the starting position: the minus side on the dark
    /// squares of rows 0 to 2, the plus side on those of rows 5 to 7.
    pub fn init(&mut self)
        requires
            old(self).row == 8,
            old(self).col == 8,
            old(self).my_side == 1,
            old(self).op_side == -1,
            old(self).curr_player == 1 || old(self).curr_player == -1,
            old(self).state@.len() == 0,
        ensures
            final(self).wf(),
            forall|a: int, b: int|
                0 <= a < 8 && 0 <= b < 8 ==> cell(final(self).g(), a, b) == init_val(a, b),
            final(self).my_pieces@ == pieces_of(final(self).g(), 1),
            final(self).op_pieces@ == pieces_of(final(self).g(), -1),
            final(self).curr_player == old(self).curr_player,
            final(self).cache_table == old(self).cache_table,
            final(self).minax_cache == old(self).minax_cache,
            final(self).quix == old(self).quix,
    {
        let mut i: usize = 0;
        while i < 8
            invariant
                self.row == 8 && self.col == 8,
                self.my_side == 1 && self.op_side == -1,
                self.curr_player == old(self).curr_player,
                self.curr_player == 1 || self.curr_player == -1,
                self.my_pieces == old(self).my_pieces,
                self.op_pieces == old(self).op_pieces,
                self.cache_table == old(self).cache_table,
                self.minax_cache == old(self).minax_cache,
                self.quix == old(self).quix,
                i <= 8,
                self.state@.len() == i,
                forall|a: int| 0 <= a < i ==> (#[trigger] self.state@[a])@.len() == 8,
                forall|a: int, b: int|
                    0 <= a < i && 0 <= b < 8 ==> self.state@[a]@[b] == init_val(a, b),
            decreases 8 - i,
        {
            let mut row_vec: Vec<i32> = Vec::new();
            let mut j: usize = 0;
            while j < 8
                invariant
                    self.my_side == 1 && self.op_side == -1,
                    i < 8,
                    j <= 8,
                    row_vec@.len() == j,
                    forall|b: int| 0 <= b < j ==> row_vec@[b] == init_val(i as int, b),
                decreases 8 - j,
            {
                let even: bool = (i % 2 == 0) && (j % 2 == 0);
                let odd: bool = (i % 2 != 0) && (j % 2 != 0);
                let v: i32 = if even || odd || i == 3 || i == 4 {
                    0
                } else if i <= 2 {
                    self.op_side
                } else {
                    self.my_side
                };
                row_vec.push(v);
                j += 1;
            }
            self.state.push(row_vec);
            i += 1;
        }
        proof {
            assert forall|a: int| 0 <= a < 8 implies (#[trigger] self.g()[a]).len() == 8 by {
                assert(self.g()[a] == self.state@[a]@);
            }
            assert(self.wf());
        }
        self.check_all_pieces();
        proof {
            assert forall|a: int, b: int| 0 <= a < 8 && 0 <= b < 8 implies cell(self.g(), a, b)
                == init_val(a, b) by {
                assert(self.g()[a] == self.state@[a]@);
            }
        }
    }
}

} // verus!
