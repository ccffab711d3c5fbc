//! Move generation: jump chains with their forced continuations, and
//! plain diagonal steps when no jump is available.

use vstd::prelude::*;

use crate::board::{Board, Piece, Pos};
use crate::model::{
    cell, dir_seg, gv, hist_ok, in_bounds, movable_from, movable_of, pieces_from, pieces_of,
    side_of, spec_moves, spec_poss_moves, step_moves, step_seg, lemma_hist_push,
    lemma_pieces_from_wf,
};

verus! {

/// A fresh vector holding the same history.
fn copy_hist(h: &Vec<(usize, usize)>) -> (r: Vec<(usize, usize)>)
    ensures
        r@ == h@,
{
    let mut r: Vec<(usize, usize)> = Vec::new();
    let mut i: usize = 0;
    while i < h.len()
        invariant
            i <= h@.len(),
            r@ == h@.subrange(0, i as int),
        decreases h@.len() - i,
    {
        r.push(h[i]);
        proof {
            assert(h@.subrange(0, i + 1) =~= h@.subrange(0, i as int).push(h@[i as int]));
        }
        i += 1;
    }
    proof {
        assert(h@.subrange(0, h@.len() as int) =~= h@);
    }
    r
}

impl Board {
    fn check_upper_left(&self, x: usize, y: usize) -> (r: (bool, bool))
        ensures
            r.0 == in_bounds(x as int - 1, y as int - 1),
            r.1 == in_bounds(x as int - 2, y as int - 2),
    {
        let one_sq: bool = x >= 1 && y >= 1 && x <= 8 && y <= 8;
        let two_sq: bool = x >= 2 && y >= 2 && x <= 9 && y <= 9;
        (one_sq, two_sq)
    }

    fn check_upper_right(&self, x: usize, y: usize) -> (r: (bool, bool))
        ensures
            r.0 == in_bounds(x as int - 1, y as int + 1),
            r.1 == in_bounds(x as int - 2, y as int + 2),
    {
        let one_sq: bool = x >= 1 && x <= 8 && y <= 6;
        let two_sq: bool = x >= 2 && x <= 9 && y <= 5;
        (one_sq, two_sq)
    }

    fn check_lower_left(&self, x: usize, y: usize) -> (r: (bool, bool))
        ensures
            r.0 == in_bounds(x as int + 1, y as int - 1),
            r.1 == in_bounds(x as int + 2, y as int - 2),
    {
        let one_sq: bool = y >= 1 && x <= 6 && y <= 8;
        let two_sq: bool = y >= 2 && x <= 5 && y <= 9;
        (one_sq, two_sq)
    }

    fn check_lower_right(&self, x: usize, y: usize) -> (r: (bool, bool))
        ensures
            r.0 == in_bounds(x as int + 1, y as int + 1),
            r.1 == in_bounds(x as int + 2, y as int + 2),
    {
        let one_sq: bool = x <= 6 && y <= 6;
        let two_sq: bool = x <= 5 && y <= 5;
        (one_sq, two_sq)
    }

    fn check_piece_history(&self, piece: Pos, history: &Vec<(usize, usize)>) -> (r: bool)
        ensures
            r == history@.contains((piece.x, piece.y)),
    {
        let mut been: bool = false;
        let mut i: usize = 0;
        while i < history.len()
            invariant
                i <= history@.len(),
                been ==> history@.contains((piece.x, piece.y)),
                !been ==> forall|k: int| 0 <= k < i ==> history@[k] != (piece.x, piece.y),
            decreases history@.len() - i,
        {
            let (x_pos, y_pos) = history[i];
            if x_pos == piece.x && piece.y == y_pos {
                been = true;
                proof {
                    assert(history@[i as int] == (piece.x, piece.y));
                }
            }
            i += 1;
        }
        been
    }


    /// The moves contributed by the jump direction `(DX, DY)`.
    fn jump_dir_ul(&self, s: i32, x: usize, y: usize, hist: &Vec<(usize, usize)>) -> (r: Vec<Pos>)
        requires
            self.wf(),
            in_bounds(x as int, y as int),
            hist_ok(hist@),
            !hist@.contains((x, y)),
        ensures
            r@ == dir_seg(self.g(), s as int, x as int, y as int, hist@, -1, -1),
        decreases 64 - hist@.len(), 0int,
    {
        proof {
            lemma_hist_push(hist@, x, y);
            assert(self.state@.len() == 8);
            assert forall|i: int| 0 <= i < 8 implies (#[trigger] self.state@[i])@.len() == 8 by {
                assert(gv(self.state@)[i] == self.state@[i]@);
            }
        }
        let mut moves: Vec<Pos> = Vec::new();
        if self.check_upper_left(x, y).1 {
            let on_h = self.check_piece_history(Pos::new(x - 2, y - 2, None), hist);
            let mid = self.state[x - 1][y - 1];
            let land = self.state[x - 2][y - 2];
            if !on_h && land == 0 && ((s == 1 && mid < 0) || (s == -1 && mid > 0)) {
                moves.push(Pos::new(x - 2, y - 2, Some(Piece::new(x - 1, y - 1))));
                let mut h2 = copy_hist(hist);
                h2.push((x, y));
                let mut rec = self.moves_from(s, x - 2, y - 2, &h2, false);
                moves.append(&mut rec);
            }
        }
        proof {
            assert(moves@ =~= dir_seg(self.g(), s as int, x as int, y as int, hist@, -1, -1));
        }
        moves
    }

    fn jump_dir_ur(&self, s: i32, x: usize, y: usize, hist: &Vec<(usize, usize)>) -> (r: Vec<Pos>)
        requires
            self.wf(),
            in_bounds(x as int, y as int),
            hist_ok(hist@),
            !hist@.contains((x, y)),
        ensures
            r@ == dir_seg(self.g(), s as int, x as int, y as int, hist@, -1, 1),
        decreases 64 - hist@.len(), 0int,
    {
        proof {
            lemma_hist_push(hist@, x, y);
            assert(self.state@.len() == 8);
            assert forall|i: int| 0 <= i < 8 implies (#[trigger] self.state@[i])@.len() == 8 by {
                assert(gv(self.state@)[i] == self.state@[i]@);
            }
        }
        let mut moves: Vec<Pos> = Vec::new();
        if self.check_upper_right(x, y).1 {
            let on_h = self.check_piece_history(Pos::new(x - 2, y + 2, None), hist);
            let mid = self.state[x - 1][y + 1];
            let land = self.state[x - 2][y + 2];
            if !on_h && land == 0 && ((s == 1 && mid < 0) || (s == -1 && mid > 0)) {
                moves.push(Pos::new(x - 2, y + 2, Some(Piece::new(x - 1, y + 1))));
                let mut h2 = copy_hist(hist);
                h2.push((x, y));
                let mut rec = self.moves_from(s, x - 2, y + 2, &h2, false);
                moves.append(&mut rec);
            }
        }
        proof {
            assert(moves@ =~= dir_seg(self.g(), s as int, x as int, y as int, hist@, -1, 1));
        }
        moves
    }

    fn jump_dir_ll(&self, s: i32, x: usize, y: usize, hist: &Vec<(usize, usize)>) -> (r: Vec<Pos>)
        requires
            self.wf(),
            in_bounds(x as int, y as int),
            hist_ok(hist@),
            !hist@.contains((x, y)),
        ensures
            r@ == dir_seg(self.g(), s as int, x as int, y as int, hist@, 1, -1),
        decreases 64 - hist@.len(), 0int,
    {
        proof {
            lemma_hist_push(hist@, x, y);
            assert(self.state@.len() == 8);
            assert forall|i: int| 0 <= i < 8 implies (#[trigger] self.state@[i])@.len() == 8 by {
                assert(gv(self.state@)[i] == self.state@[i]@);
            }
        }
        let mut moves: Vec<Pos> = Vec::new();
        if self.check_lower_left(x, y).1 {
            let on_h = self.check_piece_history(Pos::new(x + 2, y - 2, None), hist);
            let mid = self.state[x + 1][y - 1];
            let land = self.state[x + 2][y - 2];
            if !on_h && land == 0 && ((s == 1 && mid < 0) || (s == -1 && mid > 0)) {
                moves.push(Pos::new(x + 2, y - 2, Some(Piece::new(x + 1, y - 1))));
                let mut h2 = copy_hist(hist);
                h2.push((x, y));
                let mut rec = self.moves_from(s, x + 2, y - 2, &h2, false);
                moves.append(&mut rec);
            }
        }
        proof {
            assert(moves@ =~= dir_seg(self.g(), s as int, x as int, y as int, hist@, 1, -1));
        }
        moves
    }

    fn jump_dir_lr(&self, s: i32, x: usize, y: usize, hist: &Vec<(usize, usize)>) -> (r: Vec<Pos>)
        requires
            self.wf(),
            in_bounds(x as int, y as int),
            hist_ok(hist@),
            !hist@.contains((x, y)),
        ensures
            r@ == dir_seg(self.g(), s as int, x as int, y as int, hist@, 1, 1),
        decreases 64 - hist@.len(), 0int,
    {
        proof {
            lemma_hist_push(hist@, x, y);
            assert(self.state@.len() == 8);
            assert forall|i: int| 0 <= i < 8 implies (#[trigger] self.state@[i])@.len() == 8 by {
                assert(gv(self.state@)[i] == self.state@[i]@);
            }
        }
        let mut moves: Vec<Pos> = Vec::new();
        if self.check_lower_right(x, y).1 {
            let on_h = self.check_piece_history(Pos::new(x + 2, y + 2, None), hist);
            let mid = self.state[x + 1][y + 1];
            let land = self.state[x + 2][y + 2];
            if !on_h && land == 0 && ((s == 1 && mid < 0) || (s == -1 && mid > 0)) {
                moves.push(Pos::new(x + 2, y + 2, Some(Piece::new(x + 1, y + 1))));
                let mut h2 = copy_hist(hist);
                h2.push((x, y));
                let mut rec = self.moves_from(s, x + 2, y + 2, &h2, false);
                moves.append(&mut rec);
            }
        }
        proof {
            assert(moves@ =~= dir_seg(self.g(), s as int, x as int, y as int, hist@, 1, 1));
        }
        moves
    }

    /// All candidate moves of the piece of side `s` whose chain started
    /// from the occupied square the side belongs to, continuing at
    /// `(x, y)` with visited origins `hist`.
    fn moves_from(&self, s: i32, x: usize, y: usize, hist: &Vec<(usize, usize)>, top: bool) -> (r:
        Vec<Pos>)
        requires
            self.wf(),
            in_bounds(x as int, y as int),
            hist_ok(hist@),
            !hist@.contains((x, y)),
        ensures
            r@ == spec_moves(self.g(), s as int, x as int, y as int, hist@, top),
        decreases 64 - hist@.len(), 1int,
    {
        let ghost g = self.g();
        let ghost h = hist@;
        let ghost si = s as int;

        proof {
            assert(self.state@.len() == 8);
            assert forall|i: int| 0 <= i < 8 implies (#[trigger] self.state@[i])@.len() == 8 by {
                assert(gv(self.state@)[i] == self.state@[i]@);
            }
        }

        let mut moves = self.jump_dir_ul(s, x, y, hist);
        let mut m2 = self.jump_dir_ur(s, x, y, hist);
        moves.append(&mut m2);
        let mut m3 = self.jump_dir_ll(s, x, y, hist);
        moves.append(&mut m3);
        let mut m4 = self.jump_dir_lr(s, x, y, hist);
        moves.append(&mut m4);

        let ghost js = dir_seg(g, si, x as int, y as int, h, -1, -1) + dir_seg(
            g,
            si,
            x as int,
            y as int,
            h,
            -1,
            1,
        ) + dir_seg(g, si, x as int, y as int, h, 1, -1) + dir_seg(g, si, x as int, y as int, h, 1, 1);
        proof {
            assert(moves@ =~= js);
        }

        // plain steps, only when no jump was found at the top of a chain
        if moves.len() == 0 && top {
            if x + 1 <= 7 && y + 1 <= 7 && self.state[x + 1][y + 1] == 0 && s == -1 {
                moves.push(Pos::new(x + 1, y + 1, None));
            }
            proof {
                assert(moves@ =~= step_seg(g, si, x as int, y as int, 1, 1));
            }
            let ghost t1 = step_seg(g, si, x as int, y as int, 1, 1);

            let ghost m1 = moves@.len();
            if x >= 1 && y + 1 <= 7 && self.state[x - 1][y + 1] == 0 && s == 1 {
                moves.push(Pos::new(x - 1, y + 1, None));
            }
            proof {
                assert(moves@.subrange(m1 as int, moves@.len() as int) =~= step_seg(
                    g,
                    si,
                    x as int,
                    y as int,
                    -1,
                    1,
                ));
                assert(moves@ =~= t1 + step_seg(g, si, x as int, y as int, -1, 1));
            }
            let ghost t2 = t1 + step_seg(g, si, x as int, y as int, -1, 1);

            let ghost m2 = moves@.len();
            if x >= 1 && y >= 1 && self.state[x - 1][y - 1] == 0 && s == 1 {
                moves.push(Pos::new(x - 1, y - 1, None));
            }
            proof {
                assert(moves@.subrange(m2 as int, moves@.len() as int) =~= step_seg(
                    g,
                    si,
                    x as int,
                    y as int,
                    -1,
                    -1,
                ));
                assert(moves@ =~= t2 + step_seg(g, si, x as int, y as int, -1, -1));
            }
            let ghost t3 = t2 + step_seg(g, si, x as int, y as int, -1, -1);

            let ghost m3 = moves@.len();
            if x + 1 <= 7 && y >= 1 && self.state[x + 1][y - 1] == 0 && s == -1 {
                moves.push(Pos::new(x + 1, y - 1, None));
            }
            proof {
                assert(moves@.subrange(m3 as int, moves@.len() as int) =~= step_seg(
                    g,
                    si,
                    x as int,
                    y as int,
                    1,
                    -1,
                ));
                assert(moves@ =~= t3 + step_seg(g, si, x as int, y as int, 1, -1));
                assert(moves@ == step_moves(g, si, x as int, y as int));
            }
        }
        moves
    }

    /// The candidate moves of the piece at `piece`.  With a history the
    /// generator behaves as inside a jump chain: steps are not offered
    /// and landing on a visited origin is forbidden.
    pub fn possible_moves(&self, piece: Pos, prev_pos: Option<&Vec<(usize, usize)>>) -> (r: Vec<
        Pos>)
        requires
            self.wf(),
            in_bounds(piece.x as int, piece.y as int),
            prev_pos matches Some(h) ==> hist_ok(h@) && !h@.contains((piece.x, piece.y)),
        ensures
            r@ == match prev_pos {
                None => spec_poss_moves(self.g(), piece.x as int, piece.y as int),
                Some(h) => spec_moves(
                    self.g(),
                    side_of(cell(self.g(), piece.x as int, piece.y as int)),
                    piece.x as int,
                    piece.y as int,
                    h@,
                    false,
                ),
            },
    {
        proof {
            assert(self.state@.len() == 8);
            assert(gv(self.state@)[piece.x as int] == self.state@[piece.x as int]@);
        }
        let v = self.state[piece.x][piece.y];
        let s: i32 = if v > 0 {
            1
        } else if v < 0 {
            -1
        } else {
            0
        };
        proof {
            assert(s as int == side_of(cell(self.g(), piece.x as int, piece.y as int)));
        }
        match prev_pos {
            None => {
                let e: Vec<(usize, usize)> = Vec::new();
                proof {
                    assert(e@ =~= Seq::<(usize, usize)>::empty());
                }
                self.moves_from(s, piece.x, piece.y, &e, true)
            },
            Some(h) => self.moves_from(s, piece.x, piece.y, h, false),
        }
    }

    /// Rebuilds both piece lists from the grid.
    pub(crate) fn check_all_pieces(&mut self)
        requires
            old(self).wf(),
        ensures
            final(self).wf(),
            final(self).my_pieces@ == pieces_of(old(self).g(), 1),
            final(self).op_pieces@ == pieces_of(old(self).g(), -1),
            final(self).state@ == old(self).state@,
            final(self).curr_player == old(self).curr_player,
            final(self).cache_table == old(self).cache_table,
            final(self).minax_cache == old(self).minax_cache,
            final(self).quix == old(self).quix,
    {
        let ghost g = self.g();
        self.op_pieces = Vec::new();
        self.my_pieces = Vec::new();

        let mut i: usize = 0;
        while i < 8
            invariant
                self.wf(),
                self.g() == g,
                self.state@ == old(self).state@,
                self.curr_player == old(self).curr_player,
                self.cache_table == old(self).cache_table,
                self.minax_cache == old(self).minax_cache,
                self.quix == old(self).quix,
                i <= 8,
                pieces_of(g, 1) =~= self.my_pieces@ + pieces_from(g, i as int, 0, 1),
                pieces_of(g, -1) =~= self.op_pieces@ + pieces_from(g, i as int, 0, -1),
            decreases 8 - i,
        {
            let mut j: usize = 0;
            while j < 8
                invariant
                    self.wf(),
                    self.g() == g,
                    self.state@ == old(self).state@,
                    self.curr_player == old(self).curr_player,
                    self.cache_table == old(self).cache_table,
                    self.minax_cache == old(self).minax_cache,
                    self.quix == old(self).quix,
                    i < 8,
                    j <= 8,
                    pieces_of(g, 1) =~= self.my_pieces@ + pieces_from(g, i as int, j as int, 1),
                    pieces_of(g, -1) =~= self.op_pieces@ + pieces_from(g, i as int, j as int, -1),
                decreases 8 - j,
            {
                let v = self.state[i][j];
                if v >= self.my_side {
                    let p = Pos::new(i, j, None);
                    self.my_pieces.push(p);
                    proof {
                        assert(pieces_from(g, i as int, j as int, 1) =~= seq![p] + pieces_from(
                            g,
                            i as int,
                            j as int + 1,
                            1,
                        ));
                        assert(self.my_pieces@ + pieces_from(g, i as int, j as int + 1, 1)
                            =~= pieces_of(g, 1));
                    }
                } else if v <= self.op_side {
                    let p = Pos::new(i, j, None);
                    self.op_pieces.push(p);
                    proof {
                        assert(pieces_from(g, i as int, j as int, -1) =~= seq![p] + pieces_from(
                            g,
                            i as int,
                            j as int + 1,
                            -1,
                        ));
                        assert(self.op_pieces@ + pieces_from(g, i as int, j as int + 1, -1)
                            =~= pieces_of(g, -1));
                    }
                }
                j += 1;
            }
            i += 1;
        }
        proof {
            assert(self.my_pieces@ + pieces_from(g, 8, 0, 1) =~= self.my_pieces@);
            assert(self.op_pieces@ + pieces_from(g, 8, 0, -1) =~= self.op_pieces@);
        }
    }

    /// Every piece of `side` that has at least one candidate move.
    pub fn all_movable_pieces(&mut self, side: i32) -> (r: Vec<Pos>)
        requires
            old(self).wf(),
            side == 1 || side == -1,
        ensures
            final(self).wf(),
            r@ == movable_of(old(self).g(), side as int),
            final(self).my_pieces@ == pieces_of(old(self).g(), 1),
            final(self).op_pieces@ == pieces_of(old(self).g(), -1),
            final(self).state@ == old(self).state@,
            final(self).curr_player == old(self).curr_player,
            final(self).cache_table == old(self).cache_table,
            final(self).minax_cache == old(self).minax_cache,
            final(self).quix == old(self).quix,
    {
        self.check_all_pieces();

        let ghost g = self.g();
        proof {
            lemma_pieces_from_wf(g, 0, 0, side as int);
        }

        let mut all_pieces: Vec<Pos> = Vec::new();

        if side == self.my_side {
            let ghost ps = pieces_of(g, 1);
            let mut i: usize = 0;
            while i < self.my_pieces.len()
                invariant
                    self.wf(),
                    self.g() == g,
                    self.state@ == old(self).state@,
                    self.curr_player == old(self).curr_player,
                    self.cache_table == old(self).cache_table,
                    self.minax_cache == old(self).minax_cache,
                    self.quix == old(self).quix,
                    self.my_pieces@ == pieces_of(g, 1),
                    self.op_pieces@ == pieces_of(g, -1),
                    self.my_pieces@ == ps,
                    forall|k: int|
                        0 <= k < ps.len() ==> in_bounds(
                            (#[trigger] ps[k]).x as int,
                            ps[k].y as int,
                        ),
                    i <= ps.len(),
                    movable_of(g, 1) =~= all_pieces@ + movable_from(g, ps, i as int),
                decreases ps.len() - i,
            {
                let p = self.my_pieces[i];
                let poss_moves = self.possible_moves(p, None);
                if poss_moves.len() > 0 {
                    all_pieces.push(p);
                }
                proof {
                    assert(movable_of(g, 1) =~= all_pieces@ + movable_from(g, ps, i as int + 1));
                }
                i += 1;
            }
            proof {
                assert(all_pieces@ + movable_from(g, ps, ps.len() as int) =~= all_pieces@);
            }
        } else {
            let ghost ps = pieces_of(g, -1);
            let mut i: usize = 0;
            while i < self.op_pieces.len()
                invariant
                    self.wf(),
                    self.g() == g,
                    self.state@ == old(self).state@,
                    self.curr_player == old(self).curr_player,
                    self.cache_table == old(self).cache_table,
                    self.minax_cache == old(self).minax_cache,
                    self.quix == old(self).quix,
                    self.my_pieces@ == pieces_of(g, 1),
                    self.op_pieces@ == pieces_of(g, -1),
                    self.op_pieces@ == ps,
                    forall|k: int|
                        0 <= k < ps.len() ==> in_bounds(
                            (#[trigger] ps[k]).x as int,
                            ps[k].y as int,
                        ),
                    i <= ps.len(),
                    movable_of(g, -1) =~= all_pieces@ + movable_from(g, ps, i as int),
                decreases ps.len() - i,
            {
                let p = self.op_pieces[i];
                let poss_moves = self.possible_moves(p, None);
                if poss_moves.len() > 0 {
                    all_pieces.push(p);
                }
                proof {
                    assert(movable_of(g, -1) =~= all_pieces@ + movable_from(g, ps, i as int + 1));
                }
                i += 1;
            }
            proof {
                assert(all_pieces@ + movable_from(g, ps, ps.len() as int) =~= all_pieces@);
            }
        }

        all_pieces
    }
}

} // verus!
