//! The search engine: the static evaluation, the score and move
//! caches, depth-limited alpha-beta minimax, and the choice of the
//! computer's move.  Every cached value is proved to equal the value
//! the search would recompute, so a hit never changes a result.

use vstd::prelude::*;

use crate::board::{copy_grid, grid_eq, Board, MoveEntry, Pos, ScoreEntry};
use crate::eval::{
    cap_add, child_grid, count_caps, count_val, count_val_from, lemma_count_caps_range,
    lemma_count_val_range, mm_moves_max, mm_moves_min, mm_pieces_max, mm_pieces_min, mob_cap,
    spec_heur, spec_minimax, spec_mobility, spec_move_score, spec_ult_moves, spec_ult_pieces,
    spec_ultimate, tally_from,
};
use crate::model::{
    gv, grid_wf, in_bounds, lemma_movable_from_wf, lemma_pieces_from_wf, lemma_poss_moves_shape,
    movable_of, pieces_of, spec_poss_moves,
};
verus! {

/// A score entry is valid when its score is exactly the value the
/// search computes for the recorded position, move and parameters.
pub open spec fn score_entry_ok(e: ScoreEntry) -> bool {
    &&& grid_wf(gv(e.state@))
    &&& (e.player == 1 || e.player == -1)
    &&& in_bounds(e.px as int, e.py as int)
    &&& in_bounds(e.nx as int, e.ny as int)
    &&& e.depth >= 0
    &&& e.score as int == spec_minimax(
        child_grid(gv(e.state@), e.player as int, e.px as int, e.py as int, e.nx as int, e.ny as int),
        -(e.player as int),
        e.depth as int,
        e.is_max,
        e.alpha as int,
        e.beta as int,
    )
}

pub open spec fn score_cache_ok(c: Seq<ScoreEntry>) -> bool {
    forall|k: int| 0 <= k < c.len() ==> score_entry_ok(#[trigger] c[k])
}

/// A move entry is valid when it records exactly the move the search
/// chooses for the recorded position and side.
pub open spec fn move_entry_ok(e: MoveEntry) -> bool {
    &&& grid_wf(gv(e.state@))
    &&& (e.player == 1 || e.player == -1)
    &&& ({
        let u = spec_ultimate(gv(e.state@), e.player as int);
        e.px == u.1.x && e.py == u.1.y && e.nx == u.2.x && e.ny == u.2.y
    })
}

pub open spec fn move_cache_ok(c: Seq<MoveEntry>) -> bool {
    forall|k: int| 0 <= k < c.len() ==> move_entry_ok(#[trigger] c[k])
}

/// The saturating mobility and capture-threat tallies of one side.
fn tally_side(board: &mut Board, side: i32) -> (r: (i32, i32))
    requires
        old(board).wf(),
        side == 1 || side == -1,
    ensures
        final(board).wf(),
        final(board).state@ == old(board).state@,
        final(board).curr_player == old(board).curr_player,
        r.0 as int == spec_mobility(old(board).g(), side as int).0,
        r.1 as int == spec_mobility(old(board).g(), side as int).1,
{
    let ghost g = old(board).g();
    let all_pieces = board.all_movable_pieces(side);
    let ghost ps = movable_of(g, side as int);

    proof {
        lemma_pieces_from_wf(g, 0, 0, side as int);
        lemma_movable_from_wf(g, pieces_of(g, side as int), 0);
        assert forall|k2: int| 0 <= k2 < ps.len() implies in_bounds(
            (#[trigger] ps[k2]).x as int,
            ps[k2].y as int,
        ) by {
            let pcs = pieces_of(g, side as int);
            assert(pcs.contains(ps[k2]));
            let q = choose|q: int| 0 <= q < pcs.len() && pcs[q] == ps[k2];
            assert(in_bounds(pcs[q].x as int, pcs[q].y as int));
        }
    }

    let mut mc: i32 = 0;
    let mut tc: i32 = 0;
    let mut i: usize = 0;
    while i < all_pieces.len()
        invariant
            board.wf(),
            board.g() == g,
            board.state@ == old(board).state@,
            board.curr_player == old(board).curr_player,
            all_pieces@ == ps,
            forall|k2: int|
                0 <= k2 < ps.len() ==> in_bounds((#[trigger] ps[k2]).x as int, ps[k2].y as int),
            i <= ps.len(),
            0 <= mc as int <= mob_cap(),
            0 <= tc as int <= mob_cap(),
            spec_mobility(g, side as int) == tally_from(g, ps, i as int, mc as int, tc as int),
        decreases ps.len() - i,
    {
        let p = all_pieces[i];
        let moves = board.possible_moves(p, None);
        let ghost ms = spec_poss_moves(g, p.x as int, p.y as int);
        let ghost mc0 = mc as int;
        let ghost tc0 = tc as int;

        proof {
            lemma_count_caps_range(ms, 0);
        }

        let mut j: usize = 0;
        while j < moves.len()
            invariant
                moves@ == ms,
                j <= ms.len(),
                0 <= mc0 <= mob_cap(),
                0 <= tc0 <= mob_cap(),
                mc as int == cap_add(mc0, j as int),
                tc as int == cap_add(tc0, count_caps(ms, 0) - count_caps(ms, j as int)),
            decreases ms.len() - j,
        {
            proof {
                lemma_count_caps_range(ms, j as int);
                lemma_count_caps_range(ms, j as int + 1);
            }
            if mc < 8000 {
                mc = mc + 1;
            }
            if moves[j].piece.is_some() {
                proof {
                    assert(count_caps(ms, j as int) == 1 + count_caps(ms, j as int + 1));
                }
                if tc < 8000 {
                    tc = tc + 1;
                }
            } else {
                proof {
                    assert(count_caps(ms, j as int) == count_caps(ms, j as int + 1));
                }
            }
            j += 1;
        }
        proof {
            assert(count_caps(ms, ms.len() as int) == 0);
            assert(mc as int == cap_add(mc0, ms.len() as int));
            assert(tc as int == cap_add(tc0, count_caps(ms, 0)));
            assert(tally_from(g, ps, i as int, mc0, tc0) == tally_from(
                g,
                ps,
                i as int + 1,
                mc as int,
                tc as int,
            ));
        }
        i += 1;
    }
    (mc, tc)
}

impl Board {
    /// Both caches hold only values the search would recompute.
    pub open spec fn caches_ok(&self) -> bool {
        score_cache_ok(self.minax_cache@) && move_cache_ok(self.cache_table@)
    }

    /// A copy of the position for hypothetical exploration: the grid
    /// and side to move, but not the caches.
    fn clone_board(&self) -> (r: Board)
        requires
            self.wf(),
        ensures
            r.wf(),
            r.g() == self.g(),
            r.curr_player == self.curr_player,
            r.minax_cache@.len() == 0,
            r.cache_table@.len() == 0,
    {
        let mut b = Board::new();
        b.state = copy_grid(&self.state);
        b.curr_player = self.curr_player;
        b
    }

    /// The static evaluation of a position.
    fn board_heuristics(&mut self, board: Board) -> (r: i32)
        requires
            board.wf(),
        ensures
            *final(self) == *old(self),
            r as int == spec_heur(board.g()),
    {
        let mut board = board;
        let ghost g = board.g();

        let mut op_kings: i32 = 0;
        let mut op_pieces: i32 = 0;
        let mut my_kings: i32 = 0;
        let mut my_pieces: i32 = 0;

        proof {
            lemma_count_val_range(g, -2i32, 0, 0);
            lemma_count_val_range(g, -1i32, 0, 0);
            lemma_count_val_range(g, 1i32, 0, 0);
            lemma_count_val_range(g, 2i32, 0, 0);
            assert(board.state@.len() == 8);
            assert forall|a: int| 0 <= a < 8 implies (#[trigger] board.state@[a])@.len() == 8 by {
                assert(gv(board.state@)[a] == board.state@[a]@);
            }
        }

        let mut x: usize = 0;
        while x < 8
            invariant
                board.state@.len() == 8,
                forall|a: int| 0 <= a < 8 ==> (#[trigger] board.state@[a])@.len() == 8,
                g == gv(board.state@),
                x <= 8,
                0 <= op_kings as int <= 64,
                0 <= op_pieces as int <= 64,
                0 <= my_kings as int <= 64,
                0 <= my_pieces as int <= 64,
                count_val(g, -2i32) == op_kings as int + count_val_from(g, -2i32, x as int, 0),
                count_val(g, -1i32) == op_pieces as int + count_val_from(g, -1i32, x as int, 0),
                count_val(g, 2i32) == my_kings as int + count_val_from(g, 2i32, x as int, 0),
                count_val(g, 1i32) == my_pieces as int + count_val_from(g, 1i32, x as int, 0),
            decreases 8 - x,
        {
            let mut y: usize = 0;
            while y < 8
                invariant
                    board.state@.len() == 8,
                    forall|a: int| 0 <= a < 8 ==> (#[trigger] board.state@[a])@.len() == 8,
                    g == gv(board.state@),
                    x < 8,
                    y <= 8,
                    0 <= op_kings as int <= 64,
                    0 <= op_pieces as int <= 64,
                    0 <= my_kings as int <= 64,
                    0 <= my_pieces as int <= 64,
                    count_val(g, -2i32) == op_kings as int + count_val_from(
                        g,
                        -2i32,
                        x as int,
                        y as int,
                    ),
                    count_val(g, -1i32) == op_pieces as int + count_val_from(
                        g,
                        -1i32,
                        x as int,
                        y as int,
                    ),
                    count_val(g, 2i32) == my_kings as int + count_val_from(
                        g,
                        2i32,
                        x as int,
                        y as int,
                    ),
                    count_val(g, 1i32) == my_pieces as int + count_val_from(
                        g,
                        1i32,
                        x as int,
                        y as int,
                    ),
                decreases 8 - y,
            {
                proof {
                    lemma_count_val_range(g, -2i32, x as int, y as int + 1);
                    lemma_count_val_range(g, -1i32, x as int, y as int + 1);
                    lemma_count_val_range(g, 2i32, x as int, y as int + 1);
                    lemma_count_val_range(g, 1i32, x as int, y as int + 1);
                    lemma_count_val_range(g, -2i32, 0, 0);
                    lemma_count_val_range(g, -1i32, 0, 0);
                    lemma_count_val_range(g, 2i32, 0, 0);
                    lemma_count_val_range(g, 1i32, 0, 0);
                }
                let v = board.state[x][y];
                if v == -2 {
                    op_kings += 1;
                } else if v == -1 {
                    op_pieces += 1;
                } else if v == 1 {
                    my_pieces += 1;
                } else if v == 2 {
                    my_kings += 1;
                }
                y += 1;
            }
            x += 1;
        }

        let (op_moves, op_taken) = tally_side(&mut board, -1);
        let (my_moves, my_taken) = tally_side(&mut board, 1);
        proof {
            crate::eval::lemma_tally_range(g, movable_of(g, -1), 0, 0, 0);
            crate::eval::lemma_tally_range(g, movable_of(g, 1), 0, 0, 0);
        }

        let king_diff: i32 = op_kings - my_kings;
        let piece_diff: i32 = op_pieces - my_pieces;
        let move_diff: i32 = op_moves - my_moves;
        let take_diff: i32 = op_taken - my_taken;

        let score: i32 = 1000 * king_diff + 100 * take_diff + 10 * move_diff + piece_diff;
        score
    }

    /// Looks the score of a move up; a hit is exactly the value the
    /// search would compute for these parameters.
    fn get_cache_score(
        &self,
        state: &Vec<Vec<i32>>,
        player: i32,
        _piece: Pos,
        next_pos: Pos,
        depth: i32,
        is_max: bool,
        alpha: i32,
        beta: i32,
    ) -> (r: Option<i32>)
        requires
            score_cache_ok(self.minax_cache@),
        ensures
            r matches Some(s) ==> s as int == spec_minimax(
                child_grid(
                    gv(state@),
                    player as int,
                    _piece.x as int,
                    _piece.y as int,
                    next_pos.x as int,
                    next_pos.y as int,
                ),
                -(player as int),
                depth as int,
                is_max,
                alpha as int,
                beta as int,
            ),
    {
        let mut i: usize = 0;
        while i < self.minax_cache.len()
            invariant
                score_cache_ok(self.minax_cache@),
                i <= self.minax_cache@.len(),
            decreases self.minax_cache@.len() - i,
        {
            let e = &self.minax_cache[i];
            if e.player == player && e.px == _piece.x && e.py == _piece.y && e.nx == next_pos.x
                && e.ny == next_pos.y && e.depth == depth && e.is_max == is_max && e.alpha == alpha
                && e.beta == beta && grid_eq(&e.state, state) {
                proof {
                    assert(score_entry_ok(self.minax_cache@[i as int]));
                    assert(gv(e.state@) == gv(state@));
                }
                return Some(e.score);
            }
            i += 1;
        }
        None
    }

    /// Remembers the score of a move; only a value the search computes
    /// for these parameters may be stored.
    fn set_cache_score(
        &mut self,
        state: &Vec<Vec<i32>>,
        player: i32,
        _piece: Pos,
        next_pos: Pos,
        depth: i32,
        is_max: bool,
        alpha: i32,
        beta: i32,
        score: i32,
    )
        requires
            score_cache_ok(old(self).minax_cache@),
            grid_wf(gv(state@)),
            player == 1 || player == -1,
            in_bounds(_piece.x as int, _piece.y as int),
            in_bounds(next_pos.x as int, next_pos.y as int),
            depth >= 0,
            score as int == spec_minimax(
                child_grid(
                    gv(state@),
                    player as int,
                    _piece.x as int,
                    _piece.y as int,
                    next_pos.x as int,
                    next_pos.y as int,
                ),
                -(player as int),
                depth as int,
                is_max,
                alpha as int,
                beta as int,
            ),
        ensures
            score_cache_ok(final(self).minax_cache@),
            final(self).state@ == old(self).state@,
            final(self).curr_player == old(self).curr_player,
            final(self).my_pieces == old(self).my_pieces,
            final(self).op_pieces == old(self).op_pieces,
            final(self).cache_table == old(self).cache_table,
            final(self).quix == old(self).quix,
            final(self).row == old(self).row && final(self).col == old(self).col,
            final(self).my_side == old(self).my_side && final(self).op_side == old(self).op_side,
    {
        let st = copy_grid(state);
        let e = ScoreEntry {
            state: st,
            player,
            px: _piece.x,
            py: _piece.y,
            nx: next_pos.x,
            ny: next_pos.y,
            depth,
            is_max,
            alpha,
            beta,
            score,
        };
        proof {
            assert(gv(e.state@) == gv(state@));
            assert(score_entry_ok(e));
        }
        self.minax_cache.push(e);
        proof {
            assert forall|k: int| 0 <= k < self.minax_cache@.len() implies score_entry_ok(
                #[trigger] self.minax_cache@[k],
            ) by {
                if k < old(self).minax_cache@.len() {
                    assert(score_entry_ok(old(self).minax_cache@[k]));
                }
            }
        }
    }

    /// Depth-limited alpha-beta minimax over a position taken by value;
    /// the caller's caches speed it up without changing its value.
    #[verifier::loop_isolation(false)]
    #[verifier::rlimit(100)]
    pub fn minimax(&mut self, temp_board: Board, depth: i32, is_max: bool, alpha: i32, beta: i32) -> (r: i32)
        requires
            score_cache_ok(old(self).minax_cache@),
            temp_board.wf(),
            0 <= depth,
        ensures
            score_cache_ok(final(self).minax_cache@),
            final(self).state@ == old(self).state@,
            final(self).curr_player == old(self).curr_player,
            final(self).my_pieces == old(self).my_pieces,
            final(self).op_pieces == old(self).op_pieces,
            final(self).cache_table == old(self).cache_table,
            final(self).row == old(self).row && final(self).col == old(self).col,
            final(self).my_side == old(self).my_side && final(self).op_side == old(self).op_side,
            r as int == spec_minimax(
                temp_board.g(),
                temp_board.curr_player as int,
                depth as int,
                is_max,
                alpha as int,
                beta as int,
            ),
        decreases depth,
    {
        let mut temp_board = temp_board;
        let ghost tg = temp_board.g();
        let ghost tp = temp_board.curr_player as int;
        let ghost target = spec_minimax(tg, tp, depth as int, is_max, alpha as int, beta as int);
        let mut alpha = alpha;
        let mut beta = beta;

        let (done, _winner) = temp_board.finish_state();

        let mut initial: i32 = 0;

        if done || depth == 0 {
            initial = self.board_heuristics(temp_board);
        } else if is_max {
            initial = -999999;

            let side = temp_board.curr_player;
            let all_pieces = temp_board.all_movable_pieces(side);
            let ghost ps = movable_of(tg, tp);
            proof {
                lemma_pieces_from_wf(tg, 0, 0, tp);
                lemma_movable_from_wf(tg, pieces_of(tg, tp), 0);
                assert forall|k2: int| 0 <= k2 < ps.len() implies in_bounds(
                    (#[trigger] ps[k2]).x as int,
                    ps[k2].y as int,
                ) by {
                    let pcs = pieces_of(tg, tp);
                    assert(pcs.contains(ps[k2]));
                    let q = choose|q: int| 0 <= q < pcs.len() && pcs[q] == ps[k2];
                    assert(in_bounds(pcs[q].x as int, pcs[q].y as int));
                }
            }

            let mut i: usize = 0;
            while i < all_pieces.len()
                invariant
                    i <= ps.len(),
                    score_cache_ok(self.minax_cache@),
                    self.state@ == old(self).state@,
                    self.curr_player == old(self).curr_player,
                    self.my_pieces == old(self).my_pieces,
                    self.op_pieces == old(self).op_pieces,
                    self.cache_table == old(self).cache_table,
                    self.row == old(self).row && self.col == old(self).col,
                    self.my_side == old(self).my_side && self.op_side == old(self).op_side,
                    target == mm_pieces_max(
                        tg,
                        tp,
                        ps,
                        i as int,
                        depth as int,
                        alpha as int,
                        beta as int,
                        initial as int,
                    ),
                decreases ps.len() - i,
            {
                let p = all_pieces[i];
                let poss_moves = temp_board.possible_moves(p, None);
                let ghost ms = spec_poss_moves(tg, p.x as int, p.y as int);
                let ghost a_in = alpha as int;
                let ghost best_in = initial as int;
                proof {
                    lemma_poss_moves_shape(tg, p.x as int, p.y as int);
                }

                let mut pruned: bool = false;
                let mut j: usize = 0;
                while !pruned && j < poss_moves.len()
                    invariant
                        j <= ms.len(),
                        score_cache_ok(self.minax_cache@),
                        self.state@ == old(self).state@,
                        self.curr_player == old(self).curr_player,
                        self.my_pieces == old(self).my_pieces,
                        self.op_pieces == old(self).op_pieces,
                        self.cache_table == old(self).cache_table,
                        self.row == old(self).row && self.col == old(self).col,
                        self.my_side == old(self).my_side && self.op_side == old(self).op_side,
                        !pruned ==> mm_moves_max(
                            tg,
                            tp,
                            p.x as int,
                            p.y as int,
                            ms,
                            j as int,
                            depth as int,
                            alpha as int,
                            beta as int,
                            initial as int,
                        ) == mm_moves_max(
                            tg,
                            tp,
                            p.x as int,
                            p.y as int,
                            ms,
                            0,
                            depth as int,
                            a_in,
                            beta as int,
                            best_in,
                        ),
                        pruned ==> (initial as int, alpha as int) == mm_moves_max(
                            tg,
                            tp,
                            p.x as int,
                            p.y as int,
                            ms,
                            0,
                            depth as int,
                            a_in,
                            beta as int,
                            best_in,
                        ),
                    decreases ms.len() - j + (if pruned {
                        0int
                    } else {
                        1int
                    }),
                {
                    let mv = poss_moves[j];
                    let result = self.get_cache_score(
                        &temp_board.state,
                        temp_board.curr_player,
                        p,
                        mv,
                        depth - 1,
                        false,
                        alpha,
                        beta,
                    );
                    let _result: i32;
                    match result {
                        None => {
                            let mut sim_board = temp_board.clone_board();
                            sim_board.do_move(p, mv);
                            _result = self.minimax(sim_board, depth - 1, false, alpha, beta);
                            self.set_cache_score(
                                &temp_board.state,
                                temp_board.curr_player,
                                p,
                                mv,
                                depth - 1,
                                false,
                                alpha,
                                beta,
                                _result,
                            );
                        },
                        Some(_r) => {
                            if self.quix < 1000000000 {
                                self.quix = self.quix + 1;
                            }
                            _result = _r;
                        },
                    }
                    proof {
                        assert(_result as int == spec_minimax(
                            child_grid(tg, tp, p.x as int, p.y as int, mv.x as int, mv.y as int),
                            -tp,
                            depth as int - 1,
                            false,
                            alpha as int,
                            beta as int,
                        ));
                    }
                    let ghost al = alpha as int;
                    let ghost bl = initial as int;

                    if _result > initial {
                        initial = _result;
                    }
                    if initial > alpha {
                        alpha = initial;
                    }
                    proof {
                        assert(mm_moves_max(
                            tg,
                            tp,
                            p.x as int,
                            p.y as int,
                            ms,
                            j as int,
                            depth as int,
                            al,
                            beta as int,
                            bl,
                        ) == (if beta as int <= alpha as int {
                            (initial as int, alpha as int)
                        } else {
                            mm_moves_max(
                                tg,
                                tp,
                                p.x as int,
                                p.y as int,
                                ms,
                                j as int + 1,
                                depth as int,
                                alpha as int,
                                beta as int,
                                initial as int,
                            )
                        }));
                    }
                    if beta <= alpha {
                        pruned = true;
                    } else {
                        j += 1;
                    }
                }
                proof {
                    assert((initial as int, alpha as int) == mm_moves_max(
                        tg,
                        tp,
                        p.x as int,
                        p.y as int,
                        ms,
                        0,
                        depth as int,
                        a_in,
                        beta as int,
                        best_in,
                    ));
                    assert(target == mm_pieces_max(
                        tg,
                        tp,
                        ps,
                        i as int + 1,
                        depth as int,
                        alpha as int,
                        beta as int,
                        initial as int,
                    ));
                }
                i += 1;
            }
        } else {
            initial = 999999;

            let side = temp_board.curr_player;
            let all_pieces = temp_board.all_movable_pieces(side);
            let ghost ps = movable_of(tg, tp);
            proof {
                lemma_pieces_from_wf(tg, 0, 0, tp);
                lemma_movable_from_wf(tg, pieces_of(tg, tp), 0);
                assert forall|k2: int| 0 <= k2 < ps.len() implies in_bounds(
                    (#[trigger] ps[k2]).x as int,
                    ps[k2].y as int,
                ) by {
                    let pcs = pieces_of(tg, tp);
                    assert(pcs.contains(ps[k2]));
                    let q = choose|q: int| 0 <= q < pcs.len() && pcs[q] == ps[k2];
                    assert(in_bounds(pcs[q].x as int, pcs[q].y as int));
                }
            }

            let mut i: usize = 0;
            while i < all_pieces.len()
                invariant
                    i <= ps.len(),
                    score_cache_ok(self.minax_cache@),
                    self.state@ == old(self).state@,
                    self.curr_player == old(self).curr_player,
                    self.my_pieces == old(self).my_pieces,
                    self.op_pieces == old(self).op_pieces,
                    self.cache_table == old(self).cache_table,
                    self.row == old(self).row && self.col == old(self).col,
                    self.my_side == old(self).my_side && self.op_side == old(self).op_side,
                    target == mm_pieces_min(
                        tg,
                        tp,
                        ps,
                        i as int,
                        depth as int,
                        alpha as int,
                        beta as int,
                        initial as int,
                    ),
                decreases ps.len() - i,
            {
                let p = all_pieces[i];
                let poss_moves = temp_board.possible_moves(p, None);
                let ghost ms = spec_poss_moves(tg, p.x as int, p.y as int);
                let ghost b_in = beta as int;
                let ghost best_in = initial as int;
                proof {
                    lemma_poss_moves_shape(tg, p.x as int, p.y as int);
                }

                let mut pruned: bool = false;
                let mut j: usize = 0;
                while !pruned && j < poss_moves.len()
                    invariant
                        j <= ms.len(),
                        score_cache_ok(self.minax_cache@),
                        self.state@ == old(self).state@,
                        self.curr_player == old(self).curr_player,
                        self.my_pieces == old(self).my_pieces,
                        self.op_pieces == old(self).op_pieces,
                        self.cache_table == old(self).cache_table,
                        self.row == old(self).row && self.col == old(self).col,
                        self.my_side == old(self).my_side && self.op_side == old(self).op_side,
                        !pruned ==> mm_moves_min(
                            tg,
                            tp,
                            p.x as int,
                            p.y as int,
                            ms,
                            j as int,
                            depth as int,
                            alpha as int,
                            beta as int,
                            initial as int,
                        ) == mm_moves_min(
                            tg,
                            tp,
                            p.x as int,
                            p.y as int,
                            ms,
                            0,
                            depth as int,
                            alpha as int,
                            b_in,
                            best_in,
                        ),
                        pruned ==> (initial as int, beta as int) == mm_moves_min(
                            tg,
                            tp,
                            p.x as int,
                            p.y as int,
                            ms,
                            0,
                            depth as int,
                            alpha as int,
                            b_in,
                            best_in,
                        ),
                    decreases ms.len() - j + (if pruned {
                        0int
                    } else {
                        1int
                    }),
                {
                    let mv = poss_moves[j];
                    let result = self.get_cache_score(
                        &temp_board.state,
                        temp_board.curr_player,
                        p,
                        mv,
                        depth - 1,
                        true,
                        alpha,
                        beta,
                    );
                    let _result: i32;
                    match result {
                        None => {
                            let mut sim_board = temp_board.clone_board();
                            sim_board.do_move(p, mv);
                            _result = self.minimax(sim_board, depth - 1, true, alpha, beta);
                            self.set_cache_score(
                                &temp_board.state,
                                temp_board.curr_player,
                                p,
                                mv,
                                depth - 1,
                                true,
                                alpha,
                                beta,
                                _result,
                            );
                        },
                        Some(_r) => {
                            if self.quix < 1000000000 {
                                self.quix = self.quix + 1;
                            }
                            _result = _r;
                        },
                    }
                    proof {
                        assert(_result as int == spec_minimax(
                            child_grid(tg, tp, p.x as int, p.y as int, mv.x as int, mv.y as int),
                            -tp,
                            depth as int - 1,
                            true,
                            alpha as int,
                            beta as int,
                        ));
                    }
                    let ghost bl = beta as int;
                    let ghost il = initial as int;

                    if _result < initial {
                        initial = _result;
                    }
                    if initial < beta {
                        beta = initial;
                    }
                    proof {
                        assert(mm_moves_min(
                            tg,
                            tp,
                            p.x as int,
                            p.y as int,
                            ms,
                            j as int,
                            depth as int,
                            alpha as int,
                            bl,
                            il,
                        ) == (if beta as int <= alpha as int {
                            (initial as int, beta as int)
                        } else {
                            mm_moves_min(
                                tg,
                                tp,
                                p.x as int,
                                p.y as int,
                                ms,
                                j as int + 1,
                                depth as int,
                                alpha as int,
                                beta as int,
                                initial as int,
                            )
                        }));
                    }
                    if beta <= alpha {
                        pruned = true;
                    } else {
                        j += 1;
                    }
                }
                proof {
                    assert((initial as int, beta as int) == mm_moves_min(
                        tg,
                        tp,
                        p.x as int,
                        p.y as int,
                        ms,
                        0,
                        depth as int,
                        alpha as int,
                        b_in,
                        best_in,
                    ));
                    assert(target == mm_pieces_min(
                        tg,
                        tp,
                        ps,
                        i as int + 1,
                        depth as int,
                        alpha as int,
                        beta as int,
                        initial as int,
                    ));
                }
                i += 1;
            }
        }
        initial
    }

    /// Scores every candidate move of one piece at the root, reusing
    /// remembered scores where the parameters match exactly.
    #[verifier::loop_isolation(false)]
    fn get_poss_moves(&mut self, _piece: Pos) -> (r: Vec<(i32, Pos, Pos)>)
        requires
            old(self).wf(),
            score_cache_ok(old(self).minax_cache@),
            in_bounds(_piece.x as int, _piece.y as int),
        ensures
            final(self).wf(),
            score_cache_ok(final(self).minax_cache@),
            final(self).state@ == old(self).state@,
            final(self).curr_player == old(self).curr_player,
            final(self).cache_table == old(self).cache_table,
            r@.len() == spec_poss_moves(old(self).g(), _piece.x as int, _piece.y as int).len(),
            forall|k: int|
                0 <= k < r@.len() ==> (#[trigger] r@[k]).1 == _piece && r@[k].2 == spec_poss_moves(
                    old(self).g(),
                    _piece.x as int,
                    _piece.y as int,
                )[k] && r@[k].0 as int == spec_move_score(
                    old(self).g(),
                    old(self).curr_player as int,
                    _piece.x as int,
                    _piece.y as int,
                    spec_poss_moves(old(self).g(), _piece.x as int, _piece.y as int)[k].x as int,
                    spec_poss_moves(old(self).g(), _piece.x as int, _piece.y as int)[k].y as int,
                ),
    {
        let alpha: i32 = -999999;
        let beta: i32 = 999999;

        let mut all_scores: Vec<(i32, Pos, Pos)> = Vec::new();

        let ghost g = self.g();
        let ghost player = self.curr_player as int;

        let poss_moves = self.possible_moves(_piece, None);
        let ghost ms = spec_poss_moves(g, _piece.x as int, _piece.y as int);
        proof {
            lemma_poss_moves_shape(g, _piece.x as int, _piece.y as int);
        }

        let mut i: usize = 0;
        while i < poss_moves.len()
            invariant
                i <= ms.len(),
                all_scores@.len() == i,
                self.wf(),
                score_cache_ok(self.minax_cache@),
                self.state@ == old(self).state@,
                self.curr_player == old(self).curr_player,
                self.my_pieces == old(self).my_pieces,
                self.op_pieces == old(self).op_pieces,
                self.cache_table == old(self).cache_table,
                self.row == old(self).row && self.col == old(self).col,
                self.my_side == old(self).my_side && self.op_side == old(self).op_side,
                forall|k: int|
                    0 <= k < i ==> (#[trigger] all_scores@[k]).1 == _piece && all_scores@[k].2
                        == ms[k] && all_scores@[k].0 as int == spec_move_score(
                        g,
                        player,
                        _piece.x as int,
                        _piece.y as int,
                        ms[k].x as int,
                        ms[k].y as int,
                    ),
            decreases ms.len() - i,
        {
            let mv = poss_moves[i];

            let score = self.get_cache_score(
                &self.state,
                self.curr_player,
                _piece,
                mv,
                9,
                false,
                alpha,
                beta,
            );

            match score {
                Some(_s) => {
                    all_scores.push((_s, _piece, mv));
                },
                None => {
                    let mut temp_board = self.clone_board();
                    temp_board.do_move(_piece, mv);
                    let _score = self.minimax(temp_board, 9, false, alpha, beta);
                    all_scores.push((_score, _piece, mv));
                    let st = copy_grid(&self.state);
                    self.set_cache_score(
                        &st,
                        self.curr_player,
                        _piece,
                        mv,
                        9,
                        false,
                        alpha,
                        beta,
                        _score,
                    );
                },
            }
            i += 1;
        }
        all_scores
    }

    /// Remembers the chosen move for the current position; only the
    /// move the search chooses may be stored.
    fn set_cache_state(&mut self, _piece: Pos, next_pos: Pos)
        requires
            old(self).wf(),
            move_cache_ok(old(self).cache_table@),
            _piece.x == spec_ultimate(old(self).g(), old(self).curr_player as int).1.x,
            _piece.y == spec_ultimate(old(self).g(), old(self).curr_player as int).1.y,
            next_pos.x == spec_ultimate(old(self).g(), old(self).curr_player as int).2.x,
            next_pos.y == spec_ultimate(old(self).g(), old(self).curr_player as int).2.y,
        ensures
            move_cache_ok(final(self).cache_table@),
            final(self).state@ == old(self).state@,
            final(self).curr_player == old(self).curr_player,
            final(self).my_pieces == old(self).my_pieces,
            final(self).op_pieces == old(self).op_pieces,
            final(self).minax_cache == old(self).minax_cache,
            final(self).quix == old(self).quix,
            final(self).row == old(self).row && final(self).col == old(self).col,
            final(self).my_side == old(self).my_side && final(self).op_side == old(self).op_side,
    {
        let st = copy_grid(&self.state);
        let e = MoveEntry {
            state: st,
            player: self.curr_player,
            px: _piece.x,
            py: _piece.y,
            nx: next_pos.x,
            ny: next_pos.y,
        };
        proof {
            assert(gv(e.state@) == gv(self.state@));
            assert(move_entry_ok(e));
        }
        self.cache_table.push(e);
        proof {
            assert forall|k: int| 0 <= k < self.cache_table@.len() implies move_entry_ok(
                #[trigger] self.cache_table@[k],
            ) by {
                if k < old(self).cache_table@.len() {
                    assert(move_entry_ok(old(self).cache_table@[k]));
                }
            }
        }
    }

    /// The move remembered for the current position: present exactly
    /// when the cache holds an entry for this grid and side, and then
    /// exactly the move the search would choose.
    pub fn get_cache_state(&mut self) -> (r: (Option<Pos>, Option<Pos>))
        requires
            old(self).wf(),
            move_cache_ok(old(self).cache_table@),
        ensures
            *final(self) == *old(self),
            match r {
                (Some(p), Some(n)) => {
                    let u = spec_ultimate(old(self).g(), old(self).curr_player as int);
                    p.x == u.1.x && p.y == u.1.y && p.piece is None && n.x == u.2.x && n.y == u.2.y
                        && n.piece is None
                },
                (None, None) => true,
                _ => false,
            },
            r.0 is Some <==> exists|k: int|
                0 <= k < old(self).cache_table@.len() && gv(
                    (#[trigger] old(self).cache_table@[k]).state@,
                ) == old(self).g() && old(self).cache_table@[k].player == old(self).curr_player,
    {
        let mut i: usize = 0;
        while i < self.cache_table.len()
            invariant
                *self == *old(self),
                move_cache_ok(self.cache_table@),
                i <= self.cache_table@.len(),
                forall|k: int|
                    0 <= k < i ==> !(gv((#[trigger] self.cache_table@[k]).state@) == self.g()
                        && self.cache_table@[k].player == self.curr_player),
            decreases self.cache_table@.len() - i,
        {
            let e = &self.cache_table[i];
            if e.player == self.curr_player && grid_eq(&e.state, &self.state) {
                proof {
                    assert(move_entry_ok(self.cache_table@[i as int]));
                    assert(gv(e.state@) == gv(self.state@));
                    assert(gv(self.cache_table@[i as int].state@) == self.g()
                        && self.cache_table@[i as int].player == self.curr_player);
                }
                return (Some(Pos::new(e.px, e.py, None)), Some(Pos::new(e.nx, e.ny, None)));
            }
            i += 1;
        }
        (None, None)
    }

    /// The computer's move: every candidate of every movable piece is
    /// scored by the search, the strictly best score winning, first
    /// found keeping ties; the choice is remembered for the position.
    #[verifier::loop_isolation(false)]
    pub fn ultimate_move(&mut self) -> (r: (Pos, Pos))
        requires
            old(self).wf(),
            old(self).caches_ok(),
        ensures
            final(self).wf(),
            final(self).caches_ok(),
            final(self).state@ == old(self).state@,
            final(self).curr_player == old(self).curr_player,
            r.0 == spec_ultimate(old(self).g(), old(self).curr_player as int).1,
            r.1 == spec_ultimate(old(self).g(), old(self).curr_player as int).2,
    {
        let ghost g = self.g();
        let ghost player = self.curr_player as int;
        let ghost u = spec_ultimate(g, player);

        let mut best_score: i32 = -999999;
        let mut _piece: Pos = Pos::new(0, 0, None);
        let mut next_pos: Pos = Pos::new(0, 0, None);

        let side = self.curr_player;
        let all_pieces = self.all_movable_pieces(side);
        let ghost ps = movable_of(g, player);
        proof {
            lemma_pieces_from_wf(g, 0, 0, player);
            lemma_movable_from_wf(g, pieces_of(g, player), 0);
            assert forall|k2: int| 0 <= k2 < ps.len() implies in_bounds(
                (#[trigger] ps[k2]).x as int,
                ps[k2].y as int,
            ) by {
                let pcs = pieces_of(g, player);
                assert(pcs.contains(ps[k2]));
                let q = choose|q: int| 0 <= q < pcs.len() && pcs[q] == ps[k2];
                assert(in_bounds(pcs[q].x as int, pcs[q].y as int));
            }
        }

        let mut i: usize = 0;
        while i < all_pieces.len()
            invariant
                i <= ps.len(),
                self.wf(),
                score_cache_ok(self.minax_cache@),
                move_cache_ok(self.cache_table@),
                self.state@ == old(self).state@,
                self.curr_player == old(self).curr_player,
                self.cache_table == old(self).cache_table,
                u == spec_ult_pieces(g, player, ps, i as int, best_score as int, _piece, next_pos),
            decreases ps.len() - i,
        {
            let p = all_pieces[i];
            let moves = self.get_poss_moves(p);
            let ghost ms = spec_poss_moves(g, p.x as int, p.y as int);
            let ghost bs0 = best_score as int;
            let ghost bp0 = _piece;
            let ghost bn0 = next_pos;

            let mut j: usize = 0;
            while j < moves.len()
                invariant
                    j <= ms.len(),
                    spec_ult_moves(g, player, p, ms, 0, bs0, bp0, bn0) == spec_ult_moves(
                        g,
                        player,
                        p,
                        ms,
                        j as int,
                        best_score as int,
                        _piece,
                        next_pos,
                    ),
                decreases ms.len() - j,
            {
                let ghost sb = best_score as int;
                let ghost sp = _piece;
                let ghost sn = next_pos;
                if moves[j].0 > best_score {
                    best_score = moves[j].0;
                    _piece = moves[j].1;
                    next_pos = moves[j].2;
                }
                proof {
                    assert(spec_ult_moves(g, player, p, ms, j as int, sb, sp, sn)
                        == spec_ult_moves(
                        g,
                        player,
                        p,
                        ms,
                        j as int + 1,
                        best_score as int,
                        _piece,
                        next_pos,
                    ));
                }
                j += 1;
            }
            proof {
                assert(spec_ult_pieces(g, player, ps, i as int, bs0, bp0, bn0)
                    == spec_ult_pieces(
                    g,
                    player,
                    ps,
                    i as int + 1,
                    best_score as int,
                    _piece,
                    next_pos,
                ));
            }
            i += 1;
        }

        self.set_cache_state(_piece, next_pos);

        (_piece, next_pos)
    }
}

} // verus!

