//! The no-search move cascade: forced capture, safety trade, edge
//! preference, and a random fallback that avoids capturable
//! destinations when it can.

use vstd::prelude::*;

use rand::Rng;

use crate::board::{Board, Pos};
use crate::model::{
    first_cap_from, in_bounds, lemma_first_cap_in_range, lemma_movable_from_wf,
    lemma_pieces_from_wf, movable_from, movable_of, pieces_of, spec_poss_moves, Grid,
};

verus! {

/// The first candidate at or after `k` that lands on an edge column.
pub open spec fn find_edge_from(ms: Seq<Pos>, k: int) -> Option<int>
    decreases ms.len() - k when 0 <= k <= ms.len()
{
    if k >= ms.len() {
        None
    } else if ms[k].y == 0 || ms[k].y == 7 {
        Some(k)
    } else {
        find_edge_from(ms, k + 1)
    }
}

pub proof fn lemma_find_edge_in_range(ms: Seq<Pos>, k: int)
    requires
        0 <= k <= ms.len(),
    ensures
        find_edge_from(ms, k) matches Some(i) ==> k <= i < ms.len(),
    decreases ms.len() - k,
{
    if k < ms.len() && !(ms[k].y == 0 || ms[k].y == 7) {
        lemma_find_edge_in_range(ms, k + 1);
    }
}

/// The first movable piece from `i` on that has a capture available,
/// with its first capturing candidate.
pub open spec fn first_prior_from(g: Grid, ps: Seq<Pos>, i: int) -> Option<(Pos, Pos)>
    decreases ps.len() - i when 0 <= i <= ps.len()
{
    if i >= ps.len() {
        None
    } else {
        let ms = spec_poss_moves(g, ps[i].x as int, ps[i].y as int);
        match first_cap_from(ms, 0) {
            Some(j) => Some((ps[i], ms[j])),
            None => first_prior_from(g, ps, i + 1),
        }
    }
}

pub open spec fn spec_first_prior(g: Grid, player: int) -> Option<(Pos, Pos)> {
    first_prior_from(g, movable_of(g, player), 0)
}

/// The first pair of candidate lists sharing a destination that both
/// sides could capture into, in scan order.
pub open spec fn shared_cap_xy(my_ms: Seq<Pos>, op_ms: Seq<Pos>, x: int, y: int) -> Option<(int, int)>
    decreases my_ms.len() - x, op_ms.len() - y when 0 <= x <= my_ms.len() && 0 <= y <= op_ms.len()
{
    if x >= my_ms.len() {
        None
    } else if y >= op_ms.len() {
        shared_cap_xy(my_ms, op_ms, x + 1, 0)
    } else if my_ms[x].x == op_ms[y].x && my_ms[x].y == op_ms[y].y && my_ms[x].piece is Some
        && op_ms[y].piece is Some {
        Some((x, y))
    } else {
        shared_cap_xy(my_ms, op_ms, x, y + 1)
    }
}

pub proof fn lemma_shared_cap_in_range(my_ms: Seq<Pos>, op_ms: Seq<Pos>, x: int, y: int)
    requires
        0 <= x <= my_ms.len(),
        0 <= y <= op_ms.len(),
    ensures
        shared_cap_xy(my_ms, op_ms, x, y) matches Some(xy) ==> 0 <= xy.0 < my_ms.len() && 0 <= xy.1
            < op_ms.len(),
    decreases my_ms.len() - x, op_ms.len() - y,
{
    if x >= my_ms.len() {
    } else if y >= op_ms.len() {
        lemma_shared_cap_in_range(my_ms, op_ms, x + 1, 0);
    } else if my_ms[x].x == op_ms[y].x && my_ms[x].y == op_ms[y].y && my_ms[x].piece is Some
        && op_ms[y].piece is Some {
    } else {
        lemma_shared_cap_in_range(my_ms, op_ms, x, y + 1);
    }
}

/// The first pair of one plus-side and one minus-side movable piece
/// whose candidates share such a destination; the side to move takes
/// its own piece and capturing candidate of that pair.
pub open spec fn second_prior_from(g: Grid, player: int, mps: Seq<Pos>, ops: Seq<Pos>, i: int, j: int) -> Option<(Pos, Pos)>
    decreases mps.len() - i, ops.len() - j when 0 <= i <= mps.len() && 0 <= j <= ops.len()
{
    if i >= mps.len() {
        None
    } else if j >= ops.len() {
        second_prior_from(g, player, mps, ops, i + 1, 0)
    } else {
        let my_ms = spec_poss_moves(g, mps[i].x as int, mps[i].y as int);
        let op_ms = spec_poss_moves(g, ops[j].x as int, ops[j].y as int);
        match shared_cap_xy(my_ms, op_ms, 0, 0) {
            Some(xy) => if player == -1 {
                Some((ops[j], op_ms[xy.1]))
            } else {
                Some((mps[i], my_ms[xy.0]))
            },
            None => second_prior_from(g, player, mps, ops, i, j + 1),
        }
    }
}

pub open spec fn spec_second_prior(g: Grid, player: int) -> Option<(Pos, Pos)> {
    second_prior_from(g, player, movable_of(g, 1), movable_of(g, -1), 0, 0)
}

/// The first movable piece from `i` on with a candidate landing on
/// column 0 or 7, with that candidate.
pub open spec fn side_prior_from(g: Grid, ps: Seq<Pos>, i: int) -> Option<(Pos, Pos)>
    decreases ps.len() - i when 0 <= i <= ps.len()
{
    if i >= ps.len() {
        None
    } else {
        let ms = spec_poss_moves(g, ps[i].x as int, ps[i].y as int);
        match find_edge_from(ms, 0) {
            Some(j) => Some((ps[i], ms[j])),
            None => side_prior_from(g, ps, i + 1),
        }
    }
}

pub open spec fn spec_side_prior(g: Grid, player: int) -> Option<(Pos, Pos)> {
    side_prior_from(g, movable_of(g, player), 0)
}

/// Relies on rand::thread_rng and rand::Rng::gen_range: a random index
/// strictly below `n`; nothing else is assumed of its distribution.
#[verifier::external_body]
fn rand_below(n: usize) -> (r: usize)
    requires
        n > 0,
    ensures
        r < n,
{
    rand::thread_rng().gen_range(0..n)
}

/// The first index at or after `k` whose candidate captures.
fn first_capture_index(v: &Vec<Pos>) -> (r: Option<usize>)
    ensures
        match r {
            Some(j) => first_cap_from(v@, 0) == Some(j as int),
            None => first_cap_from(v@, 0) is None,
        },
{
    let mut j: usize = 0;
    while j < v.len()
        invariant
            j <= v@.len(),
            first_cap_from(v@, 0) == first_cap_from(v@, j as int),
        decreases v@.len() - j,
    {
        if v[j].piece.is_some() {
            return Some(j);
        }
        j += 1;
    }
    None
}

/// The first index at or after `k` whose candidate lands on an edge.
fn first_edge_index(v: &Vec<Pos>) -> (r: Option<usize>)
    ensures
        match r {
            Some(j) => find_edge_from(v@, 0) == Some(j as int),
            None => find_edge_from(v@, 0) is None,
        },
{
    let mut j: usize = 0;
    while j < v.len()
        invariant
            j <= v@.len(),
            find_edge_from(v@, 0) == find_edge_from(v@, j as int),
        decreases v@.len() - j,
    {
        if v[j].y == 0 || v[j].y == 7 {
            return Some(j);
        }
        j += 1;
    }
    None
}

/// The first shared capturable destination of two candidate lists.
fn find_shared_capture(my_moves: &Vec<Pos>, op_moves: &Vec<Pos>) -> (r: Option<(usize, usize)>)
    ensures
        match r {
            Some(xy) => shared_cap_xy(my_moves@, op_moves@, 0, 0) == Some(
                (xy.0 as int, xy.1 as int),
            ),
            None => shared_cap_xy(my_moves@, op_moves@, 0, 0) is None,
        },
{
    let mut x: usize = 0;
    while x < my_moves.len()
        invariant
            x <= my_moves@.len(),
            shared_cap_xy(my_moves@, op_moves@, 0, 0) == shared_cap_xy(
                my_moves@,
                op_moves@,
                x as int,
                0,
            ),
        decreases my_moves@.len() - x,
    {
        let mut y: usize = 0;
        while y < op_moves.len()
            invariant
                x < my_moves@.len(),
                y <= op_moves@.len(),
                shared_cap_xy(my_moves@, op_moves@, 0, 0) == shared_cap_xy(
                    my_moves@,
                    op_moves@,
                    x as int,
                    y as int,
                ),
            decreases op_moves@.len() - y,
        {
            let a = my_moves[x];
            let b = op_moves[y];
            if a.x == b.x && a.y == b.y && a.piece.is_some() && b.piece.is_some() {
                return Some((x, y));
            }
            y += 1;
        }
        x += 1;
    }
    None
}

impl Board {
    /// Forced capture: the first movable piece with a capture, and its
    /// first capturing candidate.
    #[verifier::loop_isolation(false)]
    fn first_prior(&mut self) -> (r: (Option<Pos>, Option<Pos>))
        requires
            old(self).wf(),
        ensures
            final(self).wf(),
            final(self).state@ == old(self).state@,
            final(self).curr_player == old(self).curr_player,
            final(self).cache_table == old(self).cache_table,
            final(self).minax_cache == old(self).minax_cache,
            final(self).quix == old(self).quix,
            match spec_first_prior(old(self).g(), old(self).curr_player as int) {
                Some(pn) => r == (Some(pn.0), Some(pn.1)),
                None => r == (None::<Pos>, None::<Pos>),
            },
    {
        let ghost g = self.g();
        let ghost player = self.curr_player as int;

        let side = self.curr_player;
        let all_pieces = self.all_movable_pieces(side);
        let ghost ps = movable_of(g, player);
        proof {
            lemma_pieces_from_wf(g, 0, 0, player);
            lemma_movable_from_wf(g, pieces_of(g, player), 0);
            assert forall|k2: int| 0 <= k2 < ps.len() implies in_bounds(
                (#[trigger] ps[k2]).x as int,
                ps[k2].y as int,
            ) by {
                let pcs = pieces_of(g, player);
                assert(pcs.contains(ps[k2]));
                let q = choose|q: int| 0 <= q < pcs.len() && pcs[q] == ps[k2];
                assert(in_bounds(pcs[q].x as int, pcs[q].y as int));
            }
        }

        let mut i: usize = 0;
        while i < all_pieces.len()
            invariant
                self.wf(),
                self.g() == g,
                self.state@ == old(self).state@,
                self.curr_player == old(self).curr_player,
                self.cache_table == old(self).cache_table,
                self.minax_cache == old(self).minax_cache,
                self.quix == old(self).quix,
                all_pieces@ == ps,
                forall|k2: int|
                    0 <= k2 < ps.len() ==> in_bounds((#[trigger] ps[k2]).x as int, ps[k2].y as int),
                i <= ps.len(),
                first_prior_from(g, ps, 0) == first_prior_from(g, ps, i as int),
            decreases ps.len() - i,
        {
            let p = all_pieces[i];
            let poss_moves = self.possible_moves(p, None);
            match first_capture_index(&poss_moves) {
                Some(j) => {
                    proof {
                        lemma_first_cap_in_range(poss_moves@, 0);
                        assert(p == ps[i as int]);
                        assert(first_prior_from(g, ps, i as int) == Some(
                            (ps[i as int], poss_moves@[j as int]),
                        ));
                    }
                    return (Some(p), Some(poss_moves[j]));
                },
                None => {
                    proof {
                        assert(first_prior_from(g, ps, i as int) == first_prior_from(
                            g,
                            ps,
                            i as int + 1,
                        ));
                    }
                },
            }
            i += 1;
        }
        (None, None)
    }

    /// Safety trade: the first shared capturable destination of both
    /// sides; the side to move takes its own piece of that pair.
    #[verifier::loop_isolation(false)]
    fn second_prior(&mut self) -> (r: (Option<Pos>, Option<Pos>))
        requires
            old(self).wf(),
        ensures
            final(self).wf(),
            final(self).state@ == old(self).state@,
            final(self).curr_player == old(self).curr_player,
            final(self).cache_table == old(self).cache_table,
            final(self).minax_cache == old(self).minax_cache,
            final(self).quix == old(self).quix,
            match spec_second_prior(old(self).g(), old(self).curr_player as int) {
                Some(pn) => r == (Some(pn.0), Some(pn.1)),
                None => r == (None::<Pos>, None::<Pos>),
            },
    {
        let ghost g = self.g();
        let ghost player = self.curr_player as int;

        let my_side = self.my_side;
        let op_side = self.op_side;
        let my_pieces = self.all_movable_pieces(my_side);
        let op_pieces = self.all_movable_pieces(op_side);
        let ghost mps = movable_of(g, 1);
        let ghost ops = movable_of(g, -1);
        proof {
            lemma_pieces_from_wf(g, 0, 0, 1);
            lemma_movable_from_wf(g, pieces_of(g, 1), 0);
            lemma_pieces_from_wf(g, 0, 0, -1);
            lemma_movable_from_wf(g, pieces_of(g, -1), 0);
            assert forall|k2: int| 0 <= k2 < mps.len() implies in_bounds(
                (#[trigger] mps[k2]).x as int,
                mps[k2].y as int,
            ) by {
                let pcs = pieces_of(g, 1);
                assert(pcs.contains(mps[k2]));
                let q = choose|q: int| 0 <= q < pcs.len() && pcs[q] == mps[k2];
                assert(in_bounds(pcs[q].x as int, pcs[q].y as int));
            }
            assert forall|k2: int| 0 <= k2 < ops.len() implies in_bounds(
                (#[trigger] ops[k2]).x as int,
                ops[k2].y as int,
            ) by {
                let pcs = pieces_of(g, -1);
                assert(pcs.contains(ops[k2]));
                let q = choose|q: int| 0 <= q < pcs.len() && pcs[q] == ops[k2];
                assert(in_bounds(pcs[q].x as int, pcs[q].y as int));
            }
        }

        let mut i: usize = 0;
        while i < my_pieces.len()
            invariant
                self.wf(),
                self.g() == g,
                self.state@ == old(self).state@,
                self.curr_player == old(self).curr_player,
                self.curr_player as int == player,
                self.cache_table == old(self).cache_table,
                self.minax_cache == old(self).minax_cache,
                self.quix == old(self).quix,
                my_pieces@ == mps,
                op_pieces@ == ops,
                forall|k2: int|
                    0 <= k2 < mps.len() ==> in_bounds(
                        (#[trigger] mps[k2]).x as int,
                        mps[k2].y as int,
                    ),
                forall|k2: int|
                    0 <= k2 < ops.len() ==> in_bounds(
                        (#[trigger] ops[k2]).x as int,
                        ops[k2].y as int,
                    ),
                i <= mps.len(),
                second_prior_from(g, player, mps, ops, 0, 0) == second_prior_from(
                    g,
                    player,
                    mps,
                    ops,
                    i as int,
                    0,
                ),
            decreases mps.len() - i,
        {
            let mut j: usize = 0;
            while j < op_pieces.len()
                invariant
                    self.wf(),
                    self.g() == g,
                    self.state@ == old(self).state@,
                    self.curr_player == old(self).curr_player,
                    self.curr_player as int == player,
                    self.cache_table == old(self).cache_table,
                    self.minax_cache == old(self).minax_cache,
                    self.quix == old(self).quix,
                    my_pieces@ == mps,
                    op_pieces@ == ops,
                    forall|k2: int|
                        0 <= k2 < mps.len() ==> in_bounds(
                            (#[trigger] mps[k2]).x as int,
                            mps[k2].y as int,
                        ),
                    forall|k2: int|
                        0 <= k2 < ops.len() ==> in_bounds(
                            (#[trigger] ops[k2]).x as int,
                            ops[k2].y as int,
                        ),
                    i < mps.len(),
                    j <= ops.len(),
                    second_prior_from(g, player, mps, ops, 0, 0) == second_prior_from(
                        g,
                        player,
                        mps,
                        ops,
                        i as int,
                        j as int,
                    ),
                decreases ops.len() - j,
            {
                let mp = my_pieces[i];
                let op = op_pieces[j];
                let my_moves = self.possible_moves(mp, None);
                let op_moves = self.possible_moves(op, None);
                match find_shared_capture(&my_moves, &op_moves) {
                    Some((x, y)) => {
                        proof {
                            lemma_shared_cap_in_range(my_moves@, op_moves@, 0, 0);
                            assert(mp == mps[i as int] && op == ops[j as int]);
                            assert(second_prior_from(g, player, mps, ops, i as int, j as int)
                                == (if player == -1 {
                                Some((ops[j as int], op_moves@[y as int]))
                            } else {
                                Some((mps[i as int], my_moves@[x as int]))
                            }));
                        }
                        if self.curr_player == op_side {
                            return (Some(op), Some(op_moves[y]));
                        } else {
                            return (Some(mp), Some(my_moves[x]));
                        }
                    },
                    None => {
                        proof {
                            assert(second_prior_from(g, player, mps, ops, i as int, j as int)
                                == second_prior_from(g, player, mps, ops, i as int, j as int + 1));
                        }
                    },
                }
                j += 1;
            }
            proof {
                assert(second_prior_from(g, player, mps, ops, i as int, ops.len() as int)
                    == second_prior_from(g, player, mps, ops, i as int + 1, 0));
            }
            i += 1;
        }
        (None, None)
    }

    /// Edge preference: the first movable piece with a candidate
    /// landing on column 0 or 7.
    #[verifier::loop_isolation(false)]
    fn side_prior(&mut self) -> (r: (Option<Pos>, Option<Pos>))
        requires
            old(self).wf(),
        ensures
            final(self).wf(),
            final(self).state@ == old(self).state@,
            final(self).curr_player == old(self).curr_player,
            final(self).cache_table == old(self).cache_table,
            final(self).minax_cache == old(self).minax_cache,
            final(self).quix == old(self).quix,
            match spec_side_prior(old(self).g(), old(self).curr_player as int) {
                Some(pn) => r == (Some(pn.0), Some(pn.1)),
                None => r == (None::<Pos>, None::<Pos>),
            },
    {
        let ghost g = self.g();
        let ghost player = self.curr_player as int;

        let side = self.curr_player;
        let all_pieces = self.all_movable_pieces(side);
        let ghost ps = movable_of(g, player);
        proof {
            lemma_pieces_from_wf(g, 0, 0, player);
            lemma_movable_from_wf(g, pieces_of(g, player), 0);
            assert forall|k2: int| 0 <= k2 < ps.len() implies in_bounds(
                (#[trigger] ps[k2]).x as int,
                ps[k2].y as int,
            ) by {
                let pcs = pieces_of(g, player);
                assert(pcs.contains(ps[k2]));
                let q = choose|q: int| 0 <= q < pcs.len() && pcs[q] == ps[k2];
                assert(in_bounds(pcs[q].x as int, pcs[q].y as int));
            }
        }

        let mut i: usize = 0;
        while i < all_pieces.len()
            invariant
                self.wf(),
                self.g() == g,
                self.state@ == old(self).state@,
                self.curr_player == old(self).curr_player,
                self.cache_table == old(self).cache_table,
                self.minax_cache == old(self).minax_cache,
                self.quix == old(self).quix,
                all_pieces@ == ps,
                forall|k2: int|
                    0 <= k2 < ps.len() ==> in_bounds((#[trigger] ps[k2]).x as int, ps[k2].y as int),
                i <= ps.len(),
                side_prior_from(g, ps, 0) == side_prior_from(g, ps, i as int),
            decreases ps.len() - i,
        {
            let p = all_pieces[i];
            let poss_moves = self.possible_moves(p, None);
            match first_edge_index(&poss_moves) {
                Some(j) => {
                    proof {
                        lemma_find_edge_in_range(poss_moves@, 0);
                        assert(p == ps[i as int]);
                        assert(side_prior_from(g, ps, i as int) == Some(
                            (ps[i as int], poss_moves@[j as int]),
                        ));
                    }
                    return (Some(p), Some(poss_moves[j]));
                },
                None => {
                    proof {
                        assert(side_prior_from(g, ps, i as int) == side_prior_from(
                            g,
                            ps,
                            i as int + 1,
                        ));
                    }
                },
            }
            i += 1;
        }
        (None, None)
    }

    /// Safe random fallback: a random movable piece and one of its
    /// candidates, redrawn while an opponent piece could capture into
    /// the destination, up to as many times as there are movable
    /// pieces; the last draw is kept regardless.
    #[verifier::loop_isolation(false)]
    fn third_prior(&mut self) -> (r: (Pos, Pos))
        requires
            old(self).wf(),
        ensures
            final(self).wf(),
            final(self).state@ == old(self).state@,
            final(self).curr_player == old(self).curr_player,
            final(self).cache_table == old(self).cache_table,
            final(self).minax_cache == old(self).minax_cache,
            final(self).quix == old(self).quix,
            movable_of(old(self).g(), old(self).curr_player as int).len() == 0 ==> r.0 == (Pos {
                x: 0,
                y: 0,
                piece: None,
            }) && r.1 == (Pos { x: 0, y: 0, piece: None }),
            movable_of(old(self).g(), old(self).curr_player as int).len() > 0 ==> movable_of(
                old(self).g(),
                old(self).curr_player as int,
            ).contains(r.0) && spec_poss_moves(old(self).g(), r.0.x as int, r.0.y as int).contains(
                r.1,
            ),
    {
        let ghost g = self.g();
        let ghost player = self.curr_player as int;
        let ghost mlen = movable_of(g, player).len();

        let mut _piece: Pos = Pos::new(0, 0, None);
        let mut next_pos: Pos = Pos::new(0, 0, None);

        let mut count: usize = 1;
        let mut stop: bool = false;

        proof {
            lemma_pieces_from_wf(g, 0, 0, player);
            lemma_movable_from_wf(g, pieces_of(g, player), 0);
            crate::eval::lemma_pieces_len(g, 0, 0, player);
        }

        while !stop
            invariant
                self.wf(),
                self.g() == g,
                self.state@ == old(self).state@,
                self.curr_player == old(self).curr_player,
                self.curr_player as int == player,
                self.cache_table == old(self).cache_table,
                self.minax_cache == old(self).minax_cache,
                self.quix == old(self).quix,
                mlen == movable_of(g, player).len(),
                1 <= count <= mlen + 1,
                mlen == 0 ==> _piece == (Pos { x: 0, y: 0, piece: None }) && next_pos == (Pos {
                    x: 0,
                    y: 0,
                    piece: None,
                }),
                stop ==> (mlen > 0 ==> movable_of(g, player).contains(_piece) && spec_poss_moves(
                    g,
                    _piece.x as int,
                    _piece.y as int,
                ).contains(next_pos)),
            decreases (if stop {
                0int
            } else {
                mlen + 2 - count
            }),
        {
            let mut found: bool = false;

            let side = self.curr_player;
            let all_pieces = self.all_movable_pieces(side);
            let ghost ps = movable_of(g, player);
            proof {
                lemma_pieces_from_wf(g, 0, 0, player);
                lemma_movable_from_wf(g, pieces_of(g, player), 0);
                assert forall|k2: int| 0 <= k2 < ps.len() implies in_bounds(
                    (#[trigger] ps[k2]).x as int,
                    ps[k2].y as int,
                ) by {
                    let pcs = pieces_of(g, player);
                    assert(pcs.contains(ps[k2]));
                    let q = choose|q: int| 0 <= q < pcs.len() && pcs[q] == ps[k2];
                    assert(in_bounds(pcs[q].x as int, pcs[q].y as int));
                }
            }

            if all_pieces.len() > 0 {
                let idx = rand_below(all_pieces.len());
                _piece = all_pieces[idx];
                proof {
                    lemma_pieces_from_wf(g, 0, 0, player);
                    lemma_movable_from_wf(g, pieces_of(g, player), 0);
                    assert(_piece == movable_from(g, pieces_of(g, player), 0)[idx as int]);
                    assert(ps[idx as int] == _piece);
                    assert(ps.contains(_piece));
                }

                let all_moves = self.possible_moves(_piece, None);
                proof {
                    assert(spec_poss_moves(g, _piece.x as int, _piece.y as int).len() > 0);
                }
                let mv_idx = rand_below(all_moves.len());
                next_pos = all_moves[mv_idx];
                proof {
                    assert(spec_poss_moves(g, _piece.x as int, _piece.y as int).contains(next_pos));
                }

                let op_side = if side == 1 {
                    -1
                } else {
                    1
                };
                let op_pieces = self.all_movable_pieces(op_side);
                let ghost opl = movable_of(g, op_side as int);
                proof {
                    lemma_pieces_from_wf(g, 0, 0, op_side as int);
                    lemma_movable_from_wf(g, pieces_of(g, op_side as int), 0);
                    assert forall|k2: int| 0 <= k2 < opl.len() implies in_bounds(
                        (#[trigger] opl[k2]).x as int,
                        opl[k2].y as int,
                    ) by {
                        let pcs = pieces_of(g, op_side as int);
                        assert(pcs.contains(opl[k2]));
                        let q = choose|q: int| 0 <= q < pcs.len() && pcs[q] == opl[k2];
                        assert(in_bounds(pcs[q].x as int, pcs[q].y as int));
                    }
                }

                let mut i: usize = 0;
                while i < op_pieces.len()
                    invariant
                        self.wf(),
                        self.g() == g,
                        self.state@ == old(self).state@,
                        self.curr_player == old(self).curr_player,
                        self.curr_player as int == player,
                        self.cache_table == old(self).cache_table,
                        self.minax_cache == old(self).minax_cache,
                        self.quix == old(self).quix,
                        op_pieces@ == opl,
                        forall|k2: int|
                            0 <= k2 < opl.len() ==> in_bounds(
                                (#[trigger] opl[k2]).x as int,
                                opl[k2].y as int,
                            ),
                        i <= opl.len(),
                    decreases opl.len() - i,
                {
                    let op = op_pieces[i];
                    let poss_moves = self.possible_moves(op, None);
                    let mut j: usize = 0;
                    while j < poss_moves.len()
                        invariant
                            j <= poss_moves@.len(),
                        decreases poss_moves@.len() - j,
                    {
                        if poss_moves[j].x == next_pos.x && poss_moves[j].y == next_pos.y {
                            found = true;
                        }
                        j += 1;
                    }
                    i += 1;
                }
            }

            if !found || count > all_pieces.len() || all_pieces.len() == 0 {
                stop = true;
            } else {
                count += 1;
            }
        }

        (_piece, next_pos)
    }

    /// The cascade: forced capture, then safety trade, then edge
    /// preference, then the random fallback.
    pub fn best_move(&mut self) -> (r: (Pos, Pos))
        requires
            old(self).wf(),
        ensures
            final(self).wf(),
            final(self).state@ == old(self).state@,
            final(self).curr_player == old(self).curr_player,
            final(self).cache_table == old(self).cache_table,
            final(self).minax_cache == old(self).minax_cache,
            final(self).quix == old(self).quix,
            ({
                let g = old(self).g();
                let player = old(self).curr_player as int;
                match spec_first_prior(g, player) {
                    Some(pn) => r == pn,
                    None => match spec_second_prior(g, player) {
                        Some(pn) => r == pn,
                        None => match spec_side_prior(g, player) {
                            Some(pn) => r == pn,
                            None => (movable_of(g, player).len() == 0 ==> r.0 == (Pos {
                                x: 0,
                                y: 0,
                                piece: None,
                            }) && r.1 == (Pos { x: 0, y: 0, piece: None })) && (movable_of(
                                g,
                                player,
                            ).len() > 0 ==> movable_of(g, player).contains(r.0) && spec_poss_moves(
                                g,
                                r.0.x as int,
                                r.0.y as int,
                            ).contains(r.1)),
                        },
                    },
                }
            }),
    {
        let (p1, n1) = self.first_prior();
        if let (Some(p), Some(n)) = (p1, n1) {
            return (p, n);
        }
        let (p2, n2) = self.second_prior();
        if let (Some(p), Some(n)) = (p2, n2) {
            return (p, n);
        }
        let (p3, n3) = self.side_prior();
        if let (Some(p), Some(n)) = (p3, n3) {
            return (p, n);
        }
        self.third_prior()
    }
}

} // verus!
