use vstd::prelude::*;

use crate::model::{gv, grid_wf};

verus! {

/// A square that a capture removes a piece from.
#[derive(Debug, Copy, Clone)]
pub struct Piece {
    pub x: usize,
    pub y: usize,
}

impl Piece {
    pub fn new(x_pos: usize, y_pos: usize) -> (r: Piece)
        ensures
            r.x == x_pos && r.y == y_pos,
    {
        Piece { x: x_pos, y: y_pos }
    }
}

/// A board coordinate; as a candidate move, `piece` carries the square of
/// the enemy piece that the move captures, and is `None` for a plain step.
#[derive(Debug, Copy, Clone)]
pub struct Pos {
    pub x: usize,
    pub y: usize,
    pub piece: Option<Piece>,
}

impl Pos {
    pub fn new(x_pos: usize, y_pos: usize, curr_piece: Option<Piece>) -> (r: Pos)
        ensures
            r.x == x_pos && r.y == y_pos && r.piece == curr_piece,
    {
        Pos { x: x_pos, y: y_pos, piece: curr_piece }
    }
}

/// A remembered search score: the board and move it was computed for,
/// together with the full search parameters, so that a hit reproduces
/// exactly the value the search would recompute.
pub struct ScoreEntry {
    pub state: Vec<Vec<i32>>,
    pub player: i32,
    pub px: usize,
    pub py: usize,
    pub nx: usize,
    pub ny: usize,
    pub depth: i32,
    pub is_max: bool,
    pub alpha: i32,
    pub beta: i32,
    pub score: i32,
}

/// A remembered chosen move for a whole position.
pub struct MoveEntry {
    pub state: Vec<Vec<i32>>,
    pub player: i32,
    pub px: usize,
    pub py: usize,
    pub nx: usize,
    pub ny: usize,
}

pub struct Board {
    pub row: usize,
    pub col: usize,

    pub my_side: i32,
    pub op_side: i32,

    pub curr_player: i32,

    pub state: Vec<Vec<i32>>,

    pub my_pieces: Vec<Pos>,
    pub op_pieces: Vec<Pos>,

    pub cache_table: Vec<MoveEntry>,
    pub minax_cache: Vec<ScoreEntry>,

    pub quix: usize,
}

impl Board {
    /// The grid as a mathematical value.
    pub open spec fn g(&self) -> crate::model::Grid {
        gv(self.state@)
    }

    /// Basic well-formedness: an 8 by 8 grid, fixed side codes, and a
    /// current player that is one of the two sides.
    pub open spec fn wf(&self) -> bool {
        &&& self.row == 8
        &&& self.col == 8
        &&& self.my_side == 1
        &&& self.op_side == -1
        &&& (self.curr_player == 1 || self.curr_player == -1)
        &&& grid_wf(self.g())
    }

    pub fn new() -> (r: Board)
        ensures
            r.row == 8 && r.col == 8,
            r.my_side == 1 && r.op_side == -1,
            r.curr_player == 1,
            r.state@.len() == 0,
            r.my_pieces@.len() == 0 && r.op_pieces@.len() == 0,
            r.cache_table@.len() == 0 && r.minax_cache@.len() == 0,
            r.quix == 0,
    {
        Board {
            row: 8,
            col: 8,

            my_side: 1,
            op_side: -1,

            curr_player: 1,

            state: Vec::new(),

            my_pieces: Vec::new(),
            op_pieces: Vec::new(),

            cache_table: Vec::new(),
            minax_cache: Vec::new(),

            quix: 0,
        }
    }
    /// Writes one cell of the grid.
    pub(crate) fn set_cell(&mut self, x: usize, y: usize, v: i32)
        requires
            old(self).wf(),
            crate::model::in_bounds(x as int, y as int),
        ensures
            final(self).wf(),
            final(self).g() == crate::model::grid_set(old(self).g(), x as int, y as int, v),
            final(self).curr_player == old(self).curr_player,
            final(self).my_pieces == old(self).my_pieces,
            final(self).op_pieces == old(self).op_pieces,
            final(self).cache_table == old(self).cache_table,
            final(self).minax_cache == old(self).minax_cache,
            final(self).quix == old(self).quix,
            final(self).row == old(self).row && final(self).col == old(self).col,
            final(self).my_side == old(self).my_side && final(self).op_side == old(self).op_side,
    {
        proof {
            assert(self.state@.len() == 8);
            assert(gv(self.state@)[x as int] == self.state@[x as int]@);
        }
        self.state[x][y] = v;
        proof {
            assert(self.g() =~~= crate::model::grid_set(old(self).g(), x as int, y as int, v));
        }
    }
}

/// A deep copy of a grid representation.
pub(crate) fn copy_grid(src: &Vec<Vec<i32>>) -> (r: Vec<Vec<i32>>)
    ensures
        gv(r@) == gv(src@),
        r@.len() == src@.len(),
        forall|i: int| 0 <= i < r@.len() ==> (#[trigger] r@[i])@ == src@[i]@,
{
    let mut r: Vec<Vec<i32>> = Vec::new();
    let mut i: usize = 0;
    while i < src.len()
        invariant
            i <= src@.len(),
            r@.len() == i,
            forall|k: int| 0 <= k < i ==> (#[trigger] r@[k])@ == src@[k]@,
        decreases src@.len() - i,
    {
        let srow = &src[i];
        let mut row: Vec<i32> = Vec::new();
        let mut j: usize = 0;
        while j < srow.len()
            invariant
                j <= srow@.len(),
                row@ == srow@.subrange(0, j as int),
            decreases srow@.len() - j,
        {
            row.push(srow[j]);
            proof {
                assert(srow@.subrange(0, j + 1) =~= srow@.subrange(0, j as int).push(
                    srow@[j as int],
                ));
            }
            j += 1;
        }
        proof {
            assert(srow@.subrange(0, srow@.len() as int) =~= srow@);
        }
        r.push(row);
        i += 1;
    }
    proof {
        assert(gv(r@) =~~= gv(src@));
    }
    r
}

/// Whether two grid representations hold the same grid.
pub(crate) fn grid_eq(a: &Vec<Vec<i32>>, b: &Vec<Vec<i32>>) -> (r: bool)
    ensures
        r <==> gv(a@) == gv(b@) && a@.len() == b@.len(),
{
    if a.len() != b.len() {
        return false;
    }
    let mut i: usize = 0;
    while i < a.len()
        invariant
            a@.len() == b@.len(),
            i <= a@.len(),
            forall|k: int| 0 <= k < i ==> (#[trigger] a@[k])@ == b@[k]@,
        decreases a@.len() - i,
    {
        let ra = &a[i];
        let rb = &b[i];
        if ra.len() != rb.len() {
            proof {
                assert(gv(a@)[i as int].len() != gv(b@)[i as int].len());
            }
            return false;
        }
        let mut j: usize = 0;
        while j < ra.len()
            invariant
                ra == a@[i as int],
                rb == b@[i as int],
                ra@.len() == rb@.len(),
                i < a@.len() && a@.len() == b@.len(),
                j <= ra@.len(),
                forall|k: int| 0 <= k < j ==> ra@[k] == rb@[k],
            decreases ra@.len() - j,
    {
            if ra[j] != rb[j] {
                proof {
                    assert(gv(a@)[i as int][j as int] != gv(b@)[i as int][j as int]);
                }
                return false;
            }
            j += 1;
        }
        proof {
            assert(a@[i as int]@ =~= b@[i as int]@);
        }
        i += 1;
    }
    proof {
        assert(gv(a@) =~~= gv(b@));
    }
    true
}

} // verus!
