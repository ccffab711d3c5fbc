//! The mathematical model of the board and of move generation.
//!
//! A grid is a sequence of eight rows of eight cell codes: `0` empty,
//! `1`/`2` a man/king of the plus side, `-1`/`-2` a man/king of the
//! minus side.  `spec_moves` is the definition of the candidate moves of
//! a piece: jump chains first, plain steps only when no jump exists.

use vstd::prelude::*;
use vstd::seq_lib::*;
use vstd::set_lib::*;

use crate::board::{Piece, Pos};

verus! {

pub type Grid = Seq<Seq<i32>>;

/// The grid value of a vector-of-vectors representation.
pub open spec fn gv(rows: Seq<Vec<i32>>) -> Grid {
    Seq::new(rows.len(), |i: int| rows[i]@)
}

pub open spec fn grid_wf(g: Grid) -> bool {
    &&& g.len() == 8
    &&& forall|i: int| 0 <= i < 8 ==> (#[trigger] g[i]).len() == 8
}

pub open spec fn in_bounds(x: int, y: int) -> bool {
    0 <= x < 8 && 0 <= y < 8
}

pub open spec fn cell(g: Grid, x: int, y: int) -> i32 {
    g[x][y]
}

/// Which side a cell code belongs to: the sign of the code.
pub open spec fn side_of(v: i32) -> int {
    if v > 0 {
        1
    } else if v < 0 {
        -1
    } else {
        0
    }
}

/// A piece of side `s` standing at `(x, y)` can jump in direction
/// `(dx, dy)`: the landing square two away is on the board and empty,
/// and the square in between holds a piece of the opposite side.
pub open spec fn jump_ok(g: Grid, s: int, x: int, y: int, dx: int, dy: int) -> bool {
    &&& in_bounds(x + 2 * dx, y + 2 * dy)
    &&& cell(g, x + 2 * dx, y + 2 * dy) == 0
    &&& ((s == 1 && cell(g, x + dx, y + dy) < 0) || (s == -1 && cell(g, x + dx, y + dy) > 0))
}

/// Some jump is available in one of the four diagonal directions.
pub open spec fn can_jump(g: Grid, s: int, x: int, y: int) -> bool {
    ||| jump_ok(g, s, x, y, -1, -1)
    ||| jump_ok(g, s, x, y, -1, 1)
    ||| jump_ok(g, s, x, y, 1, -1)
    ||| jump_ok(g, s, x, y, 1, 1)
}

/// A jump history: distinct origin squares, all on the board.
pub open spec fn hist_ok(h: Seq<(usize, usize)>) -> bool {
    &&& h.no_duplicates()
    &&& forall|k: int| 0 <= k < h.len() ==> in_bounds(#[trigger] h[k].0 as int, h[k].1 as int)
}

/// Appending a fresh on-board origin keeps a history well formed, and a
/// well-formed history never exceeds the number of board squares.
pub proof fn lemma_hist_push(h: Seq<(usize, usize)>, x: usize, y: usize)
    requires
        hist_ok(h),
        in_bounds(x as int, y as int),
        !h.contains((x, y)),
    ensures
        hist_ok(h.push((x, y))),
        h.len() <= 63,
{
    let h2 = h.push((x, y));
    assert forall|i: int, j: int| 0 <= i < h2.len() && 0 <= j < h2.len() && i != j implies h2[i]
        != h2[j] by {
        if i < h.len() && j < h.len() {
        } else if i < h.len() {
            assert(h.contains(h[i]));
        } else if j < h.len() {
            assert(h.contains(h[j]));
        }
    }
    assert(hist_ok(h2));
    lemma_hist_bound(h2);
}

pub proof fn lemma_hist_bound(h: Seq<(usize, usize)>)
    requires
        hist_ok(h),
    ensures
        h.len() <= 64,
{
    broadcast use vstd::seq_lib::seq_to_set_is_finite;

    let f = |p: (usize, usize)| p.0 as int * 8 + p.1 as int;
    let m = h.map_values(f);
    assert forall|i: int, j: int| 0 <= i < m.len() && 0 <= j < m.len() && i != j implies m[i]
        != m[j] by {
        assert(h[i] != h[j]);
        assert(in_bounds(h[i].0 as int, h[i].1 as int));
        assert(in_bounds(h[j].0 as int, h[j].1 as int));
    }
    assert(m.no_duplicates());
    m.unique_seq_to_set();
    let rng = set_int_range(0, 64);
    lemma_int_range(0, 64);
    assert forall|e: int| m.to_set().contains(e) implies rng.contains(e) by {
        let k = choose|k: int| 0 <= k < m.len() && m[k] == e;
        assert(in_bounds(h[k].0 as int, h[k].1 as int));
    }
    assert(m.to_set().subset_of(rng));
    lemma_len_subset(m.to_set(), rng);
}

/// The candidate move of a jump in direction `(dx, dy)` from `(x, y)`:
/// the landing square, carrying the captured square in between.
pub open spec fn jump_move(x: int, y: int, dx: int, dy: int) -> Pos {
    Pos {
        x: (x + 2 * dx) as usize,
        y: (y + 2 * dy) as usize,
        piece: Some(Piece { x: (x + dx) as usize, y: (y + dy) as usize }),
    }
}

/// A plain diagonal step: the plus side steps toward row 0, the minus
/// side toward row 7, one square into an empty cell.
pub open spec fn step_seg(g: Grid, s: int, x: int, y: int, dx: int, dy: int) -> Seq<Pos> {
    if in_bounds(x + dx, y + dy) && cell(g, x + dx, y + dy) == 0 && (if dx == 1 {
        s == -1
    } else {
        s == 1
    }) {
        seq![Pos { x: (x + dx) as usize, y: (y + dy) as usize, piece: None }]
    } else {
        Seq::empty()
    }
}

/// The plain steps, in the order they are generated.
pub open spec fn step_moves(g: Grid, s: int, x: int, y: int) -> Seq<Pos> {
    step_seg(g, s, x, y, 1, 1) + step_seg(g, s, x, y, -1, 1) + step_seg(g, s, x, y, -1, -1)
        + step_seg(g, s, x, y, 1, -1)
}

pub open spec fn moves_when(x: int, y: int, h: Seq<(usize, usize)>) -> bool {
    &&& hist_ok(h)
    &&& in_bounds(x, y)
    &&& !h.contains((((x as usize)), ((y as usize))))
}

/// The moves contributed by one jump direction: the immediate jump, if
/// available and not landing on an already-visited origin, followed by
/// every chained jump discovered from the landing square.
pub open spec fn dir_seg(g: Grid, s: int, x: int, y: int, h: Seq<(usize, usize)>, dx: int, dy: int) -> Seq<Pos>
    decreases 64 - h.len(), 0int
        when moves_when(x, y, h)
        via dir_seg_dec
{
    if jump_ok(g, s, x, y, dx, dy) && !h.contains(
        ((((x + 2 * dx) as usize)), (((y + 2 * dy) as usize))),
    ) {
        seq![jump_move(x, y, dx, dy)] + spec_moves(
            g,
            s,
            x + 2 * dx,
            y + 2 * dy,
            h.push((((x as usize)), ((y as usize)))),
            false,
        )
    } else {
        Seq::empty()
    }
}

#[via_fn]
proof fn dir_seg_dec(g: Grid, s: int, x: int, y: int, h: Seq<(usize, usize)>, dx: int, dy: int) {
    lemma_hist_push(h, x as usize, y as usize);
}

/// Every candidate move of a piece of side `s` at `(x, y)`, the visited
/// origins being `h`: the four jump directions in order, flattened with
/// their chains; if no jump was found and this is the top of the chain,
/// the plain steps instead.
pub open spec fn spec_moves(g: Grid, s: int, x: int, y: int, h: Seq<(usize, usize)>, top: bool) -> Seq<Pos>
    decreases 64 - h.len(), 1int
        when moves_when(x, y, h)
{
    let js = dir_seg(g, s, x, y, h, -1, -1) + dir_seg(g, s, x, y, h, -1, 1) + dir_seg(
        g,
        s,
        x,
        y,
        h,
        1,
        -1,
    ) + dir_seg(g, s, x, y, h, 1, 1);
    if js.len() > 0 || !top {
        js
    } else {
        step_moves(g, s, x, y)
    }
}

/// The candidate moves of the piece standing at `(x, y)`.
pub open spec fn spec_poss_moves(g: Grid, x: int, y: int) -> Seq<Pos> {
    spec_moves(g, side_of(cell(g, x, y)), x, y, Seq::empty(), true)
}

pub open spec fn has_capture(ms: Seq<Pos>) -> bool {
    exists|k: int| 0 <= k < ms.len() && (#[trigger] ms[k]).piece is Some
}

/// Direction `(dx, dy)` yields a jump that the history does not forbid.
pub open spec fn dir_open(g: Grid, s: int, x: int, y: int, h: Seq<(usize, usize)>, dx: int, dy: int) -> bool {
    jump_ok(g, s, x, y, dx, dy) && !h.contains(
        ((((x + 2 * dx) as usize)), (((y + 2 * dy) as usize))),
    )
}

pub open spec fn can_jump_h(g: Grid, s: int, x: int, y: int, h: Seq<(usize, usize)>) -> bool {
    ||| dir_open(g, s, x, y, h, -1, -1)
    ||| dir_open(g, s, x, y, h, -1, 1)
    ||| dir_open(g, s, x, y, h, 1, -1)
    ||| dir_open(g, s, x, y, h, 1, 1)
}

/// What is true of every generated candidate move: it lands on an empty
/// on-board square, and a capture removes an on-board enemy piece.
pub open spec fn wf_mv(g: Grid, s: int, m: Pos) -> bool {
    &&& in_bounds(m.x as int, m.y as int)
    &&& cell(g, m.x as int, m.y as int) == 0
    &&& (m.piece matches Some(p) ==> in_bounds(p.x as int, p.y as int) && ((s == 1 && cell(
        g,
        p.x as int,
        p.y as int,
    ) < 0) || (s == -1 && cell(g, p.x as int, p.y as int) > 0)))
}

pub proof fn lemma_steps_shape(g: Grid, s: int, x: int, y: int)
    requires
        in_bounds(x, y),
    ensures
        forall|k: int|
            0 <= k < step_moves(g, s, x, y).len() ==> wf_mv(g, s, #[trigger] step_moves(g, s, x, y)[k])
                && step_moves(g, s, x, y)[k].piece is None,
{
    let sm = step_moves(g, s, x, y);
    assert forall|k: int| 0 <= k < sm.len() implies wf_mv(g, s, sm[k]) && sm[k].piece is None by {
        let a = step_seg(g, s, x, y, 1, 1);
        let b = step_seg(g, s, x, y, -1, 1);
        let c = step_seg(g, s, x, y, -1, -1);
        let d = step_seg(g, s, x, y, 1, -1);
        assert(sm[k] == (a + b + c + d)[k]);
        if k < a.len() + b.len() + c.len() {
            if k < a.len() + b.len() {
                if k < a.len() {
                    assert(sm[k] == a[0]);
                } else {
                    assert(sm[k] == b[k - a.len()]);
                }
            } else {
                assert(sm[k] == c[k - a.len() - b.len()]);
            }
        } else {
            assert(sm[k] == d[k - a.len() - b.len() - c.len()]);
        }
    }
}

pub proof fn lemma_dir_shape(g: Grid, s: int, x: int, y: int, h: Seq<(usize, usize)>, dx: int, dy: int)
    requires
        moves_when(x, y, h),
        dx == 1 || dx == -1,
        dy == 1 || dy == -1,
    ensures
        dir_seg(g, s, x, y, h, dx, dy).len() > 0 <==> dir_open(g, s, x, y, h, dx, dy),
        forall|k: int|
            0 <= k < dir_seg(g, s, x, y, h, dx, dy).len() ==> wf_mv(
                g,
                s,
                #[trigger] dir_seg(g, s, x, y, h, dx, dy)[k],
            ) && dir_seg(g, s, x, y, h, dx, dy)[k].piece is Some,
    decreases 64 - h.len(), 0int,
{
    let sg = dir_seg(g, s, x, y, h, dx, dy);
    if dir_open(g, s, x, y, h, dx, dy) {
        let h2 = h.push((((x as usize)), ((y as usize))));
        let lx = x + 2 * dx;
        let ly = y + 2 * dy;
        lemma_hist_push(h, x as usize, y as usize);
        assert(!h2.contains((((lx as usize)), ((ly as usize))))) by {
            assert forall|k: int| 0 <= k < h2.len() implies h2[k] != (((lx as usize)), (
            (ly as usize))) by {
                if k < h.len() {
                    assert(h.contains(h2[k]));
                }
            }
        }
        lemma_moves_shape(g, s, lx, ly, h2, false);
        let sub = spec_moves(g, s, lx, ly, h2, false);
        assert(sg == seq![jump_move(x, y, dx, dy)] + sub);
        assert forall|k: int| 0 <= k < sg.len() implies wf_mv(g, s, sg[k]) && sg[k].piece
            is Some by {
            if k == 0 {
                assert(sg[k] == jump_move(x, y, dx, dy));
            } else {
                assert(sg[k] == sub[k - 1]);
                if !can_jump_h(g, s, lx, ly, h2) {
                    assert(sub == Seq::<Pos>::empty());
                }
            }
        }
    }
}

/// The shape of the generated move list: if a jump is available the
/// list is nonempty and holds captures only; otherwise it is exactly
/// the plain steps (at the top of a chain) or empty (inside one).
pub proof fn lemma_moves_shape(g: Grid, s: int, x: int, y: int, h: Seq<(usize, usize)>, top: bool)
    requires
        moves_when(x, y, h),
    ensures
        forall|k: int|
            0 <= k < spec_moves(g, s, x, y, h, top).len() ==> wf_mv(
                g,
                s,
                #[trigger] spec_moves(g, s, x, y, h, top)[k],
            ),
        can_jump_h(g, s, x, y, h) ==> spec_moves(g, s, x, y, h, top).len() > 0 && (forall|k: int|
            0 <= k < spec_moves(g, s, x, y, h, top).len() ==> (#[trigger] spec_moves(
                g,
                s,
                x,
                y,
                h,
                top,
            )[k]).piece is Some),
        !can_jump_h(g, s, x, y, h) ==> spec_moves(g, s, x, y, h, top) == (if top {
            step_moves(g, s, x, y)
        } else {
            Seq::<Pos>::empty()
        }) && (forall|k: int|
            0 <= k < spec_moves(g, s, x, y, h, top).len() ==> (#[trigger] spec_moves(
                g,
                s,
                x,
                y,
                h,
                top,
            )[k]).piece is None),
    decreases 64 - h.len(), 1int,
{
    lemma_dir_shape(g, s, x, y, h, -1, -1);
    lemma_dir_shape(g, s, x, y, h, -1, 1);
    lemma_dir_shape(g, s, x, y, h, 1, -1);
    lemma_dir_shape(g, s, x, y, h, 1, 1);
    let a = dir_seg(g, s, x, y, h, -1, -1);
    let b = dir_seg(g, s, x, y, h, -1, 1);
    let c = dir_seg(g, s, x, y, h, 1, -1);
    let d = dir_seg(g, s, x, y, h, 1, 1);
    let js = a + b + c + d;
    let ms = spec_moves(g, s, x, y, h, top);
    assert forall|k: int| 0 <= k < js.len() implies wf_mv(g, s, #[trigger] js[k]) && js[k].piece
        is Some by {
        if k < a.len() + b.len() + c.len() {
            if k < a.len() + b.len() {
                if k < a.len() {
                    assert(js[k] == a[k]);
                } else {
                    assert(js[k] == b[k - a.len()]);
                }
            } else {
                assert(js[k] == c[k - a.len() - b.len()]);
            }
        } else {
            assert(js[k] == d[k - a.len() - b.len() - c.len()]);
        }
    }
    if can_jump_h(g, s, x, y, h) {
        assert(js.len() > 0);
        assert(ms == js);
    } else {
        assert(a.len() == 0 && b.len() == 0 && c.len() == 0 && d.len() == 0);
        assert(js.len() == 0);
        if top {
            assert(ms == step_moves(g, s, x, y));
            lemma_steps_shape(g, s, x, y);
        } else {
            assert(ms =~= Seq::<Pos>::empty());
        }
    }
}

/// At the top of a chain the two notions of an available jump agree,
/// and an empty square generates no move at all.
pub proof fn lemma_poss_moves_shape(g: Grid, x: int, y: int)
    requires
        in_bounds(x, y),
    ensures
        forall|k: int|
            0 <= k < spec_poss_moves(g, x, y).len() ==> wf_mv(
                g,
                side_of(cell(g, x, y)),
                #[trigger] spec_poss_moves(g, x, y)[k],
            ),
        has_capture(spec_poss_moves(g, x, y)) <==> can_jump(g, side_of(cell(g, x, y)), x, y),
        can_jump(g, side_of(cell(g, x, y)), x, y) ==> forall|k: int|
            0 <= k < spec_poss_moves(g, x, y).len() ==> (#[trigger] spec_poss_moves(g, x, y)[k]).piece
                is Some,
        spec_poss_moves(g, x, y).len() > 0 ==> cell(g, x, y) != 0,
{
    let s = side_of(cell(g, x, y));
    let h = Seq::<(usize, usize)>::empty();
    lemma_moves_shape(g, s, x, y, h, true);
    assert(can_jump_h(g, s, x, y, h) == can_jump(g, s, x, y));
    let ms = spec_poss_moves(g, x, y);
    if can_jump(g, s, x, y) {
        assert(ms[0].piece is Some);
        assert(has_capture(ms));
    } else {
        if has_capture(ms) {
            let k = choose|k: int| 0 <= k < ms.len() && ms[k].piece is Some;
            assert(ms[k].piece is None);
        }
    }
    if cell(g, x, y) == 0 {
        assert(s == 0);
        assert(!can_jump(g, s, x, y));
        assert(step_seg(g, s, x, y, 1, 1) =~= Seq::<Pos>::empty());
        assert(step_seg(g, s, x, y, -1, 1) =~= Seq::<Pos>::empty());
        assert(step_seg(g, s, x, y, -1, -1) =~= Seq::<Pos>::empty());
        assert(step_seg(g, s, x, y, 1, -1) =~= Seq::<Pos>::empty());
        assert(ms.len() == 0);
    }
}

/// The first candidate move whose destination is `(nx, ny)`, from `k` on.
pub open spec fn find_from(ms: Seq<Pos>, k: int, nx: int, ny: int) -> Option<int>
    decreases ms.len() - k when 0 <= k <= ms.len()
{
    if k >= ms.len() {
        None
    } else if ms[k].x as int == nx && ms[k].y as int == ny {
        Some(k)
    } else {
        find_from(ms, k + 1, nx, ny)
    }
}

pub open spec fn find_move(ms: Seq<Pos>, nx: int, ny: int) -> Option<int> {
    find_from(ms, 0, nx, ny)
}

/// The first candidate move that captures, from `k` on.
pub open spec fn first_cap_from(ms: Seq<Pos>, k: int) -> Option<int>
    decreases ms.len() - k when 0 <= k <= ms.len()
{
    if k >= ms.len() {
        None
    } else if ms[k].piece is Some {
        Some(k)
    } else {
        first_cap_from(ms, k + 1)
    }
}

pub proof fn lemma_find_in_range(ms: Seq<Pos>, k: int, nx: int, ny: int)
    requires
        0 <= k <= ms.len(),
    ensures
        find_from(ms, k, nx, ny) matches Some(i) ==> k <= i < ms.len() && ms[i].x as int == nx
            && ms[i].y as int == ny,
    decreases ms.len() - k,
{
    if k < ms.len() && !(ms[k].x as int == nx && ms[k].y as int == ny) {
        lemma_find_in_range(ms, k + 1, nx, ny);
    }
}

pub proof fn lemma_first_cap_in_range(ms: Seq<Pos>, k: int)
    requires
        0 <= k <= ms.len(),
    ensures
        first_cap_from(ms, k) matches Some(i) ==> k <= i < ms.len() && ms[i].piece is Some,
        first_cap_from(ms, k) is None ==> forall|j: int|
            k <= j < ms.len() ==> !((#[trigger] ms[j]).piece is Some),
    decreases ms.len() - k,
{
    if k < ms.len() && !(ms[k].piece is Some) {
        lemma_first_cap_in_range(ms, k + 1);
    }
}

/// The pieces of side `s`, scanned in row-major order from cell `(i, j)`.
pub open spec fn pieces_from(g: Grid, i: int, j: int, s: int) -> Seq<Pos>
    decreases 8 - i, 8 - j when 0 <= i && 0 <= j <= 8
{
    if i >= 8 {
        Seq::empty()
    } else if j >= 8 {
        pieces_from(g, i + 1, 0, s)
    } else {
        (if side_of(cell(g, i, j)) == s {
            seq![Pos { x: i as usize, y: j as usize, piece: None }]
        } else {
            Seq::empty()
        }) + pieces_from(g, i, j + 1, s)
    }
}

pub open spec fn pieces_of(g: Grid, s: int) -> Seq<Pos> {
    pieces_from(g, 0, 0, s)
}

pub proof fn lemma_pieces_from_wf(g: Grid, i: int, j: int, s: int)
    requires
        0 <= i,
        0 <= j <= 8,
    ensures
        forall|k: int|
            0 <= k < pieces_from(g, i, j, s).len() ==> in_bounds(
                (#[trigger] pieces_from(g, i, j, s)[k]).x as int,
                pieces_from(g, i, j, s)[k].y as int,
            ) && side_of(
                cell(g, pieces_from(g, i, j, s)[k].x as int, pieces_from(g, i, j, s)[k].y as int),
            ) == s && pieces_from(g, i, j, s)[k].piece is None,
    decreases 8 - i, 8 - j,
{
    if i >= 8 {
    } else if j >= 8 {
        lemma_pieces_from_wf(g, i + 1, 0, s);
    } else {
        lemma_pieces_from_wf(g, i, j + 1, s);
    }
}

/// The pieces of `ps` from `k` on that have at least one candidate move.
pub open spec fn movable_from(g: Grid, ps: Seq<Pos>, k: int) -> Seq<Pos>
    decreases ps.len() - k when 0 <= k <= ps.len()
{
    if k >= ps.len() {
        Seq::empty()
    } else {
        (if spec_poss_moves(g, ps[k].x as int, ps[k].y as int).len() > 0 {
            seq![ps[k]]
        } else {
            Seq::empty()
        }) + movable_from(g, ps, k + 1)
    }
}

/// Every piece of side `s` that has at least one candidate move.
pub open spec fn movable_of(g: Grid, s: int) -> Seq<Pos> {
    movable_from(g, pieces_of(g, s), 0)
}

pub proof fn lemma_movable_from_wf(g: Grid, ps: Seq<Pos>, k: int)
    requires
        0 <= k <= ps.len(),
    ensures
        forall|k2: int|
            0 <= k2 < movable_from(g, ps, k).len() ==> ps.contains(
                #[trigger] movable_from(g, ps, k)[k2],
            ) && spec_poss_moves(
                g,
                movable_from(g, ps, k)[k2].x as int,
                movable_from(g, ps, k)[k2].y as int,
            ).len() > 0,
        movable_from(g, ps, k).len() <= ps.len() - k,
    decreases ps.len() - k,
{
    if k < ps.len() {
        lemma_movable_from_wf(g, ps, k + 1);
        let mv = movable_from(g, ps, k);
        let sub = movable_from(g, ps, k + 1);
        assert forall|k2: int| 0 <= k2 < mv.len() implies ps.contains(#[trigger] mv[k2])
            && spec_poss_moves(g, mv[k2].x as int, mv[k2].y as int).len() > 0 by {
            if spec_poss_moves(g, ps[k].x as int, ps[k].y as int).len() > 0 && k2 == 0 {
                assert(mv[k2] == ps[k]);
            } else {
                let head: int = if spec_poss_moves(g, ps[k].x as int, ps[k].y as int).len() > 0 {
                    1
                } else {
                    0
                };
                assert(mv[k2] == sub[k2 - head]);
            }
        }
    }
}

/// The grid with cell `(x, y)` set to `v`.
pub open spec fn grid_set(g: Grid, x: int, y: int, v: i32) -> Grid {
    g.update(x, g[x].update(y, v))
}

/// The number of occupied cells, scanned in row-major order from `(i, j)`.
pub open spec fn count_from(g: Grid, i: int, j: int) -> int
    decreases 8 - i, 8 - j when 0 <= i && 0 <= j <= 8
{
    if i >= 8 {
        0
    } else if j >= 8 {
        count_from(g, i + 1, 0)
    } else {
        (if cell(g, i, j) != 0 {
            1int
        } else {
            0int
        }) + count_from(g, i, j + 1)
    }
}

pub open spec fn grid_count(g: Grid) -> int {
    count_from(g, 0, 0)
}

pub proof fn lemma_count_nonneg(g: Grid, i: int, j: int)
    requires
        0 <= i,
        0 <= j <= 8,
    ensures
        0 <= count_from(g, i, j),
    decreases 8 - i, 8 - j,
{
    if i >= 8 {
    } else if j >= 8 {
        lemma_count_nonneg(g, i + 1, 0);
    } else {
        lemma_count_nonneg(g, i, j + 1);
    }
}

pub proof fn lemma_count_set(g: Grid, x: int, y: int, v: i32, i: int, j: int)
    requires
        grid_wf(g),
        in_bounds(x, y),
        0 <= i,
        0 <= j <= 8,
    ensures
        count_from(grid_set(g, x, y, v), i, j) == count_from(g, i, j) + (if (x > i || (x == i && y
            >= j)) && i < 8 {
            (if v != 0 {
                1int
            } else {
                0int
            }) - (if cell(g, x, y) != 0 {
                1int
            } else {
                0int
            })
        } else {
            0int
        }),
    decreases 8 - i, 8 - j,
{
    let g2 = grid_set(g, x, y, v);
    if i >= 8 {
    } else if j >= 8 {
        lemma_count_set(g, x, y, v, i + 1, 0);
    } else {
        lemma_count_set(g, x, y, v, i, j + 1);
        if i == x && j == y {
            assert(cell(g2, i, j) == v);
        } else {
            assert(cell(g2, i, j) == cell(g, i, j));
        }
    }
}

/// The value written to the destination square: a man reaching the far
/// rank of its side becomes a king; anything else keeps its value.
pub open spec fn promoted(v: i32, nx: int) -> i32 {
    if nx == 0 && v == 1 {
        2i32
    } else if nx == 7 && v == -1 {
        -2i32
    } else {
        v
    }
}

/// The cell value of the starting position: the dark squares (row and
/// column parities differ) of rows 0 to 2 hold the minus side, those of
/// rows 5 to 7 the plus side, everything else is empty.
pub open spec fn init_val(i: int, j: int) -> i32 {
    if i % 2 == j % 2 || i == 3 || i == 4 {
        0i32
    } else if i <= 2 {
        -1i32
    } else {
        1i32
    }
}

pub open spec fn is_king(v: i32) -> bool {
    v == 2 || v == -2
}

} // verus!

