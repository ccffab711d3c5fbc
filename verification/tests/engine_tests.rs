use checkers::board::{Board, Pos};

fn empty_grid() -> Vec<Vec<i32>> {
    let mut g: Vec<Vec<i32>> = Vec::new();
    for _ in 0..8 {
        let mut row: Vec<i32> = Vec::new();
        for _ in 0..8 {
            row.push(0);
        }
        g.push(row);
    }
    g
}

fn board_with(cells: &[(usize, usize, i32)], player: i32) -> Board {
    let mut b = Board::new();
    b.state = empty_grid();
    for &(x, y, v) in cells {
        b.state[x][y] = v;
    }
    b.curr_player = player;
    b
}

fn new_game() -> Board {
    let mut b = Board::new();
    b.init();
    b
}

#[test]
fn init_piece_counts_and_layout() {
    let b = new_game();
    let mut my = 0;
    let mut op = 0;
    for i in 0..8 {
        for j in 0..8 {
            let v = b.state[i][j];
            if v != 0 {
                // pieces stand on dark squares only, never on rows 3 and 4
                assert_ne!(i % 2, j % 2);
                assert!(i != 3 && i != 4);
            }
            if v > 0 {
                my += 1;
                assert!(i >= 5);
                assert_eq!(v, 1);
            }
            if v < 0 {
                op += 1;
                assert!(i <= 2);
                assert_eq!(v, -1);
            }
        }
    }
    assert_eq!(my, 12);
    assert_eq!(op, 12);
    assert_eq!(b.my_pieces.len(), 12);
    assert_eq!(b.op_pieces.len(), 12);
    assert_eq!(b.curr_player, 1);
}

#[test]
fn initial_position_mobility() {
    let mut b = new_game();
    let movable = b.all_movable_pieces(1);
    // only the four men on the row next to the middle can step out
    assert_eq!(movable.len(), 4);
    for p in &movable {
        assert_eq!(p.x, 5);
    }
    let mut total_moves = 0;
    for p in &movable {
        let ms = b.possible_moves(*p, None);
        for m in &ms {
            assert!(m.piece.is_none());
            assert_eq!(m.x, 4);
        }
        total_moves += ms.len();
    }
    assert_eq!(total_moves, 7);

    let movable_op = b.all_movable_pieces(-1);
    assert_eq!(movable_op.len(), 4);
}

#[test]
fn jumps_dominate_plain_steps() {
    // a plus man that could step, but has a jump: only captures appear
    let mut b = board_with(&[(4, 1, 1), (3, 2, -1)], 1);
    let ms = b.possible_moves(Pos::new(4, 1, None), None);
    assert!(ms.len() >= 1);
    for m in &ms {
        assert!(m.piece.is_some());
    }
    assert_eq!(ms[0].x, 2);
    assert_eq!(ms[0].y, 3);
    let cap = ms[0].piece.unwrap();
    assert_eq!((cap.x, cap.y), (3, 2));
}

#[test]
fn plain_steps_when_no_jump() {
    let mut b = board_with(&[(5, 2, 1)], 1);
    let ms = b.possible_moves(Pos::new(5, 2, None), None);
    assert_eq!(ms.len(), 2);
    for m in &ms {
        assert!(m.piece.is_none());
        assert_eq!(m.x, 4);
    }
    // a minus man steps the other way
    let mut b2 = board_with(&[(2, 3, -1)], -1);
    let ms2 = b2.possible_moves(Pos::new(2, 3, None), None);
    assert_eq!(ms2.len(), 2);
    for m in &ms2 {
        assert_eq!(m.x, 3);
    }
}

#[test]
fn chain_capture_runs_to_the_end() {
    // (5,0) jumps (4,1) to (3,2), then must continue over (2,3) to (1,4)
    let mut b = board_with(&[(5, 0, 1), (4, 1, -1), (2, 3, -1)], 1);
    b.do_move(Pos::new(5, 0, None), Pos::new(3, 2, None));
    assert_eq!(b.state[5][0], 0);
    assert_eq!(b.state[4][1], 0);
    assert_eq!(b.state[3][2], 0);
    assert_eq!(b.state[2][3], 0);
    assert_eq!(b.state[1][4], 1);
    // the turn passed exactly once
    assert_eq!(b.curr_player, -1);
}

#[test]
fn promotion_on_far_rank() {
    let mut b = board_with(&[(1, 2, 1)], 1);
    b.do_move(Pos::new(1, 2, None), Pos::new(0, 1, None));
    assert_eq!(b.state[0][1], 2);
    assert_eq!(b.state[1][2], 0);
    assert_eq!(b.curr_player, -1);

    let mut b2 = board_with(&[(6, 3, -1)], -1);
    b2.do_move(Pos::new(6, 3, None), Pos::new(7, 2, None));
    assert_eq!(b2.state[7][2], -2);

    // a king that moves stays a king
    let mut b3 = board_with(&[(2, 3, 2)], 1);
    b3.do_move(Pos::new(2, 3, None), Pos::new(1, 2, None));
    assert_eq!(b3.state[1][2], 2);
}

#[test]
fn illegal_move_is_a_no_op_but_toggles() {
    let mut b = board_with(&[(5, 2, 1)], 1);
    b.do_move(Pos::new(5, 2, None), Pos::new(3, 3, None));
    assert_eq!(b.state[5][2], 1);
    assert_eq!(b.state[3][3], 0);
    assert_eq!(b.curr_player, -1);
}

#[test]
fn forfeit_of_a_hanging_capture() {
    // the mover steps while another plus piece leaves its capture unused:
    // that piece is forfeited
    let mut b = board_with(&[(5, 2, 1), (4, 5, 1), (3, 4, -1)], 1);
    b.do_move(Pos::new(5, 2, None), Pos::new(4, 1, None));
    assert_eq!(b.state[4][1], 1);
    assert_eq!(b.state[5][2], 0);
    // the piece that could have captured is gone, its victim stands
    assert_eq!(b.state[4][5], 0);
    assert_eq!(b.state[3][4], -1);
}

#[test]
fn finish_state_reports_the_winner() {
    let mut b = new_game();
    let (done, winner) = b.finish_state();
    assert!(!done);
    assert_eq!(winner, 0);

    // the minus side has nothing left: plus wins
    let mut b2 = board_with(&[(5, 2, 1)], 1);
    let (done2, winner2) = b2.finish_state();
    assert!(done2);
    assert_eq!(winner2, 1);

    // the plus side cannot move: minus wins
    let mut b3 = board_with(&[(2, 1, -1)], -1);
    let (done3, winner3) = b3.finish_state();
    assert!(done3);
    assert_eq!(winner3, -1);
}

#[test]
fn finish_state_on_blocked_side() {
    // a plus man wedged in the corner with no step and no jump has lost
    // even though it still stands on the board
    let mut b = board_with(
        &[(0, 1, 1), (2, 1, -1), (2, 3, -1), (1, 0, -1), (1, 2, -1), (3, 0, -1), (3, 2, -1)],
        1,
    );
    // (0,1) cannot step up (edge) and cannot jump: landing squares busy
    let ms = b.possible_moves(Pos::new(0, 1, None), None);
    assert_eq!(ms.len(), 0);
    let (done, winner) = b.finish_state();
    assert!(done);
    assert_eq!(winner, -1);
}

#[test]
fn search_is_deterministic() {
    let cells: &[(usize, usize, i32)] = &[(5, 2, 1), (2, 1, -1)];
    let mut b1 = board_with(cells, 1);
    let mut b2 = board_with(cells, 1);
    let (p1, n1) = b1.ultimate_move();
    let (p2, n2) = b2.ultimate_move();
    assert_eq!((p1.x, p1.y, n1.x, n1.y), (p2.x, p2.y, n2.x, n2.y));
}

#[test]
fn cached_search_returns_the_same_move() {
    let cells: &[(usize, usize, i32)] = &[(5, 2, 1), (2, 1, -1)];
    let mut warm = board_with(cells, 1);
    let (p1, n1) = warm.ultimate_move();
    // the second call answers from populated caches
    let (p2, n2) = warm.ultimate_move();
    assert_eq!((p1.x, p1.y, n1.x, n1.y), (p2.x, p2.y, n2.x, n2.y));
    // a cold board with empty caches chooses the same move
    let mut cold = board_with(cells, 1);
    let (p3, n3) = cold.ultimate_move();
    assert_eq!((p1.x, p1.y, n1.x, n1.y), (p3.x, p3.y, n3.x, n3.y));
}

#[test]
fn move_cache_remembers_the_choice() {
    let cells: &[(usize, usize, i32)] = &[(5, 2, 1), (2, 1, -1)];
    let mut b = board_with(cells, 1);
    let (before_p, before_n) = b.get_cache_state();
    assert!(before_p.is_none() && before_n.is_none());
    let (p, n) = b.ultimate_move();
    let (cp, cn) = b.get_cache_state();
    let cp = cp.unwrap();
    let cn = cn.unwrap();
    assert_eq!((cp.x, cp.y), (p.x, p.y));
    assert_eq!((cn.x, cn.y), (n.x, n.y));
}

#[test]
fn minimax_at_depth_zero_is_the_static_score() {
    // one minus man at (0,1) with two open steps and nothing else:
    // score = 10 * (2 - 0) + 1 * (1 - 0) = 21
    let mut holder = Board::new();
    let temp = board_with(&[(0, 1, -1)], -1);
    let score = holder.minimax(temp, 0, true, -999999, 999999);
    assert_eq!(score, 21);

    // mirrored for the plus side: score = -21
    let mut holder2 = Board::new();
    let temp2 = board_with(&[(7, 2, 1)], 1);
    let score2 = holder2.minimax(temp2, 0, false, -999999, 999999);
    assert_eq!(score2, -21);
}

#[test]
fn minimax_prefers_the_capture_line() {
    // plus to move can capture the lone minus man; the search must see
    // that the capture ends the game in plus's favour
    let cells: &[(usize, usize, i32)] = &[(4, 1, 1), (3, 2, -1)];
    let mut b = board_with(cells, 1);
    let (p, n) = b.ultimate_move();
    assert_eq!((p.x, p.y), (4, 1));
    assert_eq!((n.x, n.y), (2, 3));
}

#[test]
fn best_move_takes_the_forced_capture() {
    let mut b = board_with(&[(4, 1, 1), (3, 2, -1), (5, 6, 1)], 1);
    let (p, n) = b.best_move();
    assert_eq!((p.x, p.y), (4, 1));
    assert_eq!((n.x, n.y), (2, 3));
    assert!(n.piece.is_some());
}

#[test]
fn best_move_prefers_the_edge() {
    // no capture and no shared trade square; one candidate reaches
    // column 0, and the edge tier must pick it
    let mut b = board_with(&[(5, 1, 1), (2, 5, -1)], 1);
    let (p, n) = b.best_move();
    assert_eq!((p.x, p.y), (5, 1));
    assert!(n.piece.is_none());
    assert_eq!((n.x, n.y), (4, 0));
}

#[test]
fn best_move_fallback_is_legal() {
    // no captures, no shared square, no edge landing: the random tier
    // must still produce a legal move of a movable piece
    let mut b = board_with(&[(5, 2, 1), (0, 5, -1)], 1);
    let (p, n) = b.best_move();
    assert_eq!((p.x, p.y), (5, 2));
    assert!(n.piece.is_none());
    assert_eq!(n.x, 4);
    assert!(n.y == 1 || n.y == 3);
}

#[test]
fn generation_is_repeatable() {
    let mut b = new_game();
    let a1 = b.all_movable_pieces(1);
    let a2 = b.all_movable_pieces(1);
    assert_eq!(a1.len(), a2.len());
    for k in 0..a1.len() {
        assert_eq!((a1[k].x, a1[k].y), (a2[k].x, a2[k].y));
        let m1 = b.possible_moves(a1[k], None);
        let m2 = b.possible_moves(a1[k], None);
        assert_eq!(m1.len(), m2.len());
        for t in 0..m1.len() {
            assert_eq!((m1[t].x, m1[t].y), (m2[t].x, m2[t].y));
        }
    }
}

#[test]
fn chain_picks_the_first_continuation() {
    // after the first jump two continuations exist; the upper-left one
    // is generated first and must be the one taken
    let mut b = board_with(&[(5, 4, 1), (4, 3, -1), (2, 1, -1), (2, 3, -1)], 1);
    b.do_move(Pos::new(5, 4, None), Pos::new(3, 2, None));
    assert_eq!(b.state[5][4], 0);
    assert_eq!(b.state[4][3], 0);
    assert_eq!(b.state[3][2], 0);
    assert_eq!(b.state[2][1], 0);
    assert_eq!(b.state[1][0], 1);
    // the continuation not taken leaves its piece standing
    assert_eq!(b.state[2][3], -1);
    assert_eq!(b.curr_player, -1);
}

#[test]
fn minus_side_captures_too() {
    let mut b = board_with(&[(2, 3, -1), (3, 4, 1)], -1);
    b.do_move(Pos::new(2, 3, None), Pos::new(4, 5, None));
    assert_eq!(b.state[2][3], 0);
    assert_eq!(b.state[3][4], 0);
    assert_eq!(b.state[4][5], -1);
    assert_eq!(b.curr_player, 1);
}
