use chess_core::board::Board;
use chess_core::piece::PieceType;
use chess_core::search::{lane_moves, select_best_result, Algorithms, SCORE_INF};
use chess_core::team::Team;

fn fixed_keys() -> Vec<u64> {
    let mut keys = Vec::new();
    for i in 0..768u64 {
        keys.push(i.wrapping_mul(0x9e3779b97f4a7c15).wrapping_add(99));
    }
    keys
}

fn empty_board() -> Board {
    let mut b = Board::with_keys(fixed_keys());
    for r in 0..8usize {
        for c in 0..8usize {
            b.remove_piece(r, c);
        }
    }
    b
}

/// Reference full-width negamax without pruning, over the same library
/// operations the alpha-beta search uses.
fn ref_negamax(algo: &Algorithms, board: &Board, depth: isize, sign: i32) -> i32 {
    let mut st = board.copy();
    st.calc_team_valid_moves(Team::White);
    st.calc_team_valid_moves(Team::Black);
    if depth == 0 || st.is_terminal() {
        return sign * st.evaluate(algo.perspective);
    }
    let color = if sign == 1 { algo.perspective } else { algo.opponent };
    let moves = algo.get_ordered_valid_moves(&mut st, color);
    let mut best = -SCORE_INF;
    for (pc, m) in moves.iter() {
        let mut temp = st.copy();
        let mut p = *pc;
        temp.execute_move(&mut p, m.copy(), false, false);
        if temp.find_king(Team::White).is_some() && temp.find_king(Team::Black).is_some() {
            let v = -ref_negamax(algo, &temp, depth - 1, -sign);
            if v > best {
                best = v;
            }
        }
    }
    best
}

#[test]
fn twenty_opening_moves() {
    // standard starting position, White to move: 16 pawn moves plus 4
    // knight moves, none of them a capture
    let mut b = Board::with_keys(fixed_keys());
    let algo = Algorithms::new(Team::White);
    let moves = algo.get_valid_moves(&mut b, Team::White);
    assert_eq!(moves.len(), 20);
    let mut pawn_moves = 0;
    let mut knight_moves = 0;
    for (pc, m) in moves.iter() {
        assert!(b.tiles[(m.end.row as usize) * 8 + (m.end.col as usize)]
            .present_piece
            .is_none());
        match pc.ptype {
            PieceType::Pawn => pawn_moves += 1,
            PieceType::Knight => knight_moves += 1,
            _ => panic!("unexpected mover"),
        }
    }
    assert_eq!(pawn_moves, 16);
    assert_eq!(knight_moves, 4);
}

#[test]
fn ordered_moves_are_a_permutation() {
    let mut b = Board::with_keys(fixed_keys());
    let algo = Algorithms::new(Team::White);
    let mut plain = algo.get_valid_moves(&mut b, Team::White);
    let mut ordered = algo.get_ordered_valid_moves(&mut b, Team::White);
    assert_eq!(plain.len(), ordered.len());
    let key = |p: &(chess_core::piece::Piece, chess_core::tile::Move)| {
        (p.1.initial.row, p.1.initial.col, p.1.end.row, p.1.end.col)
    };
    plain.sort_by_key(key);
    ordered.sort_by_key(key);
    for (a, b2) in plain.iter().zip(ordered.iter()) {
        assert_eq!(key(a), key(b2));
    }
}

#[test]
fn capture_ordered_last() {
    // ascending heuristic order: the one winning capture comes last
    let mut b = empty_board();
    b.place_piece(PieceType::King, Team::White, 7, 7);
    b.place_piece(PieceType::King, Team::Black, 0, 0);
    b.place_piece(PieceType::Rook, Team::White, 4, 0);
    b.place_piece(PieceType::Queen, Team::Black, 4, 4);
    let algo = Algorithms::new(Team::White);
    let ordered = algo.get_ordered_valid_moves(&mut b, Team::White);
    let last = ordered.last().expect("rook has moves");
    assert_eq!((last.1.end.row, last.1.end.col), (4, 4));
}

#[test]
fn alphabeta_depth_zero_returns_signed_evaluation() {
    let b = Board::with_keys(fixed_keys());
    let algo = Algorithms::new(Team::Black);
    let material = 8 * 124 + 2 * 781 + 2 * 825 + 2 * 1276 + 2538;
    for (alpha, beta) in [(-SCORE_INF, SCORE_INF), (5, -3), (SCORE_INF, SCORE_INF)] {
        let (v, (p, m)) = algo.alphabeta(b.copy(), 0, 1, alpha, beta);
        assert_eq!(v, material);
        assert!(p.is_none() && m.is_none());
        let (v2, (p2, m2)) = algo.alphabeta(b.copy(), 0, -1, alpha, beta);
        assert_eq!(v2, -material);
        assert!(p2.is_none() && m2.is_none());
    }
}

#[test]
fn alphabeta_prefers_promotion() {
    // evaluation counts own material only, so at depth one the search
    // promotes its pawn rather than shuffle the king
    let mut b = empty_board();
    b.place_piece(PieceType::King, Team::White, 7, 7);
    b.place_piece(PieceType::King, Team::Black, 0, 0);
    b.place_piece(PieceType::Pawn, Team::White, 1, 6);
    let algo = Algorithms::new(Team::White);
    let (v, (p, m)) = algo.alphabeta(b.copy(), 1, 1, -SCORE_INF, SCORE_INF);
    let best = m.expect("a best move exists");
    assert!(p.is_some());
    assert_eq!((best.end.row, best.end.col), (0, 6));
    assert_eq!(v, 2538);
}

#[test]
fn pruning_preserves_the_search_value() {
    // alpha-beta with full bounds agrees with an unpruned full-width
    // search of the same depth
    let mut b = empty_board();
    b.place_piece(PieceType::King, Team::White, 7, 6);
    b.place_piece(PieceType::King, Team::Black, 0, 1);
    b.place_piece(PieceType::Rook, Team::White, 5, 2);
    b.place_piece(PieceType::Knight, Team::Black, 3, 3);
    b.place_piece(PieceType::Pawn, Team::White, 6, 6);
    b.place_piece(PieceType::Pawn, Team::Black, 1, 1);
    let algo = Algorithms::new(Team::White);
    for depth in 1..=2isize {
        let (v, _) = algo.alphabeta(b.copy(), depth, 1, -SCORE_INF, SCORE_INF);
        let r = ref_negamax(&algo, &b, depth, 1);
        assert_eq!(v, r);
    }
}

#[test]
fn lane_split_and_selection() {
    let mut b = Board::with_keys(fixed_keys());
    let algo = Algorithms::new(Team::White);
    let moves = algo.get_valid_moves(&mut b, Team::White);
    let n = 3usize;
    let mut total = 0;
    for lane in 0..n {
        let share = lane_moves(&moves, lane, n);
        for (i, pair) in share.iter().enumerate() {
            let src = &moves[lane + i * n];
            assert_eq!(pair.0.uid, src.0.uid);
            assert_eq!(
                (pair.1.initial.row, pair.1.initial.col, pair.1.end.row, pair.1.end.col),
                (src.1.initial.row, src.1.initial.col, src.1.end.row, src.1.end.col)
            );
        }
        total += share.len();
    }
    assert_eq!(total, moves.len());
    let results = vec![
        (5, (None, None)),
        (-2, (None, None)),
        (7, (None, None)),
    ];
    let best = select_best_result(&results);
    assert_eq!(best.0, -2);
}

#[test]
fn worker_matches_single_lane_search() {
    let mut b = Board::with_keys(fixed_keys());
    let algo = Algorithms::new(Team::White);
    let moves = algo.get_ordered_valid_moves(&mut b, Team::White);
    let all = lane_moves(&moves, 0, 1);
    assert_eq!(all.len(), moves.len());
    let (v, (p, m)) = algo.search_multi_worker(&all, b.copy(), 2, 1, -SCORE_INF, SCORE_INF);
    assert!(p.is_some() && m.is_some());
    assert!(-SCORE_INF <= v && v <= SCORE_INF);
}
