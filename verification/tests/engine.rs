use chess_core::board::Board;
use chess_core::constants::{Constants, COLS, ROWS};
use chess_core::piece::{Piece, PieceType};
use chess_core::team::Team;
use chess_core::tile::{Move, Tile};
use chess_core::utils::inrange;
use chess_core::zobrist::create_zobrist_keys;

fn mv(ir: isize, ic: isize, er: isize, ec: isize) -> Move {
    let mut initial = Tile::new();
    let mut end = Tile::new();
    initial.init(ir, ic, None);
    end.init(er, ec, None);
    Move::new(initial, end)
}

fn fixed_keys() -> Vec<u64> {
    let mut keys = Vec::new();
    for i in 0..768u64 {
        keys.push(i.wrapping_mul(0x9e3779b97f4a7c15).wrapping_add(12345));
    }
    keys
}

fn empty_board() -> Board {
    let mut b = Board::with_keys(fixed_keys());
    for r in 0..8usize {
        for c in 0..8usize {
            b.remove_piece(r, c);
        }
    }
    b
}

fn piece_at(b: &Board, r: usize, c: usize) -> Piece {
    b.tiles[r * 8 + c].present_piece.expect("piece expected")
}

#[test]
fn team_lookups() {
    assert_eq!(Team::White.other(), Team::Black);
    assert_eq!(Team::Black.other(), Team::White);
    assert_eq!(Team::Neutral.other(), Team::Neutral);
    assert!(Team::White.as_bool());
    assert!(Team::Black.as_bool());
    assert!(!Team::Neutral.as_bool());
    assert_eq!(Team::White.as_int(), 1);
    assert_eq!(Team::Black.as_int(), 0);
    assert_eq!(Team::White.as_string(), "White");
    assert_eq!(Team::Black.as_string(), "Black");
}

#[test]
fn piece_type_values() {
    assert_eq!(PieceType::Pawn.value_mg(), 124);
    assert_eq!(PieceType::Knight.value_mg(), 781);
    assert_eq!(PieceType::Bishop.value_mg(), 825);
    assert_eq!(PieceType::Rook.value_mg(), 1276);
    assert_eq!(PieceType::Queen.value_mg(), 2538);
    assert_eq!(PieceType::King.value_mg(), 0);
    assert_eq!(PieceType::Pawn.value_eg(), 206);
    assert_eq!(PieceType::Queen.value_eg(), 2682);
    assert_eq!(PieceType::Queen.as_int(), 5);
    assert_eq!(PieceType::Empty.as_int(), 0);
    assert_eq!(PieceType::Knight.as_string(), "knight");
}

#[test]
fn piece_construction() {
    let p = Piece::new(PieceType::Rook, Team::Black, 7, 0, 0);
    assert_eq!(p.ptype, PieceType::Rook);
    assert_eq!(p.uid, 7);
    assert_eq!(p.color, Team::Black);
    assert_eq!(p.value_mg, 1276);
    assert_eq!(p.value_eg, 1380);
    assert!(!p.has_moved);
    assert_eq!(p.dir, 1);
    let w = Piece::new(PieceType::Pawn, Team::White, 1, 6, 0);
    assert_eq!(w.dir, -1);
    let mut q = w.copy();
    assert_eq!(q.uid, w.uid);
    q.make_moved();
    assert!(q.has_moved);
    assert!(!w.has_moved);
}

#[test]
fn inrange_bounds() {
    assert!(inrange(0));
    assert!(inrange(7));
    assert!(!inrange(-1));
    assert!(!inrange(8));
}

#[test]
fn constants_paths() {
    assert_eq!(Constants::new().zobrist_file, "internal/zobrist.bin");
    assert_eq!(ROWS, 8);
    assert_eq!(COLS, 8);
}

#[test]
fn starting_arrangement() {
    let b = Board::new();
    assert_eq!(piece_at(&b, 7, 4).ptype, PieceType::King);
    assert_eq!(piece_at(&b, 7, 4).color, Team::White);
    assert_eq!(piece_at(&b, 0, 3).ptype, PieceType::Queen);
    assert_eq!(piece_at(&b, 0, 3).color, Team::Black);
    for c in 0..8usize {
        assert_eq!(piece_at(&b, 6, c).ptype, PieceType::Pawn);
        assert_eq!(piece_at(&b, 6, c).color, Team::White);
        assert_eq!(piece_at(&b, 1, c).ptype, PieceType::Pawn);
        assert_eq!(piece_at(&b, 1, c).color, Team::Black);
    }
    for r in 2..6usize {
        for c in 0..8usize {
            assert!(b.tiles[r * 8 + c].present_piece.is_none());
        }
    }
    let keys = create_zobrist_keys();
    assert_eq!(keys.len(), 768);
}

#[test]
fn evaluation_is_own_material() {
    let b = Board::with_keys(fixed_keys());
    // 8 pawns, 2 knights, 2 bishops, 2 rooks, 1 queen; the king counts zero
    let expected = 8 * 124 + 2 * 781 + 2 * 825 + 2 * 1276 + 2538;
    assert_eq!(b.evaluate(Team::White), expected);
    assert_eq!(b.evaluate(Team::Black), expected);
    assert_eq!(b.accumulate_material(Team::White), expected);
}

#[test]
fn round_trip_simple_move() {
    let mut b = Board::with_keys(fixed_keys());
    let h0 = b.zobrist_hash();
    let mut p = piece_at(&b, 6, 4);
    b.execute_move(&mut p, mv(6, 4, 4, 4), false, false);
    assert_ne!(b.zobrist_hash(), h0);
    assert!(piece_at(&b, 4, 4).has_moved);
    assert!(b.undo_last_move());
    assert_eq!(b.zobrist_hash(), h0);
    assert!(!piece_at(&b, 6, 4).has_moved);
    assert!(!piece_at(&b, 6, 4).en_passant);
}

#[test]
fn round_trip_capture() {
    let mut b = Board::with_keys(fixed_keys());
    let mut wp = piece_at(&b, 6, 4);
    b.execute_move(&mut wp, mv(6, 4, 4, 4), false, false);
    let mut bp = piece_at(&b, 1, 3);
    b.execute_move(&mut bp, mv(1, 3, 3, 3), false, false);
    let h0 = b.zobrist_hash();
    let mut wp2 = piece_at(&b, 4, 4);
    b.execute_move(&mut wp2, mv(4, 4, 3, 3), false, false);
    assert!(b.undo_last_move());
    assert_eq!(b.zobrist_hash(), h0);
    assert_eq!(piece_at(&b, 3, 3).color, Team::Black);
    assert_eq!(piece_at(&b, 4, 4).color, Team::White);
}

#[test]
fn round_trip_castle() {
    let mut b = Board::with_keys(fixed_keys());
    b.remove_piece(7, 5);
    b.remove_piece(7, 6);
    let h0 = b.zobrist_hash();
    let mut k = piece_at(&b, 7, 4);
    b.execute_move(&mut k, mv(7, 4, 7, 6), false, false);
    assert_eq!(piece_at(&b, 7, 6).ptype, PieceType::King);
    assert_eq!(piece_at(&b, 7, 5).ptype, PieceType::Rook);
    assert!(b.tiles[7 * 8 + 7].present_piece.is_none());
    assert!(b.undo_last_move());
    assert_eq!(b.zobrist_hash(), h0);
    assert_eq!(piece_at(&b, 7, 4).ptype, PieceType::King);
    assert_eq!(piece_at(&b, 7, 7).ptype, PieceType::Rook);
    assert!(!piece_at(&b, 7, 7).has_moved);
}

#[test]
fn round_trip_promotion() {
    let mut b = empty_board();
    b.place_piece(PieceType::King, Team::White, 7, 4);
    b.place_piece(PieceType::King, Team::Black, 0, 0);
    b.place_piece(PieceType::Pawn, Team::White, 1, 6);
    let h0 = b.zobrist_hash();
    let mut p = piece_at(&b, 1, 6);
    b.execute_move(&mut p, mv(1, 6, 0, 6), false, false);
    assert_eq!(piece_at(&b, 0, 6).ptype, PieceType::Queen);
    assert!(b.undo_last_move());
    assert_eq!(b.zobrist_hash(), h0);
    assert_eq!(piece_at(&b, 1, 6).ptype, PieceType::Pawn);
}

#[test]
fn undo_empty_log_is_noop() {
    let mut b = Board::with_keys(fixed_keys());
    let h0 = b.zobrist_hash();
    assert!(!b.undo_last_move());
    assert_eq!(b.zobrist_hash(), h0);
}

#[test]
fn is_castling_pattern() {
    let b = Board::with_keys(fixed_keys());
    let mut a = Tile::new();
    a.init(7, 4, None);
    let mut c = Tile::new();
    c.init(7, 6, None);
    assert!(b.is_castling(a, c));
    let mut d = Tile::new();
    d.init(7, 5, None);
    assert!(!b.is_castling(a, d));
}

#[test]
fn legality_start_pawn_and_knight() {
    let mut b = Board::with_keys(fixed_keys());
    b.calc_team_valid_moves(Team::White);
    // a knight on its starting square has two jumps
    let n = piece_at(&b, 7, 1);
    assert!(b.is_valid(n, mv(7, 1, 5, 0)));
    assert!(b.is_valid(n, mv(7, 1, 5, 2)));
    assert!(!b.is_valid(n, mv(7, 1, 5, 1)));
    // a pawn may advance one or two squares, nothing else
    let p = piece_at(&b, 6, 4);
    assert!(b.is_valid(p, mv(6, 4, 5, 4)));
    assert!(b.is_valid(p, mv(6, 4, 4, 4)));
    assert!(!b.is_valid(p, mv(6, 4, 3, 4)));
    assert!(!b.is_valid(p, mv(6, 4, 5, 3)));
}

#[test]
fn legality_pinned_piece() {
    // a White knight shielding its King from a Black rook may not move
    let mut b = empty_board();
    b.place_piece(PieceType::King, Team::White, 7, 4);
    b.place_piece(PieceType::Knight, Team::White, 5, 4);
    b.place_piece(PieceType::Rook, Team::Black, 0, 4);
    b.place_piece(PieceType::King, Team::Black, 0, 0);
    let (in_check, pins, checks) = b.get_pins_and_checks(Team::White);
    assert!(!in_check);
    assert_eq!(checks.len(), 0);
    assert_eq!(pins.len(), 1);
    assert_eq!((pins[0].0.row, pins[0].0.col), (5, 4));
    b.calc_team_valid_moves(Team::White);
    let n = piece_at(&b, 5, 4);
    assert!(!b.is_valid(n, mv(5, 4, 3, 3)));
    assert!(!b.is_valid(n, mv(5, 4, 3, 5)));
}

#[test]
fn rook_check_responses() {
    // White King on e1 checked by a Black Rook on e8 over an empty file:
    // the King's only legal moves leave the e-file
    let mut b = empty_board();
    b.place_piece(PieceType::King, Team::White, 7, 4);
    b.place_piece(PieceType::Rook, Team::Black, 0, 4);
    b.place_piece(PieceType::King, Team::Black, 0, 0);
    let (in_check, _pins, checks) = b.get_pins_and_checks(Team::White);
    assert!(in_check);
    assert_eq!(checks.len(), 1);
    b.calc_team_valid_moves(Team::White);
    let k = piece_at(&b, 7, 4);
    assert!(b.is_valid(k, mv(7, 4, 7, 3)));
    assert!(b.is_valid(k, mv(7, 4, 7, 5)));
    assert!(b.is_valid(k, mv(7, 4, 6, 3)));
    assert!(b.is_valid(k, mv(7, 4, 6, 5)));
    assert!(!b.is_valid(k, mv(7, 4, 6, 4)));
    let entry = &b.white_moves[7 * 8 + 4];
    assert_eq!(entry.len(), 4);
    for m in entry.iter() {
        assert_ne!(m.end.col, 4);
    }
}

#[test]
fn rook_check_blocking_piece() {
    // with a White rook on a1, blocking on e-file squares or capturing
    // the checker are the rook's only legal moves
    let mut b = empty_board();
    b.place_piece(PieceType::King, Team::White, 7, 4);
    b.place_piece(PieceType::Rook, Team::White, 7, 0);
    b.place_piece(PieceType::Rook, Team::Black, 0, 4);
    b.place_piece(PieceType::King, Team::Black, 0, 0);
    b.calc_team_valid_moves(Team::White);
    let entry = &b.white_moves[7 * 8 + 0];
    // the a1 rook cannot reach the e-file between e2..e8 except via a8;
    // a8 is not on the king-to-checker segment, so it has no legal move
    for m in entry.iter() {
        assert_eq!(m.end.col, 4);
    }
}

#[test]
fn double_check_only_king_moves() {
    let mut b = empty_board();
    b.place_piece(PieceType::King, Team::Black, 0, 4);
    b.place_piece(PieceType::Rook, Team::White, 7, 4);
    b.place_piece(PieceType::Knight, Team::White, 2, 3);
    b.place_piece(PieceType::Queen, Team::Black, 4, 0);
    b.place_piece(PieceType::King, Team::White, 7, 0);
    let (in_check, _pins, checks) = b.get_pins_and_checks(Team::Black);
    assert!(in_check);
    assert_eq!(checks.len(), 2);
    b.calc_team_valid_moves(Team::Black);
    // the queen is immobilized by the double check
    assert_eq!(b.black_moves[4 * 8 + 0].len(), 0);
    // the king escapes to d8, f8 or d7 only
    let entry = &b.black_moves[0 * 8 + 4];
    assert_eq!(entry.len(), 3);
    for m in entry.iter() {
        let dest = (m.end.row, m.end.col);
        assert!(dest == (0, 3) || dest == (0, 5) || dest == (1, 3));
    }
}

#[test]
fn checkmate_and_stalemate() {
    // a cornered king, queen adjacent and protected: checkmate
    let mut b = empty_board();
    b.place_piece(PieceType::King, Team::Black, 0, 7);
    b.place_piece(PieceType::Queen, Team::White, 1, 6);
    b.place_piece(PieceType::King, Team::White, 2, 6);
    assert!(b.is_checkmate(Team::Black));
    assert!(!b.is_stalemate(Team::Black));
    assert!(b.in_checkmate(Team::Black));
    assert!(b.is_terminal());

    // a cornered king with no move but not in check: stalemate
    let mut s = empty_board();
    s.place_piece(PieceType::King, Team::Black, 0, 0);
    s.place_piece(PieceType::Queen, Team::White, 1, 2);
    s.place_piece(PieceType::King, Team::White, 2, 1);
    assert!(s.is_stalemate(Team::Black));
    assert!(!s.is_checkmate(Team::Black));
    assert!(s.in_checkmate(Team::Black));

    // the starting position is neither
    let mut n = Board::with_keys(fixed_keys());
    assert!(!n.is_checkmate(Team::White));
    assert!(!n.is_stalemate(Team::White));
}

#[test]
fn castling_rights_and_attacked_transit() {
    // with the squares clear, both castles are offered
    let mut b = Board::with_keys(fixed_keys());
    b.remove_piece(7, 5);
    b.remove_piece(7, 6);
    b.calc_team_valid_moves(Team::White);
    let k = piece_at(&b, 7, 4);
    assert!(b.is_valid(k, mv(7, 4, 7, 6)));

    // a Black rook eyeing the transit square forbids the kingside castle
    let mut c = Board::with_keys(fixed_keys());
    c.remove_piece(7, 5);
    c.remove_piece(7, 6);
    c.remove_piece(6, 5);
    c.remove_piece(1, 5);
    c.remove_piece(0, 5);
    c.place_piece(PieceType::Rook, Team::Black, 2, 5);
    c.calc_team_valid_moves(Team::White);
    let k2 = piece_at(&c, 7, 4);
    assert!(!c.is_valid(k2, mv(7, 4, 7, 6)));

    // a moved king loses the right
    let mut d = Board::with_keys(fixed_keys());
    d.remove_piece(7, 5);
    d.remove_piece(7, 6);
    let mut kp = piece_at(&d, 7, 4);
    d.execute_move(&mut kp, mv(7, 4, 7, 5), false, false);
    let mut kp2 = piece_at(&d, 7, 5);
    d.execute_move(&mut kp2, mv(7, 5, 7, 4), false, false);
    d.calc_team_valid_moves(Team::White);
    let k3 = piece_at(&d, 7, 4);
    assert!(!d.is_valid(k3, mv(7, 4, 7, 6)));
}

#[test]
fn pinned_slider_moves_along_its_ray() {
    let mut b = empty_board();
    b.place_piece(PieceType::King, Team::White, 7, 4);
    b.place_piece(PieceType::Rook, Team::White, 5, 4);
    b.place_piece(PieceType::Rook, Team::Black, 0, 4);
    b.place_piece(PieceType::King, Team::Black, 0, 0);
    b.calc_team_valid_moves(Team::White);
    let r = piece_at(&b, 5, 4);
    // along the pin ray, in either sense
    assert!(b.is_valid(r, mv(5, 4, 4, 4)));
    assert!(b.is_valid(r, mv(5, 4, 6, 4)));
    assert!(b.is_valid(r, mv(5, 4, 0, 4)));
    // never off it
    assert!(!b.is_valid(r, mv(5, 4, 5, 0)));
    assert!(!b.is_valid(r, mv(5, 4, 5, 7)));
}

#[test]
fn blocked_pawn_advances() {
    let mut b = Board::with_keys(fixed_keys());
    // a blocker directly ahead stops both the single and the double push
    b.place_piece(PieceType::Knight, Team::Black, 5, 0);
    b.calc_team_valid_moves(Team::White);
    let p = piece_at(&b, 6, 0);
    assert!(!b.is_valid(p, mv(6, 0, 5, 0)));
    assert!(!b.is_valid(p, mv(6, 0, 4, 0)));
    // a blocker on the far square stops only the double push
    b.place_piece(PieceType::Knight, Team::Black, 4, 1);
    b.remove_piece(5, 0);
    b.calc_team_valid_moves(Team::White);
    let q = piece_at(&b, 6, 1);
    assert!(b.is_valid(q, mv(6, 1, 5, 1)));
    assert!(!b.is_valid(q, mv(6, 1, 4, 1)));
}

#[test]
fn en_passant_window() {
    // a White pawn on d5 may capture a Black pawn that just advanced
    // e7-e5, and only on the immediately following ply
    let mut b = Board::with_keys(fixed_keys());
    b.place_piece(PieceType::Pawn, Team::White, 3, 3);
    let mut bp = piece_at(&b, 1, 4);
    let push = mv(1, 4, 3, 4);
    b.execute_move(&mut bp, push, false, false);
    let mut bp2 = piece_at(&b, 3, 4);
    b.set_en_passant(&mut bp2, push);
    assert!(piece_at(&b, 3, 4).en_passant);

    b.calc_team_valid_moves(Team::White);
    let wp = piece_at(&b, 3, 3);
    assert!(b.is_valid(wp, mv(3, 3, 2, 4)));

    // any further move extinguishes the eligibility
    let mut other = piece_at(&b, 6, 0);
    let quiet = mv(6, 0, 5, 0);
    b.execute_move(&mut other, quiet, false, false);
    let mut other2 = piece_at(&b, 5, 0);
    b.set_en_passant(&mut other2, quiet);
    assert!(!piece_at(&b, 3, 4).en_passant);
    b.calc_team_valid_moves(Team::White);
    let wp2 = piece_at(&b, 3, 3);
    assert!(!b.is_valid(wp2, mv(3, 3, 2, 4)));
}

#[test]
fn en_passant_execution_removes_displaced_pawn() {
    let mut b = Board::with_keys(fixed_keys());
    b.place_piece(PieceType::Pawn, Team::White, 3, 3);
    let mut bp = piece_at(&b, 1, 4);
    let push = mv(1, 4, 3, 4);
    b.execute_move(&mut bp, push, false, false);
    let mut bp2 = piece_at(&b, 3, 4);
    b.set_en_passant(&mut bp2, push);
    let h0 = b.zobrist_hash();
    let mut wp = piece_at(&b, 3, 3);
    b.execute_move(&mut wp, mv(3, 3, 2, 4), false, false);
    // the captured pawn leaves a square that is not the destination
    assert!(b.tiles[3 * 8 + 4].present_piece.is_none());
    assert_eq!(piece_at(&b, 2, 4).color, Team::White);
    assert!(b.undo_last_move());
    assert_eq!(b.zobrist_hash(), h0);
    assert_eq!(piece_at(&b, 3, 4).color, Team::Black);
}

#[test]
fn promotion_allocates_new_identity() {
    let mut b = empty_board();
    b.place_piece(PieceType::King, Team::White, 7, 4);
    b.place_piece(PieceType::King, Team::Black, 0, 0);
    b.place_piece(PieceType::Pawn, Team::White, 1, 6);
    let pawn_uid = piece_at(&b, 1, 6).uid;
    let mut p = piece_at(&b, 1, 6);
    b.execute_move(&mut p, mv(1, 6, 0, 6), false, false);
    let q = piece_at(&b, 0, 6);
    assert_eq!(q.ptype, PieceType::Queen);
    assert_ne!(q.uid, pawn_uid);
    assert!(q.has_moved);
}

#[test]
fn simulate_and_undo_simulate() {
    let mut b = Board::with_keys(fixed_keys());
    let h0 = b.zobrist_hash();
    let p = piece_at(&b, 7, 1);
    let action = mv(7, 1, 5, 2);
    b.simulate_move(p, action);
    assert!(b.tiles[7 * 8 + 1].present_piece.is_none());
    b.undo_simulate_move(p, action);
    assert_eq!(b.zobrist_hash(), h0);
}

#[test]
fn board_copy_is_deep() {
    let mut b = Board::with_keys(fixed_keys());
    let c = b.copy();
    assert_eq!(b.zobrist_hash(), c.zobrist_hash());
    let mut p = piece_at(&b, 6, 0);
    b.execute_move(&mut p, mv(6, 0, 5, 0), false, false);
    assert_ne!(b.zobrist_hash(), c.zobrist_hash());
}

#[test]
fn start_identities_distinct() {
    let b = Board::with_keys(fixed_keys());
    let mut uids = Vec::new();
    let mut kings = (0, 0);
    for i in 0..64usize {
        if let Some(p) = b.tiles[i].present_piece {
            assert!(p.uid < b.cur_uid);
            assert!(!uids.contains(&p.uid));
            uids.push(p.uid);
            if p.ptype == PieceType::King {
                if p.color == Team::White {
                    kings.0 += 1;
                } else {
                    kings.1 += 1;
                }
            }
        }
    }
    assert_eq!(uids.len(), 32);
    assert_eq!(kings, (1, 1));
}

#[test]
fn piece_equality_is_identity() {
    let a = Piece::new(PieceType::Pawn, Team::White, 5, 6, 0);
    let b = Piece::new(PieceType::Queen, Team::Black, 5, 0, 0);
    let c = Piece::new(PieceType::Pawn, Team::White, 6, 6, 0);
    // same counter, different attributes: the same entity
    assert_eq!(a, b);
    // different counters, same attributes: distinct entities
    assert_ne!(a, c);
}
