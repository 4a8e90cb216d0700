use chess::{get_nth_bit, Chess, EnPassant, Piece, PieceType, Side};

fn empty_board(turn: usize) -> Chess {
    Chess {
        board: [[0; 6]; 2],
        turn,
        en_passant: None,
    }
}

fn place(chess: &mut Chess, side: usize, piece_type: usize, square: u8) {
    chess.board[side][piece_type] |= 1u64 << square;
}

fn squares(mask: u64) -> Vec<u8> {
    (0..64u8).filter(|&n| get_nth_bit(mask, n) == 1).collect()
}

fn same_state(a: &Chess, b: &Chess) -> bool {
    a.board == b.board && a.turn == b.turn && a.en_passant == b.en_passant
}

#[test]
fn opening_knights_have_two_moves_forward() {
    let mut chess = Chess::new();
    let left = chess.legal_moves(1, Some(Side::WHITE));
    assert_eq!(squares(left), vec![16, 18]);
    let right = chess.legal_moves(6, Some(Side::WHITE));
    assert_eq!(squares(right), vec![21, 23]);
}

#[test]
fn opening_pawns_have_single_and_double_step() {
    let mut chess = Chess::new();
    for i in 8..16u8 {
        let moves = chess.legal_moves(i, Some(Side::WHITE));
        assert_eq!(squares(moves), vec![i + 8, i + 16]);
    }
}

#[test]
fn opening_moves_never_land_on_own_pieces() {
    let mut chess = Chess::new();
    let white = chess.side_pieces(Side::WHITE);
    let mut total = 0;
    for i in 0..64u8 {
        let moves = chess.legal_moves(i, Some(Side::WHITE));
        assert_eq!(moves & white, 0);
        total += squares(moves).len();
    }
    assert_eq!(total, 20);
}

#[test]
fn opening_black_pieces_wait_for_their_turn() {
    let mut chess = Chess::new();
    assert_eq!(chess.legal_moves(48, Some(Side::WHITE)), 0);
    assert_eq!(squares(chess.legal_moves(48, Some(Side::BLACK))), vec![32, 40]);
    assert_eq!(squares(chess.legal_moves(57, None)), vec![40, 42]);
    assert_eq!(chess.legal_moves(20, None), 0);
}

#[test]
fn rook_stops_at_opponent_piece_on_its_rank() {
    let mut chess = empty_board(Side::WHITE);
    place(&mut chess, Side::WHITE, PieceType::ROOK, 0);
    place(&mut chess, Side::BLACK, PieceType::PAWN, 2);
    place(&mut chess, Side::WHITE, PieceType::KING, 39);
    place(&mut chess, Side::BLACK, PieceType::KING, 61);
    let moves = chess.legal_moves(0, Some(Side::WHITE));
    assert_eq!(get_nth_bit(moves, 1), 1);
    assert_eq!(get_nth_bit(moves, 2), 1);
    for beyond in 3..8u8 {
        assert_eq!(get_nth_bit(moves, beyond), 0);
    }
    assert_eq!(squares(moves), vec![1, 2, 8, 16, 24, 32, 40, 48, 56]);
}

#[test]
fn bishop_and_queen_rays_stop_at_the_edge() {
    let mut chess = empty_board(Side::WHITE);
    place(&mut chess, Side::WHITE, PieceType::BISHOP, 7);
    place(&mut chess, Side::WHITE, PieceType::KING, 0);
    place(&mut chess, Side::BLACK, PieceType::KING, 63);
    let moves = chess.legal_moves(7, None);
    assert_eq!(squares(moves), vec![14, 21, 28, 35, 42, 49, 56]);
    let mut chess = empty_board(Side::WHITE);
    place(&mut chess, Side::WHITE, PieceType::QUEEN, 27);
    place(&mut chess, Side::WHITE, PieceType::KING, 0);
    place(&mut chess, Side::BLACK, PieceType::KING, 63);
    let queen = chess.legal_moves(27, None);
    assert_eq!(squares(queen).len(), 26);
    assert_eq!(get_nth_bit(queen, 63), 1);
    assert_eq!(get_nth_bit(queen, 0), 0);
}

#[test]
fn king_and_knight_do_not_wrap_around_the_edge() {
    let mut chess = empty_board(Side::WHITE);
    place(&mut chess, Side::WHITE, PieceType::KING, 8);
    place(&mut chess, Side::WHITE, PieceType::KNIGHT, 23);
    place(&mut chess, Side::BLACK, PieceType::KING, 63);
    assert_eq!(squares(chess.legal_moves(8, None)), vec![0, 1, 9, 16, 17]);
    assert_eq!(squares(chess.legal_moves(23, None)), vec![6, 13, 29, 38]);
}

#[test]
fn pinned_rook_stays_on_the_pin_line() {
    let mut chess = empty_board(Side::WHITE);
    place(&mut chess, Side::WHITE, PieceType::KING, 3);
    place(&mut chess, Side::WHITE, PieceType::ROOK, 11);
    place(&mut chess, Side::BLACK, PieceType::ROOK, 59);
    place(&mut chess, Side::BLACK, PieceType::KING, 63);
    let moves = chess.legal_moves(11, Some(Side::WHITE));
    assert_eq!(squares(moves), vec![19, 27, 35, 43, 51, 59]);
    for to in squares(moves) {
        let mut trial = chess;
        trial.make_move(11, to);
        assert!(!trial.is_in_check(Side::WHITE));
    }
}

#[test]
fn king_cannot_step_into_attack() {
    let mut chess = empty_board(Side::WHITE);
    place(&mut chess, Side::WHITE, PieceType::KING, 3);
    place(&mut chess, Side::BLACK, PieceType::ROOK, 58);
    place(&mut chess, Side::BLACK, PieceType::KING, 63);
    assert_eq!(squares(chess.legal_moves(3, None)), vec![4, 11, 12]);
}

#[test]
fn check_from_each_kind_of_piece() {
    let mut chess = empty_board(Side::WHITE);
    place(&mut chess, Side::WHITE, PieceType::KING, 3);
    place(&mut chess, Side::BLACK, PieceType::KING, 63);
    assert!(!chess.is_in_check(Side::WHITE));
    let mut rook = chess;
    place(&mut rook, Side::BLACK, PieceType::ROOK, 59);
    assert!(rook.is_in_check(Side::WHITE));
    place(&mut rook, Side::WHITE, PieceType::PAWN, 19);
    assert!(!rook.is_in_check(Side::WHITE));
    let mut knight = chess;
    place(&mut knight, Side::BLACK, PieceType::KNIGHT, 20);
    assert!(knight.is_in_check(Side::WHITE));
    let mut pawn = chess;
    place(&mut pawn, Side::BLACK, PieceType::PAWN, 12);
    assert!(pawn.is_in_check(Side::WHITE));
    let mut ahead = chess;
    place(&mut ahead, Side::BLACK, PieceType::PAWN, 11);
    assert!(!ahead.is_in_check(Side::WHITE));
    let mut bishop = chess;
    place(&mut bishop, Side::BLACK, PieceType::BISHOP, 39);
    assert!(bishop.is_in_check(Side::WHITE));
    let mut queen = chess;
    place(&mut queen, Side::BLACK, PieceType::QUEEN, 1);
    assert!(queen.is_in_check(Side::WHITE));
    assert!(!queen.is_in_check(Side::BLACK));
}

#[test]
fn accepted_move_passes_the_turn() {
    let mut chess = Chess::new();
    chess.move_piece(12, 28);
    assert_eq!(chess.turn, Side::BLACK);
    assert_eq!(chess.en_passant, Some(EnPassant(28, 20)));
    assert_eq!(chess.get_piece_at(28), Some(Piece::new(Side::WHITE, PieceType::PAWN)));
    assert_eq!(chess.get_piece_at(12), None);
    chess.move_piece(57, 42);
    assert_eq!(chess.turn, Side::WHITE);
    assert_eq!(chess.en_passant, None);
    assert_eq!(chess.get_piece_at(42), Some(Piece::new(Side::BLACK, PieceType::KNIGHT)));
}

#[test]
fn illegal_destination_leaves_the_board_untouched() {
    let mut chess = Chess::new();
    let before = chess;
    chess.move_piece(1, 11);
    assert!(same_state(&chess, &before));
    chess.move_piece(8, 32);
    assert!(same_state(&chess, &before));
    chess.move_piece(48, 40);
    assert!(same_state(&chess, &before));
    chess.move_piece(20, 28);
    assert!(same_state(&chess, &before));
    assert_eq!(chess.turn, Side::WHITE);
}

#[test]
fn en_passant_takes_the_pawn_beside() {
    let mut chess = Chess::new();
    chess.move_piece(9, 25);
    chess.move_piece(48, 40);
    chess.move_piece(25, 33);
    chess.move_piece(50, 34);
    assert_eq!(chess.turn, Side::WHITE);
    assert_eq!(chess.en_passant, Some(EnPassant(34, 42)));
    chess.make_move(33, 42);
    assert_eq!(chess.get_piece_at(34), None);
    assert_eq!(chess.get_piece_at(33), None);
    assert_eq!(chess.get_piece_at(42), Some(Piece::new(Side::WHITE, PieceType::PAWN)));
    assert_eq!(chess.en_passant, None);
    assert_eq!(squares(chess.board[Side::BLACK][PieceType::PAWN]).len(), 7);
}

#[test]
fn ordinary_capture_removes_the_taken_piece() {
    let mut chess = Chess::new();
    chess.move_piece(12, 28);
    chess.move_piece(51, 35);
    let moves = chess.legal_moves(28, Some(Side::WHITE));
    assert_eq!(squares(moves), vec![35, 36]);
    chess.move_piece(28, 35);
    assert_eq!(chess.get_piece_at(35), Some(Piece::new(Side::WHITE, PieceType::PAWN)));
    assert_eq!(squares(chess.board[Side::BLACK][PieceType::PAWN]).len(), 7);
    assert_eq!(chess.turn, Side::BLACK);
}

#[test]
fn make_move_from_empty_square_changes_nothing() {
    let mut chess = Chess::new();
    let before = chess;
    chess.make_move(20, 28);
    assert!(same_state(&chess, &before));
}

#[test]
fn opening_position_lookup() {
    let chess = Chess::new();
    assert_eq!(chess.get_piece_at(3), Some(Piece::new(Side::WHITE, PieceType::KING)));
    assert_eq!(chess.get_piece_at(4), Some(Piece::new(Side::WHITE, PieceType::QUEEN)));
    assert_eq!(chess.get_piece_at(59), Some(Piece::new(Side::BLACK, PieceType::KING)));
    assert_eq!(chess.get_piece_at(63), Some(Piece::new(Side::BLACK, PieceType::ROOK)));
    assert_eq!(chess.get_piece_at(32), None);
    assert_eq!(chess.turn, Side::WHITE);
    assert_eq!(chess.en_passant, None);
    let default = Chess::default();
    assert!(same_state(&chess, &default));
}

#[test]
fn glyphs_of_pieces() {
    assert_eq!(Piece::new(Side::WHITE, PieceType::KNIGHT).get_char(), 'N');
    assert_eq!(Piece::new(Side::BLACK, PieceType::KNIGHT).get_char(), 'n');
    assert_eq!(Piece::new(Side::WHITE, PieceType::PAWN).get_char(), 'P');
    assert_eq!(Piece::new(Side::BLACK, PieceType::BISHOP).get_char(), 'b');
    assert_eq!(Piece::new(Side::WHITE, PieceType::ROOK).get_char(), 'R');
    assert_eq!(Piece::new(Side::BLACK, PieceType::QUEEN).get_char(), 'q');
    assert_eq!(Piece::new(Side::WHITE, PieceType::KING).get_char(), 'K');
    assert_eq!(Piece::new(Side::WHITE, 9).get_char(), '-');
}

#[test]
fn bits_and_sides() {
    assert_eq!(get_nth_bit(0b1010, 1), 1);
    assert_eq!(get_nth_bit(0b1010, 2), 0);
    assert_eq!(get_nth_bit(u64::MAX, 63), 1);
    assert_eq!(Side::get_opposite(Side::WHITE), Side::BLACK);
    assert_eq!(Side::get_opposite(Side::BLACK), Side::WHITE);
    assert_eq!(Side::get_opposite(7), Side::WHITE);
}

#[test]
fn whole_army_masks() {
    let mut chess = Chess::new();
    assert_eq!(chess.get_white_pawn_moves(None), 0);
    assert_eq!(chess.get_knight_pseudo_moves(None, Side::WHITE), (1 << 16) | (1 << 18) | (1 << 21) | (1 << 23));
    assert_eq!(chess.get_rook_pseudo_moves(None, Side::WHITE), 0);
    assert_eq!(squares(chess.get_black_pawn_moves(Some(52))), vec![36, 44]);
}

#[test]
fn every_square_has_at_most_one_owner_during_play() {
    let mut chess = Chess::new();
    let moves: [(u8, u8); 8] = [(12, 28), (51, 35), (28, 35), (60, 51), (1, 18), (51, 35), (18, 35), (62, 45)];
    for (from, to) in moves {
        chess.move_piece(from, to);
        for square in 0..64u8 {
            let owners = chess
                .board
                .iter()
                .flat_map(|row| row.iter())
                .filter(|&&b| get_nth_bit(b, square) == 1)
                .count();
            assert!(owners <= 1);
        }
    }
    assert_eq!(chess.get_piece_at(35), Some(Piece::new(Side::WHITE, PieceType::KNIGHT)));
    assert_eq!(chess.board[Side::BLACK][PieceType::QUEEN], 0);
    assert_eq!(chess.turn, Side::WHITE);
}

#[test]
fn generator_with_a_square_drops_moves_into_check() {
    let mut chess = empty_board(Side::WHITE);
    place(&mut chess, Side::WHITE, PieceType::KING, 3);
    place(&mut chess, Side::WHITE, PieceType::PAWN, 11);
    place(&mut chess, Side::BLACK, PieceType::ROOK, 19);
    place(&mut chess, Side::BLACK, PieceType::PAWN, 20);
    place(&mut chess, Side::BLACK, PieceType::KING, 63);
    let before = chess;
    assert_eq!(chess.get_white_pawn_moves(Some(11)), 0);
    assert!(same_state(&chess, &before));
    let mut trial = chess;
    trial.make_move(11, 20);
    assert!(trial.is_in_check(Side::WHITE));
    assert_eq!(squares(chess.get_king_pseudo_moves(Some(3), Side::WHITE)), vec![2, 4, 10, 12]);
    assert_eq!(squares(chess.get_rook_pseudo_moves(None, Side::BLACK)), vec![11, 16, 17, 18, 27, 35, 43, 51, 59]);
}

#[test]
fn generators_with_a_square_match_legal_moves() {
    let mut chess = Chess::new();
    chess.move_piece(12, 28);
    chess.move_piece(51, 35);
    chess.move_piece(5, 33);
    assert_eq!(chess.turn, Side::BLACK);
    for i in 0..64u8 {
        if let Some(piece) = chess.get_piece_at(i) {
            let legal = chess.legal_moves(i, None);
            let generated = if piece.piece_type == PieceType::KING {
                chess.get_king_pseudo_moves(Some(i), piece.side)
            } else if piece.piece_type == PieceType::KNIGHT {
                chess.get_knight_pseudo_moves(Some(i), piece.side)
            } else if piece.piece_type == PieceType::BISHOP {
                chess.get_bishop_pseudo_moves(Some(i), piece.side)
            } else if piece.piece_type == PieceType::ROOK {
                chess.get_rook_pseudo_moves(Some(i), piece.side)
            } else if piece.piece_type == PieceType::QUEEN {
                chess.get_queen_pseudo_moves(Some(i), piece.side)
            } else if piece.side == Side::WHITE {
                chess.get_white_pawn_moves(Some(i))
            } else {
                chess.get_black_pawn_moves(Some(i))
            };
            assert_eq!(generated, legal);
            for to in squares(legal) {
                let mut trial = chess;
                trial.make_move(i, to);
                assert!(!trial.is_in_check(piece.side));
            }
        }
    }
    assert_eq!(chess.get_piece_at(33), Some(Piece::new(Side::WHITE, PieceType::BISHOP)));
    assert_eq!(squares(chess.get_bishop_pseudo_moves(Some(33), Side::WHITE)), vec![5, 12, 19, 24, 26, 40, 42, 51, 60]);
}

#[test]
fn pawn_moving_two_ranks_backward_leaves_no_marker() {
    let mut chess = empty_board(Side::BLACK);
    place(&mut chess, Side::WHITE, PieceType::KING, 3);
    place(&mut chess, Side::BLACK, PieceType::PAWN, 12);
    place(&mut chess, Side::BLACK, PieceType::KING, 63);
    chess.make_move(12, 28);
    assert_eq!(chess.en_passant, None);
    chess.make_move(28, 12);
    assert_eq!(chess.en_passant, Some(EnPassant(12, 20)));
}
