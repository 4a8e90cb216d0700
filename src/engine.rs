//! Applying moves, detecting check, and filtering out moves that leave the
//! mover's own king in check.
use vstd::prelude::*;
use vstd::array::spec_array_update;
use crate::bits::{holds, lemma_holds_ops, lemma_nonzero};
use crate::chess::{Chess, EnPassant, Piece, PieceType, Side};
use crate::geometry::{slide_reach, dirs_reach, slides};

verus! {

/// `b` without square `n`.
pub open spec fn without(b: u64, n: int) -> u64 {
    b & !(1u64 << (n as u64))
}

/// `b` with square `n` added.
pub open spec fn with_square(b: u64, n: int) -> u64 {
    b | (1u64 << (n as u64))
}

/// The board table with the bitboard of side `s` and type `t` replaced by `v`.
pub open spec fn set_bb(b: [[u64; 6]; 2], s: int, t: int, v: u64) -> [[u64; 6]; 2] {
    spec_array_update(b, s, spec_array_update(b[s], t, v))
}

/// Replacing one bitboard of the table leaves the other eleven as they were.
pub(crate) proof fn lemma_set_bb(b: [[u64; 6]; 2], s: int, t: int, v: u64)
    requires
        0 <= s < 2,
        0 <= t < 6,
    ensures
        forall|s2: int, t2: int|
            0 <= s2 < 2 && 0 <= t2 < 6 ==> #[trigger] set_bb(b, s, t, v)[s2][t2] == if s2 == s && t2 == t {
                v
            } else {
                b[s2][t2]
            },
{
}

/// Removing or adding square `n` changes membership of `n` alone.
pub(crate) proof fn lemma_square_edits(b: u64, n: int)
    requires
        0 <= n < 64,
    ensures
        forall|m: int| #[trigger] holds(without(b, n), m) == (holds(b, m) && m != n),
        forall|m: int| #[trigger] holds(with_square(b, n), m) == (holds(b, m) || (m == n)),
{
    lemma_holds_ops();
}

impl Chess {
    /// The square whose piece is taken when `side` moves onto `to`: `to`
    /// itself when the opponent holds it, else the pawn named by the en
    /// passant marker when `to` is the empty square behind it.
    pub open spec fn captured_square(self, side: int, to: int) -> Option<int> {
        if self.occupied_by(Side::opposite(side), to) {
            Some(to)
        } else {
            match self.en_passant {
                Some(e) => if e.1 == to && !self.occupied(to) {
                    Some(e.0 as int)
                } else {
                    None
                },
                None => None,
            }
        }
    }

    /// The board table once the piece on `sq` is taken off.
    pub open spec fn remove_at(self, sq: int) -> [[u64; 6]; 2] {
        match self.piece_at(sq) {
            Some(q) => set_bb(
                self.board,
                q.side as int,
                q.piece_type as int,
                without(self.bb(q.side as int, q.piece_type as int), sq),
            ),
            None => self.board,
        }
    }

    /// The state after moving the piece on `from` to `to`: the piece taken
    /// (if any) leaves its bitboard, the mover's bit goes from `from` to `to`,
    /// and a pawn's two-rank advance leaves an en passant marker that any other
    /// move clears. The side to move stays as it is.
    pub open spec fn apply(self, from: int, to: int) -> Chess {
        match self.piece_at(from) {
            None => self,
            Some(p) => {
                let b1 = match self.captured_square(p.side as int, to) {
                    Some(sq) => self.remove_at(sq),
                    None => self.board,
                };
                let moved = with_square(without(b1[p.side as int][p.piece_type as int], from), to);
                let ep = if p.piece_type == PieceType::PAWN && ((p.side == Side::WHITE && to == from + 16) || (
                    p.side == Side::BLACK && from == to + 16)) {
                    Some(EnPassant(to as u8, ((from + to) / 2) as u8))
                } else {
                    None
                };
                Chess {
                    board: set_bb(b1, p.side as int, p.piece_type as int, moved),
                    turn: self.turn,
                    en_passant: ep,
                }
            },
        }
    }

    /// The move applier: moves the piece on `from` to `to` without any check
    /// of legality, taking what stands on `to` or, by en passant, the pawn
    /// named by the marker. An empty `from` changes nothing.
    #[verifier::rlimit(40)]
    pub fn make_move(&mut self, from: u8, to: u8)
        requires
            old(self).wf(),
            from < 64,
            to < 64,
            old(self).piece_at(from as int) matches Some(p) ==> !old(self).occupied_by(p.side as int, to as int),
        ensures
            *final(self) == old(self).apply(from as int, to as int),
            final(self).wf(),
    {
        let ghost c = *self;
        proof {
            lemma_holds_ops();
            c.lemma_piece_at(from as int);
            c.lemma_piece_at(to as int);
            c.lemma_apply_wf(from as int, to as int);
        }
        let piece = self.get_piece_at(from);
        let p = match piece {
            Some(p) => p,
            None => return,
        };
        let side = p.side;
        let piece_type = p.piece_type;
        let current_en_passant = self.en_passant;
        let advance = (side == Side::WHITE && to >= 16 && to - 16 == from) || (side == Side::BLACK && from
            >= 16 && from - 16 == to);
        if piece_type == PieceType::PAWN && advance {
            self.en_passant = Some(EnPassant(to, ((from as u16 + to as u16) / 2) as u8));
        } else {
            self.en_passant = None;
        }
        let opp_side = self.side_pieces(Side::get_opposite(side));
        let en_passant_target = match current_en_passant {
            Some(e) => e.1 == to,
            None => false,
        };
        if crate::bits::get_nth_bit(opp_side, to) == 1 || en_passant_target {
            match self.get_piece_at(to) {
                Some(removed) => {
                    let ghost v = without(c.bb(removed.side as int, removed.piece_type as int), to as int);
                    self.board[removed.side][removed.piece_type] = self.board[removed.side][removed.piece_type]
                        & !(1u64 << to);
                    proof {
                        assert(self.board =~~= set_bb(c.board, removed.side as int, removed.piece_type as int, v));
                        assert(c.captured_square(side as int, to as int) == Some(to as int));
                    }
                },
                None => {
                    if let Some(e) = current_en_passant {
                        proof {
                            c.lemma_piece_at(e.0 as int);
                        }
                        if let Some(target) = self.get_piece_at(e.0) {
                            let ghost v = without(c.bb(target.side as int, target.piece_type as int), e.0 as int);
                            self.board[target.side][target.piece_type] = self.board[target.side][target.piece_type]
                                & !(1u64 << e.0);
                            proof {
                                assert(self.board =~~= set_bb(c.board, target.side as int, target.piece_type as int, v));
                                assert(c.captured_square(side as int, to as int) == Some(e.0 as int));
                            }
                        }
                    }
                },
            }
        } else {
            assert(c.captured_square(side as int, to as int) is None);
        }
        let ghost b1 = self.board;
        assert(b1 == match c.captured_square(side as int, to as int) {
            Some(sq) => c.remove_at(sq),
            None => c.board,
        });
        let ghost moved = with_square(without(b1[side as int][piece_type as int], from as int), to as int);
        self.board[side][piece_type] = (self.board[side][piece_type] & !(1u64 << from)) | (1u64 << to);
        proof {
            assert(self.board =~~= set_bb(b1, side as int, piece_type as int, moved));
        }
    }

    /// The move applier keeps a reachable state reachable when the mover does
    /// not land on its own piece.
    pub proof fn lemma_apply_wf(self, from: int, to: int)
        requires
            self.wf(),
            0 <= from < 64,
            0 <= to < 64,
            self.piece_at(from) matches Some(p) ==> !self.occupied_by(p.side as int, to),
        ensures
            self.apply(from, to).wf(),
    {
        lemma_holds_ops();
        self.lemma_piece_at(from);
        self.lemma_piece_at(to);
        if let Some(p) = self.piece_at(from) {
            let ps = p.side as int;
            let pt = p.piece_type as int;
            let cap = self.captured_square(ps, to);
            let b1 = match cap {
                Some(sq) => self.remove_at(sq),
                None => self.board,
            };
            let moved = with_square(without(b1[ps][pt], from), to);
            let c2 = self.apply(from, to);
            lemma_set_bb(b1, ps, pt, moved);
            lemma_square_edits(b1[ps][pt], from);
            lemma_square_edits(without(b1[ps][pt], from), to);
            // What each bitboard of the table after the capture holds.
            assert forall|s: int, t: int, m: int| 0 <= s < 2 && 0 <= t < 6 && #[trigger] holds(b1[s][t], m)
                implies holds(self.bb(s, t), m) && !(cap == Some(m) && self.piece_at(m) == Some(
                Piece { piece_type: t as usize, side: s as usize },
            )) by {
                if let Some(sq) = cap {
                    self.lemma_piece_at(sq);
                    if let Some(q) = self.piece_at(sq) {
                        lemma_set_bb(self.board, q.side as int, q.piece_type as int, without(self.bb(q.side as int, q.piece_type as int), sq));
                        lemma_square_edits(self.bb(q.side as int, q.piece_type as int), sq);
                    }
                }
            }
            assert forall|s1: int, t1: int, s2: int, t2: int, n: int|
                0 <= s1 < 2 && 0 <= t1 < 6 && 0 <= s2 < 2 && 0 <= t2 < 6 && (s1 != s2 || t1 != t2)
                    && #[trigger] holds(c2.bb(s1, t1), n) implies !#[trigger] holds(c2.bb(s2, t2), n) by {
                if holds(c2.bb(s2, t2), n) {
                    if n == to && ((s1 == ps && t1 == pt) || (s2 == ps && t2 == pt)) {
                        let (so, to_) = if s1 == ps && t1 == pt { (s2, t2) } else { (s1, t1) };
                        assert(holds(b1[so][to_], n));
                        assert(holds(self.bb(so, to_), n));
                        self.lemma_piece_at(n);
                        assert(self.piece_at(n) == Some(Piece { piece_type: to_ as usize, side: so as usize }));
                        assert(so != ps);
                        assert(cap == Some(n));
                    } else {
                        assert(holds(b1[s1][t1], n));
                        assert(holds(b1[s2][t2], n));
                    }
                }
            }
            if let Some(e) = c2.en_passant {
                assert(holds(c2.bb(ps, pt), to));
                c2.lemma_piece_at(to);
            }
        }
    }

    /// Side `a` attacks square `t`: one of its pieces could move or capture
    /// there, pawn pushes aside.
    pub open spec fn attacked_by(self, a: int, t: int) -> bool {
        ||| self.rook_moves(self.bb(a, PieceType::ROOK as int), a, t)
        ||| self.bishop_moves(self.bb(a, PieceType::BISHOP as int), a, t)
        ||| self.king_moves(self.bb(a, PieceType::KING as int), a, t)
        ||| self.queen_moves(self.bb(a, PieceType::QUEEN as int), a, t)
        ||| self.knight_moves(self.bb(a, PieceType::KNIGHT as int), a, t)
        ||| if a == Side::BLACK {
            self.black_pawn_moves(self.bb(a, PieceType::PAWN as int), false, t)
        } else {
            self.white_pawn_moves(self.bb(a, PieceType::PAWN as int), false, t)
        }
    }

    /// The king of `side` stands on a square its opponent attacks.
    pub open spec fn in_check(self, side: int) -> bool {
        exists|k: int|
            holds(self.bb(side, PieceType::KING as int), k) && #[trigger] self.attacked_by(Side::opposite(side), k)
    }

    /// Whether the king of `side` is attacked, from the whole-army attack
    /// masks of the opponent; the board is left as it was.
    pub fn is_in_check(&mut self, side: usize) -> (r: bool)
        requires
            side < 2,
        ensures
            r == old(self).in_check(side as int),
            *final(self) == *old(self),
    {
        let opp_side = Side::get_opposite(side);
        let mut opp_moves = self.rook_mask(None, opp_side) | self.bishop_mask(
            None,
            opp_side,
        ) | self.king_mask(None, opp_side) | self.queen_mask(None, opp_side)
            | self.knight_mask(None, opp_side);
        if side == Side::WHITE {
            opp_moves = opp_moves | self.black_pawn_mask(None);
        } else {
            opp_moves = opp_moves | self.white_pawn_mask(None);
        }
        let king = self.board[side][PieceType::KING];
        proof {
            lemma_holds_ops();
            lemma_nonzero(opp_moves & king);
            let c = *self;
            assert forall|k: int| #[trigger] holds(opp_moves, k) == c.attacked_by(opp_side as int, k) by {}
            if c.in_check(side as int) {
                let k = choose|k: int|
                    holds(c.bb(side as int, PieceType::KING as int), k) && #[trigger] c.attacked_by(
                        Side::opposite(side as int),
                        k,
                    );
                assert(holds(opp_moves & king, k));
            }
            if opp_moves & king != 0 {
                let k = choose|k: int| #[trigger] holds(opp_moves & king, k);
                assert(c.attacked_by(Side::opposite(side as int), k));
            }
        }
        opp_moves & king != 0
    }

    /// The legality filter: the squares of `moves` that the piece on `from`
    /// can move to without leaving its own king in check. Each candidate is
    /// played on the board, tested, and the board restored.
    pub(crate) fn get_legal_moves(&mut self, from: u8, moves: u64) -> (r: u64)
        requires
            old(self).wf(),
            from < 64,
            old(self).piece_at(from as int) matches Some(p) ==> forall|t: int|
                #[trigger] holds(moves, t) ==> !old(self).occupied_by(p.side as int, t),
        ensures
            *final(self) == *old(self),
            forall|t: int| #[trigger]
                holds(r, t) == match old(self).piece_at(from as int) {
                    None => false,
                    Some(p) => holds(moves, t) && !old(self).apply(from as int, t).in_check(p.side as int),
                },
    {
        let og_chess = *self;
        let piece = self.get_piece_at(from);
        proof {
            lemma_holds_ops();
            og_chess.lemma_piece_at(from as int);
        }
        let side = match piece {
            Some(p) => p.side,
            None => return 0,
        };
        let mut legal_moves: u64 = 0;
        let mut pos: u8 = 0;
        while pos < 64
            invariant
                pos <= 64,
                from < 64,
                side < 2,
                *self == og_chess,
                og_chess.wf(),
                og_chess.piece_at(from as int) == Some(piece.unwrap()),
                piece.unwrap().side == side,
                forall|t: int| #[trigger] holds(moves, t) ==> !og_chess.occupied_by(side as int, t),
                forall|t: int| #[trigger]
                    holds(legal_moves, t) == (t < pos && holds(moves, t) && !og_chess.apply(from as int, t).in_check(
                        side as int,
                    )),
            decreases 64 - pos,
        {
            if crate::bits::get_nth_bit(moves, pos) == 1 {
                self.make_move(from, pos);
                let check = self.is_in_check(side);
                if !check {
                    legal_moves = legal_moves | (1u64 << pos);
                }
                *self = og_chess;
                proof {
                    lemma_holds_ops();
                }
            }
            pos += 1;
        }
        legal_moves
    }

    /// The pseudo-legal moves of the pieces of type `ty` and side `s` standing
    /// on the squares of `pos`; pawns with their pushes.
    pub open spec fn moves_of(self, pos: u64, s: int, ty: int, t: int) -> bool {
        if ty == PieceType::KING {
            self.king_moves(pos, s, t)
        } else if ty == PieceType::KNIGHT {
            self.knight_moves(pos, s, t)
        } else if ty == PieceType::BISHOP {
            self.bishop_moves(pos, s, t)
        } else if ty == PieceType::ROOK {
            self.rook_moves(pos, s, t)
        } else if ty == PieceType::QUEEN {
            self.queen_moves(pos, s, t)
        } else if ty == PieceType::PAWN && s == Side::WHITE {
            self.white_pawn_moves(pos, true, t)
        } else if ty == PieceType::PAWN && s == Side::BLACK {
            self.black_pawn_moves(pos, true, t)
        } else {
            false
        }
    }

    /// The pseudo-legal moves of piece `p` standing on square `n`.
    pub open spec fn pseudo_moves(self, n: int, p: Piece, t: int) -> bool {
        self.moves_of(1u64 << (n as u64), p.side as int, p.piece_type as int, t)
    }

    /// Moving the piece on `from` to `t` leaves the mover's own king out of
    /// check; never so for an empty `from`.
    pub open spec fn safe_after(self, from: int, t: int) -> bool {
        match self.piece_at(from) {
            None => false,
            Some(p) => !self.apply(from, t).in_check(p.side as int),
        }
    }

    /// The piece on `n` may legally move to `t`: it belongs to the side
    /// `turn` names (when it names one), `t` is among its pseudo-legal moves,
    /// and after the move its own king is not in check.
    pub open spec fn legal_move(self, n: int, turn: Option<usize>, t: int) -> bool {
        match self.piece_at(n) {
            None => false,
            Some(p) => (turn matches Some(s) ==> s == p.side) && self.pseudo_moves(n, p, t)
                && !self.apply(n, t).in_check(p.side as int),
        }
    }

    /// No pseudo-legal move lands on a square of the mover's own side.
    pub proof fn lemma_moves_not_own(self, pos: u64, s: int, ty: int, t: int)
        requires
            self.squares_unique(),
            0 <= s < 2,
            self.moves_of(pos, s, ty, t),
        ensures
            !self.occupied_by(s, t),
    {
        self.lemma_sides_disjoint(t);
        if ty == PieceType::BISHOP || ty == PieceType::ROOK || ty == PieceType::QUEEN {
            let own = self.side_mask(s);
            let opp = self.side_mask(Side::opposite(s));
            let (lo, hi) = if ty == PieceType::BISHOP {
                (4int, 8int)
            } else if ty == PieceType::ROOK {
                (0int, 4int)
            } else {
                (0int, 8int)
            };
            assert(slide_reach(own, opp, pos, lo, hi, t));
            let m = choose|m: int| holds(pos, m) && #[trigger] dirs_reach(own, opp, m, lo, hi, t);
            let d = choose|d: int| lo <= d < hi && #[trigger] slides(own, opp, m, d, t);
        }
    }

    /// The legal destinations of the piece on square `i`: none when the
    /// square is empty or, with `turn` given, holds a piece of the other side.
    pub fn legal_moves(&mut self, i: u8, turn: Option<usize>) -> (r: u64)
        requires
            old(self).wf(),
            i < 64,
        ensures
            *final(self) == *old(self),
            forall|t: int| #[trigger] holds(r, t) == old(self).legal_move(i as int, turn, t),
    {
        let piece = self.get_piece_at(i);
        proof {
            lemma_holds_ops();
            self.lemma_piece_at(i as int);
        }
        if turn.is_some() {
            if piece.is_some() {
                if turn.unwrap() != piece.unwrap().side {
                    return 0;
                }
            }
        }
        match piece {
            Some(piece) => {
                if piece.piece_type == PieceType::KING {
                    self.get_king_pseudo_moves(Some(i), piece.side)
                } else if piece.piece_type == PieceType::KNIGHT {
                    self.get_knight_pseudo_moves(Some(i), piece.side)
                } else if piece.piece_type == PieceType::BISHOP {
                    self.get_bishop_pseudo_moves(Some(i), piece.side)
                } else if piece.piece_type == PieceType::ROOK {
                    self.get_rook_pseudo_moves(Some(i), piece.side)
                } else if piece.piece_type == PieceType::QUEEN {
                    self.get_queen_pseudo_moves(Some(i), piece.side)
                } else if piece.piece_type == PieceType::PAWN && piece.side == Side::WHITE {
                    self.get_white_pawn_moves(Some(i))
                } else if piece.piece_type == PieceType::PAWN && piece.side == Side::BLACK {
                    self.get_black_pawn_moves(Some(i))
                } else {
                    0
                }
            },
            None => 0,
        }
    }

    /// The state after a legal move from `from` to `to`: the move applied and
    /// the turn passed to the other side.
    pub open spec fn after_move(self, from: int, to: int) -> Chess {
        let c = self.apply(from, to);
        Chess { board: c.board, turn: Side::opposite(self.turn as int) as usize, en_passant: c.en_passant }
    }

    /// Plays the move from `from` to `to` for the side to move when it is
    /// legal, and passes the turn; otherwise leaves the board as it is.
    pub fn move_piece(&mut self, from: u8, to: u8)
        requires
            old(self).wf(),
            from < 64,
            to < 64,
        ensures
            final(self).wf(),
            final(self).turn == if old(self).legal_move(from as int, Some(old(self).turn), to as int) {
                Side::opposite(old(self).turn as int)
            } else {
                old(self).turn as int
            },
            if old(self).legal_move(from as int, Some(old(self).turn), to as int) {
                *final(self) == old(self).after_move(from as int, to as int)
            } else {
                *final(self) == *old(self)
            },
    {
        let turn = self.turn;
        let legal = self.legal_moves(from, Some(turn));
        if crate::bits::get_nth_bit(legal, to) == 0 {
            return;
        }
        proof {
            let c = *self;
            c.lemma_piece_at(from as int);
            let p = c.piece_at(from as int).unwrap();
            c.lemma_moves_not_own(1u64 << (from as u64), p.side as int, p.piece_type as int, to as int);
        }
        self.make_move(from, to);
        let ghost moved = *self;
        self.turn = Side::get_opposite(self.turn);
        proof {
            moved.lemma_pass_turn(self.turn);
        }
    }

    /// Handing the move to either side keeps a reachable state reachable.
    pub proof fn lemma_pass_turn(self, turn: usize)
        requires
            self.wf(),
            turn < 2,
        ensures
            (Chess { board: self.board, turn, en_passant: self.en_passant }).wf(),
    {
        let c = Chess { board: self.board, turn, en_passant: self.en_passant };
        assert(c.squares_unique());
    }
}

} // verus!
