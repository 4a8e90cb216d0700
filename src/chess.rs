//! Board state, pieces and square lookup.
use vstd::prelude::*;
use crate::bits::{holds, lemma_holds_ops};

verus! {

/// The two sides, as indices into the board table.
pub struct Side;

impl Side {
    pub const WHITE: usize = 1;

    pub const BLACK: usize = 0;

    /// The side that is not `side`; anything but white counts as black.
    pub open spec fn opposite(side: int) -> int {
        if side == Side::WHITE {
            Side::BLACK as int
        } else {
            Side::WHITE as int
        }
    }

    /// The side that is not `side`.
    pub fn get_opposite(side: usize) -> (r: usize)
        ensures
            r == Side::opposite(side as int),
            r < 2,
    {
        if side == Side::WHITE {
            Side::BLACK
        } else {
            Side::WHITE
        }
    }
}

/// The six piece types, as indices into a side's row of the board table.
pub struct PieceType;

impl PieceType {
    pub const PAWN: usize = 0;

    pub const BISHOP: usize = 1;

    pub const KNIGHT: usize = 2;

    pub const ROOK: usize = 3;

    pub const QUEEN: usize = 4;

    pub const KING: usize = 5;
}

/// White's pieces in the opening position.
pub const WHITE_PAWNS: u64 = 0x0000_0000_0000_FF00;

pub const WHITE_BISHOPS: u64 = 0x0000_0000_0000_0024;

pub const WHITE_KNIGHTS: u64 = 0x0000_0000_0000_0042;

pub const WHITE_ROOKS: u64 = 0x0000_0000_0000_0081;

pub const WHITE_QUEEN: u64 = 0x0000_0000_0000_0010;

pub const WHITE_KING: u64 = 0x0000_0000_0000_0008;

/// Black's pieces in the opening position.
pub const BLACK_PAWNS: u64 = 0x00FF_0000_0000_0000;

pub const BLACK_BISHOPS: u64 = 0x2400_0000_0000_0000;

pub const BLACK_KNIGHTS: u64 = 0x4200_0000_0000_0000;

pub const BLACK_ROOKS: u64 = 0x8100_0000_0000_0000;

pub const BLACK_QUEEN: u64 = 0x1000_0000_0000_0000;

pub const BLACK_KING: u64 = 0x0800_0000_0000_0000;

/// A piece as read off the board: its type and its side.
#[derive(Clone, Copy, Debug, PartialEq, Eq, Structural)]
pub struct Piece {
    pub piece_type: usize,
    pub side: usize,
}

impl Piece {
    pub fn new(side: usize, piece_type: usize) -> (r: Self)
        ensures
            r == (Piece { piece_type, side }),
    {
        Piece { piece_type, side }
    }

    /// The letter of the piece type: `p n b r q k`, `-` for an unknown type.
    pub open spec fn letter(piece_type: int) -> char {
        if piece_type == PieceType::PAWN {
            'p'
        } else if piece_type == PieceType::KNIGHT {
            'n'
        } else if piece_type == PieceType::BISHOP {
            'b'
        } else if piece_type == PieceType::ROOK {
            'r'
        } else if piece_type == PieceType::QUEEN {
            'q'
        } else if piece_type == PieceType::KING {
            'k'
        } else {
            '-'
        }
    }

    /// The glyph of the piece: its letter, upper case for white.
    pub open spec fn glyph(self) -> char {
        let c = Piece::letter(self.piece_type as int);
        if self.side == Side::WHITE && 'a' <= c <= 'z' {
            ((c as u32) - 32) as char
        } else {
            c
        }
    }

    /// The piece's glyph, upper case for white.
    pub fn get_char(&self) -> (r: char)
        ensures
            r == self.glyph(),
    {
        let white = self.side == Side::WHITE;
        let t = self.piece_type;
        if t == PieceType::PAWN {
            if white { 'P' } else { 'p' }
        } else if t == PieceType::KNIGHT {
            if white { 'N' } else { 'n' }
        } else if t == PieceType::BISHOP {
            if white { 'B' } else { 'b' }
        } else if t == PieceType::ROOK {
            if white { 'R' } else { 'r' }
        } else if t == PieceType::QUEEN {
            if white { 'Q' } else { 'q' }
        } else if t == PieceType::KING {
            if white { 'K' } else { 'k' }
        } else {
            '-'
        }
    }
}

/// En passant marker: the square of the pawn that may be taken, and the
/// square a capturing pawn moves to.
#[derive(Clone, Copy, Debug, PartialEq, Eq, Structural)]
pub struct EnPassant(pub u8, pub u8);

/// The board: one bitboard per side and piece type, the side to move, and the
/// en passant marker left by the last move.
#[derive(Clone, Copy)]
pub struct Chess {
    pub board: [[u64; 6]; 2],
    pub turn: usize,
    pub en_passant: Option<EnPassant>,
}

impl Chess {
    /// The standard opening position, white to move, no en passant marker.
    pub fn new() -> (r: Self)
        ensures
            r.wf(),
            r.is_opening(),
    {
        let board: [[u64; 6]; 2] = [
            [BLACK_PAWNS, BLACK_BISHOPS, BLACK_KNIGHTS, BLACK_ROOKS, BLACK_QUEEN, BLACK_KING],
            [WHITE_PAWNS, WHITE_BISHOPS, WHITE_KNIGHTS, WHITE_ROOKS, WHITE_QUEEN, WHITE_KING],
        ];
        let r = Self { board, turn: Side::WHITE, en_passant: None };
        proof {
            lemma_holds_ops();
            assert(
                WHITE_PAWNS & WHITE_BISHOPS == 0 && WHITE_PAWNS & WHITE_KNIGHTS == 0 && WHITE_PAWNS & WHITE_ROOKS == 0
                && WHITE_PAWNS & WHITE_QUEEN == 0 && WHITE_PAWNS & WHITE_KING == 0
                && WHITE_BISHOPS & WHITE_KNIGHTS == 0 && WHITE_BISHOPS & WHITE_ROOKS == 0
                && WHITE_BISHOPS & WHITE_QUEEN == 0 && WHITE_BISHOPS & WHITE_KING == 0
                && WHITE_KNIGHTS & WHITE_ROOKS == 0 && WHITE_KNIGHTS & WHITE_QUEEN == 0
                && WHITE_KNIGHTS & WHITE_KING == 0 && WHITE_ROOKS & WHITE_QUEEN == 0
                && WHITE_ROOKS & WHITE_KING == 0 && WHITE_QUEEN & WHITE_KING == 0
                && BLACK_PAWNS & BLACK_BISHOPS == 0 && BLACK_PAWNS & BLACK_KNIGHTS == 0 && BLACK_PAWNS & BLACK_ROOKS == 0
                && BLACK_PAWNS & BLACK_QUEEN == 0 && BLACK_PAWNS & BLACK_KING == 0
                && BLACK_BISHOPS & BLACK_KNIGHTS == 0 && BLACK_BISHOPS & BLACK_ROOKS == 0
                && BLACK_BISHOPS & BLACK_QUEEN == 0 && BLACK_BISHOPS & BLACK_KING == 0
                && BLACK_KNIGHTS & BLACK_ROOKS == 0 && BLACK_KNIGHTS & BLACK_QUEEN == 0
                && BLACK_KNIGHTS & BLACK_KING == 0 && BLACK_ROOKS & BLACK_QUEEN == 0
                && BLACK_ROOKS & BLACK_KING == 0 && BLACK_QUEEN & BLACK_KING == 0
                && (BLACK_PAWNS | BLACK_BISHOPS | BLACK_KNIGHTS | BLACK_ROOKS | BLACK_QUEEN | BLACK_KING)
                & (WHITE_PAWNS | WHITE_BISHOPS | WHITE_KNIGHTS | WHITE_ROOKS | WHITE_QUEEN | WHITE_KING) == 0
            ) by (bit_vector);
            assert(r.bb(0, 0) == BLACK_PAWNS && r.bb(0, 1) == BLACK_BISHOPS && r.bb(0, 2) == BLACK_KNIGHTS
                && r.bb(0, 3) == BLACK_ROOKS && r.bb(0, 4) == BLACK_QUEEN && r.bb(0, 5) == BLACK_KING);
            assert(r.bb(1, 0) == WHITE_PAWNS && r.bb(1, 1) == WHITE_BISHOPS && r.bb(1, 2) == WHITE_KNIGHTS
                && r.bb(1, 3) == WHITE_ROOKS && r.bb(1, 4) == WHITE_QUEEN && r.bb(1, 5) == WHITE_KING);
            assert(r.side_mask(0) & r.side_mask(1) == 0);
            assert(r.squares_unique()) by {
                assert forall|s1: int, t1: int, s2: int, t2: int, n: int|
                    0 <= s1 < 2 && 0 <= t1 < 6 && 0 <= s2 < 2 && 0 <= t2 < 6 && (s1 != s2 || t1 != t2)
                        && #[trigger] holds(r.bb(s1, t1), n) implies !#[trigger] holds(r.bb(s2, t2), n) by {
                    assert(s1 == 0 || s1 == 1);
                    assert(s2 == 0 || s2 == 1);
                    assert(t1 == 0 || t1 == 1 || t1 == 2 || t1 == 3 || t1 == 4 || t1 == 5);
                    assert(t2 == 0 || t2 == 1 || t2 == 2 || t2 == 3 || t2 == 4 || t2 == 5);
                    if s1 != s2 {
                        assert(holds(r.side_mask(s1), n));
                        assert(!holds(r.side_mask(0) & r.side_mask(1), n));
                    } else {
                        if t1 < t2 {
                            assert(!holds(r.bb(s1, t1) & r.bb(s1, t2), n));
                        } else {
                            assert(!holds(r.bb(s1, t2) & r.bb(s1, t1), n));
                        }
                    }
                }
            }
        }
        r
    }

    /// The standard opening position, white to move, no en passant marker.
    pub open spec fn is_opening(self) -> bool {
        &&& self.turn == Side::WHITE
        &&& self.en_passant is None
        &&& self.board[Side::WHITE as int] == [WHITE_PAWNS, WHITE_BISHOPS, WHITE_KNIGHTS, WHITE_ROOKS, WHITE_QUEEN, WHITE_KING]
        &&& self.board[Side::BLACK as int] == [BLACK_PAWNS, BLACK_BISHOPS, BLACK_KNIGHTS, BLACK_ROOKS, BLACK_QUEEN, BLACK_KING]
    }

    /// The bitboard of side `s` and piece type `t`.
    pub open spec fn bb(self, s: int, t: int) -> u64 {
        self.board[s][t]
    }

    /// Every square held by side `s`.
    pub open spec fn side_mask(self, s: int) -> u64 {
        self.bb(s, 0) | self.bb(s, 1) | self.bb(s, 2) | self.bb(s, 3) | self.bb(s, 4) | self.bb(s, 5)
    }

    /// Side `s` has a piece on square `n`.
    pub open spec fn occupied_by(self, s: int, n: int) -> bool {
        holds(self.side_mask(s), n)
    }

    pub open spec fn occupied(self, n: int) -> bool {
        self.occupied_by(0, n) || self.occupied_by(1, n)
    }

    /// The first piece type, in table order, whose bitboard of side `s` holds `n`.
    pub open spec fn type_at(self, s: int, n: int) -> Option<usize> {
        if holds(self.bb(s, 0), n) {
            Some(0usize)
        } else if holds(self.bb(s, 1), n) {
            Some(1usize)
        } else if holds(self.bb(s, 2), n) {
            Some(2usize)
        } else if holds(self.bb(s, 3), n) {
            Some(3usize)
        } else if holds(self.bb(s, 4), n) {
            Some(4usize)
        } else if holds(self.bb(s, 5), n) {
            Some(5usize)
        } else {
            None
        }
    }

    /// The piece on square `n`: the first bitboard that holds it, black's
    /// table before white's.
    pub open spec fn piece_at(self, n: int) -> Option<Piece> {
        match self.type_at(0, n) {
            Some(t) => Some(Piece { piece_type: t, side: 0 }),
            None => match self.type_at(1, n) {
                Some(t) => Some(Piece { piece_type: t, side: 1 }),
                None => None,
            },
        }
    }

    /// No square is set in two of the twelve bitboards.
    pub open spec fn squares_unique(self) -> bool {
        forall|s1: int, t1: int, s2: int, t2: int, n: int|
            0 <= s1 < 2 && 0 <= t1 < 6 && 0 <= s2 < 2 && 0 <= t2 < 6 && (s1 != s2 || t1 != t2)
                && #[trigger] holds(self.bb(s1, t1), n) ==> !#[trigger] holds(self.bb(s2, t2), n)
    }

    /// A board state the engine can reach: a side to move, every square owned
    /// at most once, and an en passant marker that names a piece.
    pub open spec fn wf(self) -> bool {
        &&& self.turn < 2
        &&& self.squares_unique()
        &&& match self.en_passant {
            Some(e) => e.0 < 64 && e.1 < 64 && self.piece_at(e.0 as int) is Some,
            None => true,
        }
    }

    /// The piece on square `i`, if any.
    pub fn get_piece_at(self, i: u8) -> (r: Option<Piece>)
        requires
            i < 64,
        ensures
            r == self.piece_at(i as int),
    {
        let mut s: usize = 0;
        while s < 2
            invariant
                s <= 2,
                i < 64,
                forall|s2: int| 0 <= s2 < s ==> self.type_at(s2, i as int) is None,
            decreases 2 - s,
        {
            let mut t: usize = 0;
            while t < 6
                invariant
                    s < 2,
                    t <= 6,
                    i < 64,
                    forall|s2: int| 0 <= s2 < s ==> self.type_at(s2, i as int) is None,
                    forall|t2: int| 0 <= t2 < t ==> !holds(self.bb(s as int, t2), i as int),
                decreases 6 - t,
            {
                if (self.board[s][t] >> i) & 1 == 1 {
                    return Some(Piece::new(s, t));
                }
                t += 1;
            }
            s += 1;
        }
        None
    }

    /// What `piece_at` reports, read back as bitboard membership.
    pub proof fn lemma_piece_at(self, n: int)
        ensures
            self.piece_at(n) matches Some(q) ==> q.side < 2 && q.piece_type < 6 && holds(
                self.bb(q.side as int, q.piece_type as int),
                n,
            ) && self.occupied_by(q.side as int, n),
            self.piece_at(n) is None <==> !self.occupied(n),
            self.squares_unique() ==> forall|s: int, t: int|
                0 <= s < 2 && 0 <= t < 6 && #[trigger] holds(self.bb(s, t), n) ==> self.piece_at(n)
                    == Some(Piece { piece_type: t as usize, side: s as usize }),
    {
        lemma_holds_ops();
        if self.squares_unique() {
            assert forall|s: int, t: int|
                0 <= s < 2 && 0 <= t < 6 && #[trigger] holds(self.bb(s, t), n) implies self.piece_at(n)
                    == Some(Piece { piece_type: t as usize, side: s as usize }) by {
                assert forall|s2: int, t2: int|
                    0 <= s2 < 2 && 0 <= t2 < 6 && (s2 != s || t2 != t) implies !holds(self.bb(s2, t2), n) by {
                }
            }
        }
    }

    /// With every square owned at most once, no square is held by both sides.
    pub proof fn lemma_sides_disjoint(self, n: int)
        requires
            self.squares_unique(),
        ensures
            !(self.occupied_by(0, n) && self.occupied_by(1, n)),
    {
        lemma_holds_ops();
        if self.occupied_by(0, n) && self.occupied_by(1, n) {
            let t0 = choose|t: int| 0 <= t < 6 && #[trigger] holds(self.bb(0, t), n);
            let t1 = choose|t: int| 0 <= t < 6 && #[trigger] holds(self.bb(1, t), n);
            assert(!holds(self.bb(1, t1), n));
        }
    }
}

impl Default for Chess {
    fn default() -> (r: Self)
        ensures
            r.wf(),
            r.is_opening(),
    {
        Self::new()
    }
}

} // verus!
