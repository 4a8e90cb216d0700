//! Pseudo-legal move generation: where each piece may go, ignoring whether
//! its own king is left in check.
use vstd::prelude::*;
use crate::bits::{
    holds, lemma_holds_ops, lemma_nonzero, rank, NOT_FILE_0, NOT_FILE_1, NOT_FILE_6, NOT_FILE_7, RANK_2,
    RANK_5,
};
use crate::chess::{Chess, PieceType, Side};
use crate::geometry::{
    dir_file, dir_rank, dirs_reach, king_reach, knight_reach, lands, lemma_slide_stop, ray_prefix,
    reached_by, slide_reach, slides, walk, walk_ok,
};

verus! {

/// The bitboard moved by one of the fixed offsets, with the squares that would
/// leave the board through a side edge cleared first, equals the offset.
proof fn lemma_offsets(pos: u64, t: int)
    ensures
        holds((pos & NOT_FILE_0) << 7u64, t) == reached_by(pos, t, 1, -1),
        holds(pos << 8u64, t) == reached_by(pos, t, 1, 0),
        holds((pos & NOT_FILE_7) << 9u64, t) == reached_by(pos, t, 1, 1),
        holds((pos & NOT_FILE_7) << 1u64, t) == reached_by(pos, t, 0, 1),
        holds((pos & NOT_FILE_7) >> 7u64, t) == reached_by(pos, t, -1, 1),
        holds(pos >> 8u64, t) == reached_by(pos, t, -1, 0),
        holds((pos & NOT_FILE_0) >> 9u64, t) == reached_by(pos, t, -1, -1),
        holds((pos & NOT_FILE_0) >> 1u64, t) == reached_by(pos, t, 0, -1),
        holds((pos & NOT_FILE_0 & NOT_FILE_1) << 6u64, t) == reached_by(pos, t, 1, -2),
        holds((pos & NOT_FILE_0) << 15u64, t) == reached_by(pos, t, 2, -1),
        holds((pos & NOT_FILE_7) << 17u64, t) == reached_by(pos, t, 2, 1),
        holds((pos & NOT_FILE_7 & NOT_FILE_6) << 10u64, t) == reached_by(pos, t, 1, 2),
        holds((pos & NOT_FILE_7 & NOT_FILE_6) >> 6u64, t) == reached_by(pos, t, -1, 2),
        holds((pos & NOT_FILE_7) >> 15u64, t) == reached_by(pos, t, -2, 1),
        holds((pos & NOT_FILE_0) >> 17u64, t) == reached_by(pos, t, -2, -1),
        holds((pos & NOT_FILE_0 & NOT_FILE_1) >> 10u64, t) == reached_by(pos, t, -1, -2),
{
    lemma_holds_ops();
}

/// Whether a step in ray direction `d` from `sq` stays on the board; the file
/// edges are read off the edge masks.
fn can_step(sq: u64, d: usize) -> (r: bool)
    requires
        sq < 64,
        d < 8,
    ensures
        r == lands(sq as int, dir_rank(d as int), dir_file(d as int)),
{
    let spot = 1u64 << sq;
    let not_left_edge = spot & NOT_FILE_0 != 0;
    let not_right_edge = spot & NOT_FILE_7 != 0;
    proof {
        lemma_holds_ops();
        lemma_nonzero(spot & NOT_FILE_0);
        lemma_nonzero(spot & NOT_FILE_7);
        assert(holds(spot & NOT_FILE_0, sq as int) == not_left_edge);
        assert(holds(spot & NOT_FILE_7, sq as int) == not_right_edge);
    }
    let up = sq < 56;
    let down = sq >= 8;
    if d == 0 {
        up
    } else if d == 1 {
        down
    } else if d == 2 {
        not_right_edge
    } else if d == 3 {
        not_left_edge
    } else if d == 4 {
        up && not_right_edge
    } else if d == 5 {
        up && not_left_edge
    } else if d == 6 {
        down && not_right_edge
    } else {
        down && not_left_edge
    }
}

/// The square one step from `sq` in ray direction `d`.
fn step_from(sq: u64, d: usize) -> (r: u64)
    requires
        d < 8,
        lands(sq as int, dir_rank(d as int), dir_file(d as int)),
    ensures
        r == sq + 8 * dir_rank(d as int) + dir_file(d as int),
        r < 64,
{
    if d == 0 {
        sq + 8
    } else if d == 1 {
        sq - 8
    } else if d == 2 {
        sq + 1
    } else if d == 3 {
        sq - 1
    } else if d == 4 {
        sq + 9
    } else if d == 5 {
        sq + 7
    } else if d == 6 {
        sq - 7
    } else {
        sq - 9
    }
}

/// The squares a piece on `from` reaches sliding in direction `d`: it walks
/// up to seven steps, stops before its own pieces and on an opponent piece.
fn slide(from: u64, d: usize, own: u64, opp: u64) -> (r: u64)
    requires
        from < 64,
        d < 8,
    ensures
        forall|t: int| #[trigger] holds(r, t) == slides(own, opp, from as int, d as int, t),
{
    let ghost n = from as int;
    let ghost di = d as int;
    let mut valid_moves: u64 = 0;
    let mut sq: u64 = from;
    let mut j: u64 = 1;
    proof {
        lemma_holds_ops();
    }
    while j <= 7
        invariant
            1 <= j <= 8,
            d < 8,
            n == from,
            di == d,
            from < 64,
            sq < 64,
            sq == walk(n, di, (j - 1) as nat),
            walk_ok(n, di, (j - 1) as nat),
            forall|i: nat|
                1 <= i < j ==> !holds(own, #[trigger] walk(n, di, i)) && !holds(opp, walk(n, di, i)),
            forall|t: int| #[trigger] holds(valid_moves, t) == ray_prefix(n, di, (j - 1) as nat, t),
        decreases 8 - j,
    {
        let ghost m = (j - 1) as nat;
        if !can_step(sq, d) {
            proof {
                lemma_slide_stop(own, opp, n, di, m);
            }
            return valid_moves;
        }
        sq = step_from(sq, d);
        proof {
            assert(walk(n, di, j as nat) == sq);
            assert(walk_ok(n, di, j as nat));
        }
        let spot = 1u64 << sq;
        proof {
            lemma_holds_ops();
            lemma_nonzero(spot & own);
            lemma_nonzero(spot & opp);
        }
        if spot & own != 0 {
            proof {
                assert(holds(own, sq as int));
                lemma_slide_stop(own, opp, n, di, m);
            }
            return valid_moves;
        }
        proof {
            if holds(own, sq as int) {
                assert(holds(spot & own, sq as int));
            }
        }
        valid_moves = valid_moves | spot;
        proof {
            assert forall|t: int| #[trigger] holds(valid_moves, t) == ray_prefix(n, di, j as nat, t) by {
                if t == sq {
                    assert(walk(n, di, j as nat) == t);
                }
                if ray_prefix(n, di, j as nat, t) {
                    let i = choose|i: nat| 1 <= i <= j && #[trigger] walk(n, di, i) == t;
                    if i < j {
                        assert(ray_prefix(n, di, m, t));
                    }
                }
            }
        }
        if spot & opp != 0 {
            proof {
                assert(holds(opp, sq as int));
                lemma_slide_stop(own, opp, n, di, j as nat);
            }
            return valid_moves;
        }
        proof {
            if holds(opp, sq as int) {
                assert(holds(spot & opp, sq as int));
            }
        }
        j += 1;
    }
    proof {
        lemma_slide_stop(own, opp, n, di, 7);
    }
    valid_moves
}

/// The squares that the pieces on `pos` reach sliding in the directions
/// `lo..hi`, each walked from every square that `pos` holds.
fn slide_all(pos: u64, lo: usize, hi: usize, own: u64, opp: u64) -> (r: u64)
    requires
        lo <= hi <= 8,
    ensures
        forall|t: int| #[trigger] holds(r, t) == slide_reach(own, opp, pos, lo as int, hi as int, t),
{
    let mut valid_moves: u64 = 0;
    let mut n: u8 = 0;
    proof {
        lemma_holds_ops();
    }
    while n < 64
        invariant
            n <= 64,
            lo <= hi <= 8,
            forall|t: int|
                #[trigger] holds(valid_moves, t) == exists|m: int|
                    0 <= m < n && holds(pos, m) && #[trigger] dirs_reach(own, opp, m, lo as int, hi as int, t),
        decreases 64 - n,
    {
        let ghost before = valid_moves;
        if crate::bits::get_nth_bit(pos, n) == 1 {
            let mut d: usize = lo;
            while d < hi
                invariant
                    lo <= d <= hi <= 8,
                    n < 64,
                    forall|t: int|
                        #[trigger] holds(valid_moves, t) == (holds(before, t) || exists|e: int|
                            lo <= e < d && #[trigger] slides(own, opp, n as int, e, t)),
                decreases hi - d,
            {
                let ray = slide(n as u64, d, own, opp);
                let ghost prev = valid_moves;
                valid_moves = valid_moves | ray;
                proof {
                    lemma_holds_ops();
                    assert forall|t: int| #[trigger] holds(valid_moves, t) == (holds(before, t) || exists|e: int|
                        lo <= e < d + 1 && #[trigger] slides(own, opp, n as int, e, t)) by {
                        assert(holds(valid_moves, t) == (holds(prev, t) || holds(ray, t)));
                        if exists|e: int| lo <= e < d + 1 && #[trigger] slides(own, opp, n as int, e, t) {
                            let e = choose|e: int| lo <= e < d + 1 && #[trigger] slides(own, opp, n as int, e, t);
                            if e < d {
                                assert(exists|e: int| lo <= e < d && #[trigger] slides(own, opp, n as int, e, t));
                            }
                        }
                    }
                }
                d += 1;
            }
            proof {
                assert forall|t: int|
                    #[trigger] holds(valid_moves, t) == exists|m: int|
                        0 <= m < n + 1 && holds(pos, m) && #[trigger] dirs_reach(own, opp, m, lo as int, hi as int, t) by {
                    if exists|m: int| 0 <= m < n + 1 && holds(pos, m) && #[trigger] dirs_reach(own, opp, m, lo as int, hi as int, t) {
                        let m = choose|m: int| 0 <= m < n + 1 && holds(pos, m) && #[trigger] dirs_reach(own, opp, m, lo as int, hi as int, t);
                        if m == n {
                            let e = choose|e: int| lo <= e < hi && #[trigger] slides(own, opp, m, e, t);
                            assert(exists|e: int| lo <= e < hi && #[trigger] slides(own, opp, n as int, e, t));
                        } else {
                            assert(holds(before, t));
                        }
                    }
                    if holds(valid_moves, t) && !holds(before, t) {
                        assert(dirs_reach(own, opp, n as int, lo as int, hi as int, t));
                    }
                }
            }
        } else {
            proof {
                assert forall|t: int|
                    #[trigger] holds(valid_moves, t) == exists|m: int|
                        0 <= m < n + 1 && holds(pos, m) && #[trigger] dirs_reach(own, opp, m, lo as int, hi as int, t) by {
                    if exists|m: int| 0 <= m < n + 1 && holds(pos, m) && #[trigger] dirs_reach(own, opp, m, lo as int, hi as int, t) {
                        let m = choose|m: int| 0 <= m < n + 1 && holds(pos, m) && #[trigger] dirs_reach(own, opp, m, lo as int, hi as int, t);
                        assert(m != n);
                    }
                }
            }
        }
        n += 1;
    }
    proof {
        assert forall|t: int| #[trigger] holds(valid_moves, t) == slide_reach(own, opp, pos, lo as int, hi as int, t) by {
            if slide_reach(own, opp, pos, lo as int, hi as int, t) {
                let m = choose|m: int| holds(pos, m) && #[trigger] dirs_reach(own, opp, m, lo as int, hi as int, t);
                assert(0 <= m < 64);
            }
        }
    }
    valid_moves
}

impl Chess {
    /// Every square held by side `s`.
    pub fn side_pieces(&self, s: usize) -> (r: u64)
        requires
            s < 2,
        ensures
            r == self.side_mask(s as int),
    {
        let row = self.board[s];
        row[0] | row[1] | row[2] | row[3] | row[4] | row[5]
    }

    /// The squares a generator starts from: the given square, or else every
    /// piece of type `ty` of `side`.
    pub open spec fn sources(self, piece_pos: Option<u8>, side: int, ty: int) -> u64 {
        match piece_pos {
            Some(n) => 1u64 << n,
            None => self.bb(side, ty),
        }
    }

    /// King steps from the sources onto squares not held by `side`.
    pub open spec fn king_moves(self, pos: u64, side: int, t: int) -> bool {
        king_reach(pos, t) && !self.occupied_by(side, t)
    }

    /// Knight jumps from the sources onto squares not held by `side`.
    pub open spec fn knight_moves(self, pos: u64, side: int, t: int) -> bool {
        knight_reach(pos, t) && !self.occupied_by(side, t)
    }

    /// The raw king steps from `piece_pos`, or from every king of `side`
    /// without one.
    pub(crate) fn king_mask(&self, piece_pos: Option<u8>, side: usize) -> (r: u64)
        requires
            side < 2,
            piece_pos matches Some(n) ==> n < 64,
        ensures
            forall|t: int|
                #[trigger] holds(r, t) == self.king_moves(
                    self.sources(piece_pos, side as int, PieceType::KING as int),
                    side as int,
                    t,
                ),
    {
        let own_side = self.side_pieces(side);
        let king_pos: u64 = match piece_pos {
            Some(n) => 1u64 << n,
            None => self.board[side][PieceType::KING],
        };
        let clip_left = king_pos & NOT_FILE_0;
        let clip_right = king_pos & NOT_FILE_7;
        let s1 = clip_left << 7u64;
        let s2 = king_pos << 8u64;
        let s3 = clip_right << 9u64;
        let s4 = clip_right << 1u64;
        let s5 = clip_right >> 7u64;
        let s6 = king_pos >> 8u64;
        let s7 = clip_left >> 9u64;
        let s8 = clip_left >> 1u64;
        let king_moves = s1 | s2 | s3 | s4 | s5 | s6 | s7 | s8;
        let valid_moves = king_moves & !own_side;
        proof {
            lemma_holds_ops();
            assert forall|t: int|
                #[trigger] holds(valid_moves, t) == self.king_moves(king_pos, side as int, t) by {
                lemma_offsets(king_pos, t);
            }
        }
        valid_moves
    }

    /// The raw knight jumps from `piece_pos`, or from every knight of `side`
    /// without one.
    pub(crate) fn knight_mask(&self, piece_pos: Option<u8>, side: usize) -> (r: u64)
        requires
            side < 2,
            piece_pos matches Some(n) ==> n < 64,
        ensures
            forall|t: int|
                #[trigger] holds(r, t) == self.knight_moves(
                    self.sources(piece_pos, side as int, PieceType::KNIGHT as int),
                    side as int,
                    t,
                ),
    {
        let own_side = self.side_pieces(side);
        let knights_pos: u64 = match piece_pos {
            Some(n) => 1u64 << n,
            None => self.board[side][PieceType::KNIGHT],
        };
        let s1 = (knights_pos & NOT_FILE_0 & NOT_FILE_1) << 6u64;
        let s2 = (knights_pos & NOT_FILE_0) << 15u64;
        let s3 = (knights_pos & NOT_FILE_7) << 17u64;
        let s4 = (knights_pos & NOT_FILE_7 & NOT_FILE_6) << 10u64;
        let s5 = (knights_pos & NOT_FILE_7 & NOT_FILE_6) >> 6u64;
        let s6 = (knights_pos & NOT_FILE_7) >> 15u64;
        let s7 = (knights_pos & NOT_FILE_0) >> 17u64;
        let s8 = (knights_pos & NOT_FILE_0 & NOT_FILE_1) >> 10u64;
        let knight_valid = s1 | s2 | s3 | s4 | s5 | s6 | s7 | s8;
        let valid_moves = knight_valid & !own_side;
        proof {
            lemma_holds_ops();
            assert forall|t: int|
                #[trigger] holds(valid_moves, t) == self.knight_moves(knights_pos, side as int, t) by {
                lemma_offsets(knights_pos, t);
            }
        }
        valid_moves
    }

    /// White pawn moves from the sources: diagonal captures of black pieces,
    /// and with `pushes` also the step forward onto an empty square and the
    /// double step from rank 1 over two empty squares.
    pub open spec fn white_pawn_moves(self, pos: u64, pushes: bool, t: int) -> bool {
        let attack = (reached_by(pos, t, 1, -1) || reached_by(pos, t, 1, 1)) && self.occupied_by(
            Side::BLACK as int,
            t,
        );
        let push1 = reached_by(pos, t, 1, 0) && !self.occupied(t);
        let push2 = reached_by(pos, t, 2, 0) && rank(t - 16) == 1 && !self.occupied(t - 8)
            && !self.occupied(t);
        attack || (pushes && (push1 || push2))
    }

    /// Black pawn moves from the sources, as for white with the board turned.
    pub open spec fn black_pawn_moves(self, pos: u64, pushes: bool, t: int) -> bool {
        let attack = (reached_by(pos, t, -1, 1) || reached_by(pos, t, -1, -1)) && self.occupied_by(
            Side::WHITE as int,
            t,
        );
        let push1 = reached_by(pos, t, -1, 0) && !self.occupied(t);
        let push2 = reached_by(pos, t, -2, 0) && rank(t + 16) == 6 && !self.occupied(t + 8)
            && !self.occupied(t);
        attack || (pushes && (push1 || push2))
    }

    /// The raw moves of the white pawn on `i`; without a square, only the
    /// captures of all white pawns, the squares they attack.
    pub(crate) fn white_pawn_mask(&self, i: Option<u8>) -> (r: u64)
        requires
            i matches Some(n) ==> n < 64,
        ensures
            forall|t: int|
                #[trigger] holds(r, t) == self.white_pawn_moves(
                    self.sources(i, Side::WHITE as int, PieceType::PAWN as int),
                    i is Some,
                    t,
                ),
    {
        let white_pieces = self.side_pieces(Side::WHITE);
        let black_pieces = self.side_pieces(Side::BLACK);
        let pawns_pos: u64 = match i {
            Some(n) => 1u64 << n,
            None => self.board[Side::WHITE][PieceType::PAWN],
        };
        let one_step = (pawns_pos << 8u64) & !white_pieces & !black_pieces;
        let two_step = ((one_step & RANK_2) << 8u64) & !white_pieces & !black_pieces;
        let valid_moves = one_step | two_step;
        let left_attack = (pawns_pos & NOT_FILE_0) << 7u64;
        let right_attack = (pawns_pos & NOT_FILE_7) << 9u64;
        let attacks = (left_attack | right_attack) & black_pieces;
        proof {
            lemma_holds_ops();
            assert forall|t: int| #[trigger] holds(valid_moves | attacks, t)
                == self.white_pawn_moves(pawns_pos, true, t)
                && holds(attacks, t) == self.white_pawn_moves(pawns_pos, false, t) by {
                lemma_offsets(pawns_pos, t);
                lemma_offsets(pawns_pos, t - 8);
            }
        }
        if i.is_none() {
            attacks
        } else {
            valid_moves | attacks
        }
    }

    /// The raw moves of the black pawn on `i`; without a square, only the
    /// captures of all black pawns.
    pub(crate) fn black_pawn_mask(&self, i: Option<u8>) -> (r: u64)
        requires
            i matches Some(n) ==> n < 64,
        ensures
            forall|t: int|
                #[trigger] holds(r, t) == self.black_pawn_moves(
                    self.sources(i, Side::BLACK as int, PieceType::PAWN as int),
                    i is Some,
                    t,
                ),
    {
        let white_pieces = self.side_pieces(Side::WHITE);
        let black_pieces = self.side_pieces(Side::BLACK);
        let pawns_pos: u64 = match i {
            Some(n) => 1u64 << n,
            None => self.board[Side::BLACK][PieceType::PAWN],
        };
        let one_step = (pawns_pos >> 8u64) & !black_pieces & !white_pieces;
        let two_step = ((one_step & RANK_5) >> 8u64) & !black_pieces & !white_pieces;
        let valid_moves = one_step | two_step;
        let right_attack = (pawns_pos & NOT_FILE_7) >> 7u64;
        let left_attack = (pawns_pos & NOT_FILE_0) >> 9u64;
        let attacks = (left_attack | right_attack) & white_pieces;
        proof {
            lemma_holds_ops();
            assert forall|t: int| #[trigger] holds(valid_moves | attacks, t)
                == self.black_pawn_moves(pawns_pos, true, t)
                && holds(attacks, t) == self.black_pawn_moves(pawns_pos, false, t) by {
                lemma_offsets(pawns_pos, t);
                lemma_offsets(pawns_pos, t + 8);
            }
        }
        if i.is_none() {
            attacks
        } else {
            valid_moves | attacks
        }
    }

    /// Diagonal slides from the sources for `side`.
    pub open spec fn bishop_moves(self, pos: u64, side: int, t: int) -> bool {
        slide_reach(self.side_mask(side), self.side_mask(Side::opposite(side)), pos, 4, 8, t)
    }

    /// Orthogonal slides from the sources for `side`.
    pub open spec fn rook_moves(self, pos: u64, side: int, t: int) -> bool {
        slide_reach(self.side_mask(side), self.side_mask(Side::opposite(side)), pos, 0, 4, t)
    }

    /// Slides in all eight directions from the sources for `side`.
    pub open spec fn queen_moves(self, pos: u64, side: int, t: int) -> bool {
        slide_reach(self.side_mask(side), self.side_mask(Side::opposite(side)), pos, 0, 8, t)
    }

    /// The raw diagonal rays from `piece_pos`, or from every bishop of `side`
    /// without one.
    pub(crate) fn bishop_mask(&self, piece_pos: Option<u8>, side: usize) -> (r: u64)
        requires
            side < 2,
            piece_pos matches Some(n) ==> n < 64,
        ensures
            forall|t: int|
                #[trigger] holds(r, t) == self.bishop_moves(
                    self.sources(piece_pos, side as int, PieceType::BISHOP as int),
                    side as int,
                    t,
                ),
    {
        let own_side = self.side_pieces(side);
        let opp_side = self.side_pieces(Side::get_opposite(side));
        let bitboard: u64 = match piece_pos {
            Some(n) => 1u64 << n,
            None => self.board[side][PieceType::BISHOP],
        };
        slide_all(bitboard, 4, 8, own_side, opp_side)
    }

    /// The raw orthogonal rays from `piece_pos`, or from every rook of `side`
    /// without one.
    pub(crate) fn rook_mask(&self, piece_pos: Option<u8>, side: usize) -> (r: u64)
        requires
            side < 2,
            piece_pos matches Some(n) ==> n < 64,
        ensures
            forall|t: int|
                #[trigger] holds(r, t) == self.rook_moves(
                    self.sources(piece_pos, side as int, PieceType::ROOK as int),
                    side as int,
                    t,
                ),
    {
        let own_side = self.side_pieces(side);
        let opp_side = self.side_pieces(Side::get_opposite(side));
        let bitboard: u64 = match piece_pos {
            Some(n) => 1u64 << n,
            None => self.board[side][PieceType::ROOK],
        };
        slide_all(bitboard, 0, 4, own_side, opp_side)
    }

    /// The raw rays in all eight directions from `piece_pos`, or from every
    /// queen of `side` without one.
    pub(crate) fn queen_mask(&self, piece_pos: Option<u8>, side: usize) -> (r: u64)
        requires
            side < 2,
            piece_pos matches Some(n) ==> n < 64,
        ensures
            forall|t: int|
                #[trigger] holds(r, t) == self.queen_moves(
                    self.sources(piece_pos, side as int, PieceType::QUEEN as int),
                    side as int,
                    t,
                ),
    {
        let own_side = self.side_pieces(side);
        let opp_side = self.side_pieces(Side::get_opposite(side));
        let bitboard: u64 = match piece_pos {
            Some(n) => 1u64 << n,
            None => self.board[side][PieceType::QUEEN],
        };
        slide_all(bitboard, 0, 8, own_side, opp_side)
    }

    /// King steps from `piece_pos`, each kept only when it leaves the king out
    /// of check; without a square, the raw steps of every king of `side`.
    pub fn get_king_pseudo_moves(&mut self, piece_pos: Option<u8>, side: usize) -> (r: u64)
        requires
            old(self).wf(),
            side < 2,
            piece_pos matches Some(n) ==> n < 64 && (old(self).piece_at(n as int) matches Some(p) ==> p.side
                == side),
        ensures
            *final(self) == *old(self),
            forall|t: int|
                #[trigger] holds(r, t) == (old(self).king_moves(
                    old(self).sources(piece_pos, side as int, PieceType::KING as int),
                    side as int,
                    t,
                ) && (piece_pos matches Some(n) ==> old(self).safe_after(n as int, t))),
    {
        let valid_moves = self.king_mask(piece_pos, side);
        match piece_pos {
            None => valid_moves,
            Some(n) => {
                proof {
                    let c = *self;
                    assert forall|t: int| #[trigger] holds(valid_moves, t) implies !c.occupied_by(side as int, t) by {
                        c.lemma_moves_not_own(1u64 << n, side as int, PieceType::KING as int, t);
                    }
                }
                self.get_legal_moves(n, valid_moves)
            },
        }
    }

    /// Knight jumps from `piece_pos`, each kept only when it leaves the own king
    /// out of check; without a square, the raw jumps of every knight of `side`.
    pub fn get_knight_pseudo_moves(&mut self, piece_pos: Option<u8>, side: usize) -> (r: u64)
        requires
            old(self).wf(),
            side < 2,
            piece_pos matches Some(n) ==> n < 64 && (old(self).piece_at(n as int) matches Some(p) ==> p.side
                == side),
        ensures
            *final(self) == *old(self),
            forall|t: int|
                #[trigger] holds(r, t) == (old(self).knight_moves(
                    old(self).sources(piece_pos, side as int, PieceType::KNIGHT as int),
                    side as int,
                    t,
                ) && (piece_pos matches Some(n) ==> old(self).safe_after(n as int, t))),
    {
        let valid_moves = self.knight_mask(piece_pos, side);
        match piece_pos {
            None => valid_moves,
            Some(n) => {
                proof {
                    let c = *self;
                    assert forall|t: int| #[trigger] holds(valid_moves, t) implies !c.occupied_by(side as int, t) by {
                        c.lemma_moves_not_own(1u64 << n, side as int, PieceType::KNIGHT as int, t);
                    }
                }
                self.get_legal_moves(n, valid_moves)
            },
        }
    }

    /// Diagonal rays from `piece_pos`, each square kept only when moving there
    /// leaves the own king out of check; without a square, the raw rays of
    /// every bishop of `side`.
    pub fn get_bishop_pseudo_moves(&mut self, piece_pos: Option<u8>, side: usize) -> (r: u64)
        requires
            old(self).wf(),
            side < 2,
            piece_pos matches Some(n) ==> n < 64 && (old(self).piece_at(n as int) matches Some(p) ==> p.side
                == side),
        ensures
            *final(self) == *old(self),
            forall|t: int|
                #[trigger] holds(r, t) == (old(self).bishop_moves(
                    old(self).sources(piece_pos, side as int, PieceType::BISHOP as int),
                    side as int,
                    t,
                ) && (piece_pos matches Some(n) ==> old(self).safe_after(n as int, t))),
    {
        let valid_moves = self.bishop_mask(piece_pos, side);
        match piece_pos {
            None => valid_moves,
            Some(n) => {
                proof {
                    let c = *self;
                    assert forall|t: int| #[trigger] holds(valid_moves, t) implies !c.occupied_by(side as int, t) by {
                        c.lemma_moves_not_own(1u64 << n, side as int, PieceType::BISHOP as int, t);
                    }
                }
                self.get_legal_moves(n, valid_moves)
            },
        }
    }

    /// Orthogonal rays from `piece_pos`, each square kept only when moving there
    /// leaves the own king out of check; without a square, the raw rays of
    /// every rook of `side`.
    pub fn get_rook_pseudo_moves(&mut self, piece_pos: Option<u8>, side: usize) -> (r: u64)
        requires
            old(self).wf(),
            side < 2,
            piece_pos matches Some(n) ==> n < 64 && (old(self).piece_at(n as int) matches Some(p) ==> p.side
                == side),
        ensures
            *final(self) == *old(self),
            forall|t: int|
                #[trigger] holds(r, t) == (old(self).rook_moves(
                    old(self).sources(piece_pos, side as int, PieceType::ROOK as int),
                    side as int,
                    t,
                ) && (piece_pos matches Some(n) ==> old(self).safe_after(n as int, t))),
    {
        let valid_moves = self.rook_mask(piece_pos, side);
        match piece_pos {
            None => valid_moves,
            Some(n) => {
                proof {
                    let c = *self;
                    assert forall|t: int| #[trigger] holds(valid_moves, t) implies !c.occupied_by(side as int, t) by {
                        c.lemma_moves_not_own(1u64 << n, side as int, PieceType::ROOK as int, t);
                    }
                }
                self.get_legal_moves(n, valid_moves)
            },
        }
    }

    /// Rays in all eight directions from `piece_pos`, each square kept only when
    /// moving there leaves the own king out of check; without a square, the
    /// raw rays of every queen of `side`.
    pub fn get_queen_pseudo_moves(&mut self, piece_pos: Option<u8>, side: usize) -> (r: u64)
        requires
            old(self).wf(),
            side < 2,
            piece_pos matches Some(n) ==> n < 64 && (old(self).piece_at(n as int) matches Some(p) ==> p.side
                == side),
        ensures
            *final(self) == *old(self),
            forall|t: int|
                #[trigger] holds(r, t) == (old(self).queen_moves(
                    old(self).sources(piece_pos, side as int, PieceType::QUEEN as int),
                    side as int,
                    t,
                ) && (piece_pos matches Some(n) ==> old(self).safe_after(n as int, t))),
    {
        let valid_moves = self.queen_mask(piece_pos, side);
        match piece_pos {
            None => valid_moves,
            Some(n) => {
                proof {
                    let c = *self;
                    assert forall|t: int| #[trigger] holds(valid_moves, t) implies !c.occupied_by(side as int, t) by {
                        c.lemma_moves_not_own(1u64 << n, side as int, PieceType::QUEEN as int, t);
                    }
                }
                self.get_legal_moves(n, valid_moves)
            },
        }
    }

    /// Moves of the white pawn on `i`, each kept only when it leaves the own king
    /// out of check; without a square, only the captures of all white pawns,
    /// the squares they attack.
    pub fn get_white_pawn_moves(&mut self, i: Option<u8>) -> (r: u64)
        requires
            old(self).wf(),
            i matches Some(n) ==> n < 64 && (old(self).piece_at(n as int) matches Some(p) ==> p.side
                == Side::WHITE),
        ensures
            *final(self) == *old(self),
            forall|t: int|
                #[trigger] holds(r, t) == (old(self).white_pawn_moves(
                    old(self).sources(i, Side::WHITE as int, PieceType::PAWN as int),
                    i is Some,
                    t,
                ) && (i matches Some(n) ==> old(self).safe_after(n as int, t))),
    {
        let valid_moves = self.white_pawn_mask(i);
        match i {
            None => valid_moves,
            Some(n) => {
                proof {
                    let c = *self;
                    assert forall|t: int| #[trigger] holds(valid_moves, t) implies !c.occupied_by(Side::WHITE as int, t) by {
                        c.lemma_moves_not_own(1u64 << n, Side::WHITE as int, PieceType::PAWN as int, t);
                    }
                }
                self.get_legal_moves(n, valid_moves)
            },
        }
    }

    /// Moves of the black pawn on `i`, each kept only when it leaves the own king
    /// out of check; without a square, only the captures of all black pawns,
    /// the squares they attack.
    pub fn get_black_pawn_moves(&mut self, i: Option<u8>) -> (r: u64)
        requires
            old(self).wf(),
            i matches Some(n) ==> n < 64 && (old(self).piece_at(n as int) matches Some(p) ==> p.side
                == Side::BLACK),
        ensures
            *final(self) == *old(self),
            forall|t: int|
                #[trigger] holds(r, t) == (old(self).black_pawn_moves(
                    old(self).sources(i, Side::BLACK as int, PieceType::PAWN as int),
                    i is Some,
                    t,
                ) && (i matches Some(n) ==> old(self).safe_after(n as int, t))),
    {
        let valid_moves = self.black_pawn_mask(i);
        match i {
            None => valid_moves,
            Some(n) => {
                proof {
                    let c = *self;
                    assert forall|t: int| #[trigger] holds(valid_moves, t) implies !c.occupied_by(Side::BLACK as int, t) by {
                        c.lemma_moves_not_own(1u64 << n, Side::BLACK as int, PieceType::PAWN as int, t);
                    }
                }
                self.get_legal_moves(n, valid_moves)
            },
        }
    }
}

} // verus!
