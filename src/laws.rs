//! Laws of the engine that relate several calls.
use vstd::prelude::*;
use crate::bits::{holds, lemma_holds_ops, rank, file};
use crate::chess::{Chess, EnPassant, Piece, PieceType, Side};
use crate::engine::{lemma_set_bb, lemma_square_edits, with_square, without};

verus! {

/// Every destination that `legal_moves` offers leaves the mover's king out
/// of check once the move is played: `apply` is the state that `make_move`
/// leaves, and `in_check` is what `is_in_check` then returns.
pub proof fn lemma_legal_move_escapes_check(c: Chess, i: int, turn: Option<usize>, t: int)
    requires
        c.wf(),
        0 <= i < 64,
        c.legal_move(i, turn, t),
    ensures
        c.piece_at(i) is Some,
        !c.apply(i, t).in_check(c.piece_at(i).unwrap().side as int),
{
}

/// No legal move lands on a square that the mover's own side holds.
pub proof fn lemma_legal_move_not_onto_own(c: Chess, i: int, turn: Option<usize>, t: int)
    requires
        c.wf(),
        0 <= i < 64,
        c.legal_move(i, turn, t),
    ensures
        !c.occupied_by(c.piece_at(i).unwrap().side as int, t),
{
    c.lemma_piece_at(i);
    let p = c.piece_at(i).unwrap();
    c.lemma_moves_not_own(1u64 << (i as u64), p.side as int, p.piece_type as int, t);
}

/// En passant: once a pawn of side `a` advances two ranks from `from` to the
/// empty square `x`, taking nothing, a pawn of the other side on `b`, beside
/// `x` on its rank, that moves to the square passed over takes the pawn on
/// `x`: afterwards `x` is empty and the capturing pawn stands on the square
/// passed over.
#[verifier::rlimit(40)]
pub proof fn lemma_en_passant_round_trip(c: Chess, a: usize, from: int, x: int, b: int)
    requires
        c.wf(),
        a < 2,
        0 <= from < 64,
        0 <= x < 64,
        0 <= b < 64,
        (a == Side::WHITE && x == from + 16) || (a == Side::BLACK && from == x + 16),
        c.piece_at(from) == Some(Piece { piece_type: PieceType::PAWN, side: a }),
        !c.occupied(x),
        !c.occupied((from + x) / 2),
        c.captured_square(a as int, x) is None,
        c.piece_at(b) == Some(Piece { piece_type: PieceType::PAWN, side: Side::opposite(a as int) as usize }),
        rank(b) == rank(x),
        file(b) - file(x) == 1 || file(x) - file(b) == 1,
    ensures
        ({
            let mid = (from + x) / 2;
            let after = c.apply(from, x).apply(b, mid);
            &&& !after.occupied(x)
            &&& after.piece_at(mid) == Some(
                Piece { piece_type: PieceType::PAWN, side: Side::opposite(a as int) as usize },
            )
        }),
{
    lemma_holds_ops();
    let bs = Side::opposite(a as int);
    let mid = (from + x) / 2;
    let pawn_a = Piece { piece_type: PieceType::PAWN, side: a };
    let pawn_b = Piece { piece_type: PieceType::PAWN, side: bs as usize };
    c.lemma_piece_at(from);
    c.lemma_piece_at(x);
    c.lemma_piece_at(b);
    c.lemma_piece_at(mid);
    c.lemma_apply_wf(from, x);
    let c1 = c.apply(from, x);
    // The advance: only `from` and `x` change, and the marker names `x`.
    let pb = c.bb(a as int, 0);
    lemma_set_bb(c.board, a as int, 0, with_square(without(pb, from), x));
    lemma_square_edits(pb, from);
    lemma_square_edits(without(pb, from), x);
    assert(c1.en_passant == Some(EnPassant(x as u8, mid as u8)));
    assert forall|s: int, t: int, n: int| 0 <= s < 2 && 0 <= t < 6 && n != from && n != x implies
        #[trigger] holds(c1.bb(s, t), n) == holds(c.bb(s, t), n) by {}
    assert(holds(c1.bb(a as int, 0), x));
    c1.lemma_piece_at(x);
    c1.lemma_piece_at(b);
    c1.lemma_piece_at(mid);
    assert(c1.piece_at(b) == Some(pawn_b)) by {
        assert(holds(c1.bb(bs, 0), b));
    }
    assert(!c1.occupied(mid)) by {
        if c1.occupied(mid) {
            let s = if c1.occupied_by(0, mid) { 0int } else { 1int };
            let t = choose|t: int| 0 <= t < 6 && #[trigger] holds(c1.bb(s, t), mid);
            assert(holds(c.bb(s, t), mid));
        }
    }
    assert(c1.piece_at(x) == Some(pawn_a));
    assert(c1.captured_square(bs, mid) == Some(x));
    c1.lemma_apply_wf(b, mid);
    let c2 = c1.apply(b, mid);
    // The capture: the pawn on `x` leaves, the capturing pawn goes to `mid`.
    let b1 = c1.remove_at(x);
    let qa = c1.bb(a as int, 0);
    lemma_set_bb(c1.board, a as int, 0, without(qa, x));
    lemma_square_edits(qa, x);
    let pbb = b1[bs][0];
    lemma_set_bb(b1, bs, 0, with_square(without(pbb, b), mid));
    lemma_square_edits(pbb, b);
    lemma_square_edits(without(pbb, b), mid);
    assert(holds(c2.bb(bs, 0), mid));
    c2.lemma_piece_at(mid);
    assert(!c2.occupied(x)) by {
        if c2.occupied(x) {
            let s = if c2.occupied_by(0, x) { 0int } else { 1int };
            let t = choose|t: int| 0 <= t < 6 && #[trigger] holds(c2.bb(s, t), x);
            assert(holds(b1[s][t], x));
            assert(holds(c1.bb(s, t), x));
            c1.lemma_piece_at(x);
        }
    }
}

} // verus!
