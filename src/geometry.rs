//! Squares as ranks and files, and how pieces travel between them.
use vstd::prelude::*;
use crate::bits::{holds, rank, file};

verus! {

/// Moving `dr` ranks and `df` files from square `n` stays on the board.
pub open spec fn lands(n: int, dr: int, df: int) -> bool {
    &&& 0 <= n < 64
    &&& 0 <= rank(n) + dr < 8
    &&& 0 <= file(n) + df < 8
}

/// Some square of `pos` reaches `t` by moving `dr` ranks and `df` files.
pub open spec fn reached_by(pos: u64, t: int, dr: int, df: int) -> bool {
    lands(t - 8 * dr - df, dr, df) && holds(pos, t - 8 * dr - df)
}

/// `t` is one king step away from some square of `pos`.
pub open spec fn king_reach(pos: u64, t: int) -> bool {
    ||| reached_by(pos, t, 1, -1)
    ||| reached_by(pos, t, 1, 0)
    ||| reached_by(pos, t, 1, 1)
    ||| reached_by(pos, t, 0, 1)
    ||| reached_by(pos, t, -1, 1)
    ||| reached_by(pos, t, -1, 0)
    ||| reached_by(pos, t, -1, -1)
    ||| reached_by(pos, t, 0, -1)
}

/// `t` is one knight jump away from some square of `pos`.
pub open spec fn knight_reach(pos: u64, t: int) -> bool {
    ||| reached_by(pos, t, 1, -2)
    ||| reached_by(pos, t, 2, -1)
    ||| reached_by(pos, t, 2, 1)
    ||| reached_by(pos, t, 1, 2)
    ||| reached_by(pos, t, -1, 2)
    ||| reached_by(pos, t, -2, 1)
    ||| reached_by(pos, t, -2, -1)
    ||| reached_by(pos, t, -1, -2)
}

/// Rank change of ray direction `d`: the four orthogonal directions are
/// `0..4`, the four diagonal ones `4..8`.
pub open spec fn dir_rank(d: int) -> int {
    if d == 0 || d == 4 || d == 5 {
        1
    } else if d == 1 || d == 6 || d == 7 {
        -1
    } else {
        0
    }
}

/// File change of ray direction `d`.
pub open spec fn dir_file(d: int) -> int {
    if d == 2 || d == 4 || d == 6 {
        1
    } else if d == 3 || d == 5 || d == 7 {
        -1
    } else {
        0
    }
}

/// The square `k` steps from `n` in direction `d`.
pub open spec fn walk(n: int, d: int, k: nat) -> int
    decreases k,
{
    if k == 0 {
        n
    } else {
        walk(n, d, (k - 1) as nat) + 8 * dir_rank(d) + dir_file(d)
    }
}

/// All of the first `k` steps from `n` in direction `d` stay on the board.
pub open spec fn walk_ok(n: int, d: int, k: nat) -> bool
    decreases k,
{
    if k == 0 {
        0 <= n < 64
    } else {
        walk_ok(n, d, (k - 1) as nat) && lands(walk(n, d, (k - 1) as nat), dir_rank(d), dir_file(d))
    }
}

/// A piece on `n` sliding in direction `d` reaches `t` within seven steps:
/// every square before `t` is empty and `t` is not held by its own side.
pub open spec fn slides(own: u64, opp: u64, n: int, d: int, t: int) -> bool {
    exists|k: nat|
        1 <= k <= 7 && walk_ok(n, d, k) && #[trigger] walk(n, d, k) == t && !holds(own, t) && forall|j: nat|
            1 <= j < k ==> !holds(own, #[trigger] walk(n, d, j)) && !holds(opp, walk(n, d, j))
}

/// A piece on `n` slides to `t` in one of the directions `lo..hi`.
pub open spec fn dirs_reach(own: u64, opp: u64, n: int, lo: int, hi: int, t: int) -> bool {
    exists|d: int| lo <= d < hi && #[trigger] slides(own, opp, n, d, t)
}

/// Some square of `pos` slides to `t` in one of the directions `lo..hi`.
pub open spec fn slide_reach(own: u64, opp: u64, pos: u64, lo: int, hi: int, t: int) -> bool {
    exists|n: int| holds(pos, n) && #[trigger] dirs_reach(own, opp, n, lo, hi, t)
}

/// `t` is one of the first `m` squares from `n` in direction `d`.
pub open spec fn ray_prefix(n: int, d: int, m: nat, t: int) -> bool {
    exists|i: nat| 1 <= i <= m && #[trigger] walk(n, d, i) == t
}

/// A walk that stays on the board for `k` steps does so for fewer.
pub proof fn lemma_walk_ok_prefix(n: int, d: int, j: nat, k: nat)
    requires
        walk_ok(n, d, k),
        j <= k,
    ensures
        walk_ok(n, d, j),
    decreases k,
{
    if j < k {
        lemma_walk_ok_prefix(n, d, j, (k - 1) as nat);
    }
}

/// Where a ray stops: after `m` steps on the board, the first `m - 1` of them
/// empty and the `m`-th not held by the mover, it stops once it has made
/// seven steps, takes an opponent piece, or the next step leaves the board or
/// meets the mover's own piece. It then reaches exactly its first `m` squares.
pub proof fn lemma_slide_stop(own: u64, opp: u64, n: int, d: int, m: nat)
    requires
        walk_ok(n, d, m),
        m <= 7,
        forall|i: nat| 1 <= i < m ==> !holds(own, #[trigger] walk(n, d, i)) && !holds(opp, walk(n, d, i)),
        m >= 1 ==> !holds(own, walk(n, d, m)),
        m == 7 || (m >= 1 && holds(opp, walk(n, d, m))) || !walk_ok(n, d, m + 1) || holds(
            own,
            walk(n, d, m + 1),
        ),
    ensures
        forall|t: int| #[trigger] slides(own, opp, n, d, t) == ray_prefix(n, d, m, t),
{
    assert forall|t: int| #[trigger] slides(own, opp, n, d, t) == ray_prefix(n, d, m, t) by {
        if ray_prefix(n, d, m, t) {
            let i = choose|i: nat| 1 <= i <= m && #[trigger] walk(n, d, i) == t;
            lemma_walk_ok_prefix(n, d, i, m);
            assert(1 <= i <= 7 && walk_ok(n, d, i) && walk(n, d, i) == t && !holds(own, t));
        }
        if slides(own, opp, n, d, t) {
            let k = choose|k: nat|
                1 <= k <= 7 && walk_ok(n, d, k) && #[trigger] walk(n, d, k) == t && !holds(own, t)
                    && forall|j: nat|
                    1 <= j < k ==> !holds(own, #[trigger] walk(n, d, j)) && !holds(opp, walk(n, d, j));
            if k > m {
                if m >= 1 && holds(opp, walk(n, d, m)) {
                    assert(!holds(opp, walk(n, d, m)));
                } else if m == 7 {
                } else if !walk_ok(n, d, m + 1) {
                    lemma_walk_ok_prefix(n, d, m + 1, k);
                } else {
                    if k > m + 1 {
                        assert(!holds(own, walk(n, d, m + 1)));
                    }
                }
            }
            assert(1 <= k <= m && walk(n, d, k) == t);
        }
    }
}

} // verus!
