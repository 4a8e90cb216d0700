//! Bitboards: a `u64` whose bit `n` stands for square `n`.
use vstd::prelude::*;

verus! {

/// Squares with file 0 cleared.
pub const NOT_FILE_0: u64 = 0xFEFE_FEFE_FEFE_FEFE;

/// Squares with file 1 cleared.
pub const NOT_FILE_1: u64 = 0xFDFD_FDFD_FDFD_FDFD;

/// Squares with file 6 cleared.
pub const NOT_FILE_6: u64 = 0xBFBF_BFBF_BFBF_BFBF;

/// Squares with file 7 cleared.
pub const NOT_FILE_7: u64 = 0x7F7F_7F7F_7F7F_7F7F;

/// The squares of rank 2.
pub const RANK_2: u64 = 0x0000_0000_00FF_0000;

/// The squares of rank 5.
pub const RANK_5: u64 = 0x0000_FF00_0000_0000;

/// Bit `n` of `b`, for a shift amount the hardware accepts.
pub open spec fn bit(b: u64, n: u64) -> bool {
    (b >> n) & 1u64 == 1u64
}

/// Square `n` is on the board and set in `b`.
pub open spec fn holds(b: u64, n: int) -> bool {
    0 <= n < 64 && bit(b, n as u64)
}

pub open spec fn rank(n: int) -> int {
    n / 8
}

pub open spec fn file(n: int) -> int {
    n % 8
}

/// Returns bit `n` of `num` as 0 or 1.
pub fn get_nth_bit(num: u64, n: u8) -> (r: u8)
    requires
        n < 64,
    ensures
        r == 0 || r == 1,
        r == 1 <==> holds(num, n as int),
{
    let r = ((num >> n) & 1) as u8;
    assert((num >> (n as u64)) & 1u64 <= 1u64) by (bit_vector);
    r
}

proof fn lemma_bit_ops()
    by (bit_vector)
    ensures
        forall|a: u64, b: u64, n: u64| n < 64 ==> #[trigger] bit(a | b, n) == (bit(a, n) || bit(b, n)),
        forall|a: u64, b: u64, n: u64| n < 64 ==> #[trigger] bit(a & b, n) == (bit(a, n) && bit(b, n)),
        forall|a: u64, n: u64| n < 64 ==> #[trigger] bit(!a, n) == !bit(a, n),
        forall|n: u64| n < 64 ==> !#[trigger] bit(0u64, n),
{
}

proof fn lemma_bit_shifts()
    by (bit_vector)
    ensures
        forall|a: u64, k: u64, n: u64|
            k < 64 && n < 64 ==> #[trigger] bit(a << k, n) == (n >= k && bit(a, (n - k) as u64)),
        forall|a: u64, k: u64, n: u64|
            k < 64 && n < 64 ==> #[trigger] bit(a >> k, n) == (n + k < 64 && bit(a, (n + k) as u64)),
        forall|m: u64, n: u64| m < 64 && n < 64 ==> #[trigger] bit(1u64 << m, n) == (m == n),
{
}

proof fn lemma_bit_masks()
    by (bit_vector)
    ensures
        forall|n: u64| n < 64 ==> #[trigger] bit(NOT_FILE_0, n) == (n % 8 != 0),
        forall|n: u64| n < 64 ==> #[trigger] bit(NOT_FILE_1, n) == (n % 8 != 1),
        forall|n: u64| n < 64 ==> #[trigger] bit(NOT_FILE_6, n) == (n % 8 != 6),
        forall|n: u64| n < 64 ==> #[trigger] bit(NOT_FILE_7, n) == (n % 8 != 7),
        forall|n: u64| n < 64 ==> #[trigger] bit(RANK_2, n) == (n / 8 == 2),
        forall|n: u64| n < 64 ==> #[trigger] bit(RANK_5, n) == (n / 8 == 5),
{
}

/// How the bitwise operators act on the squares of a bitboard.
pub proof fn lemma_holds_ops()
    ensures
        forall|a: u64, b: u64, n: int| #[trigger] holds(a | b, n) == (holds(a, n) || holds(b, n)),
        forall|a: u64, b: u64, n: int| #[trigger] holds(a & b, n) == (holds(a, n) && holds(b, n)),
        forall|a: u64, n: int| #[trigger] holds(!a, n) == (0 <= n < 64 && !(holds(a, n))),
        forall|n: int| #[trigger] holds(0u64, n) == false,
        forall|a: u64, k: u64, n: int|
            k < 64 ==> #[trigger] holds(a << k, n) == (n < 64 && n - k >= 0 && holds(a, n - k)),
        forall|a: u64, k: u64, n: int| k < 64 ==> #[trigger] holds(a >> k, n) == (n >= 0 && holds(a, n + k)),
        forall|m: u64, n: int| m < 64 ==> #[trigger] holds(1u64 << m, n) == (n == m),
        forall|n: int| #[trigger] holds(NOT_FILE_0, n) == (0 <= n < 64 && file(n) != 0),
        forall|n: int| #[trigger] holds(NOT_FILE_1, n) == (0 <= n < 64 && file(n) != 1),
        forall|n: int| #[trigger] holds(NOT_FILE_6, n) == (0 <= n < 64 && file(n) != 6),
        forall|n: int| #[trigger] holds(NOT_FILE_7, n) == (0 <= n < 64 && file(n) != 7),
        forall|n: int| #[trigger] holds(RANK_2, n) == (0 <= n < 64 && rank(n) == 2),
        forall|n: int| #[trigger] holds(RANK_5, n) == (0 <= n < 64 && rank(n) == 5),
{
    lemma_bit_ops();
    lemma_bit_shifts();
    lemma_bit_masks();
    assert forall|a: u64, k: u64, n: int| k < 64 implies #[trigger] holds(a << k, n) == (n < 64 && n - k >= 0
        && holds(a, n - k)) by {
        if 0 <= n < 64 {
            assert(bit(a << k, n as u64) == (n >= k && bit(a, (n - k) as u64)));
        }
    }
    assert forall|a: u64, k: u64, n: int| k < 64 implies #[trigger] holds(a >> k, n) == (n >= 0
        && holds(a, n + k)) by {
        if 0 <= n < 64 {
            assert(bit(a >> k, n as u64) == (n + k < 64 && bit(a, (n + k) as u64)));
        }
    }
}

proof fn lemma_shift_scan(x: u64, k: u64)
    requires
        k < 64,
        (x >> k) != 0,
    ensures
        exists|n: int| k <= n < 64 && #[trigger] holds(x, n),
    decreases 64 - k,
{
    if bit(x, k) {
        assert(holds(x, k as int));
    } else {
        assert((x >> k) != 0 && !bit(x, k) && k < 64 ==> k < 63 && (x >> ((k + 1) as u64)) != 0)
            by (bit_vector);
        lemma_shift_scan(x, (k + 1) as u64);
    }
}

/// A bitboard is nonzero exactly when some square is set in it.
pub proof fn lemma_nonzero(x: u64)
    ensures
        x != 0 <==> exists|n: int| #[trigger] holds(x, n),
{
    if x != 0 {
        assert(x >> 0u64 == x) by (bit_vector);
        lemma_shift_scan(x, 0);
    }
    assert forall|n: int| #[trigger] holds(x, n) implies x != 0 by {
        let m = n as u64;
        assert(bit(x, m) ==> x != 0) by (bit_vector);
    }
}

} // verus!
