//! How many boards there can be.
//!
//! Queens at peace stand one to a row at most, so a board is known by what each of
//! its six rows holds: nothing, or a queen on one of six columns.

use crate::board::{attacks, bit, Board};
use vstd::prelude::*;
use vstd::set_lib::{lemma_int_range, lemma_len_subset, set_int_range};

verus! {

/// What row `r` of board `b` holds: 0 for no queen, else one more than the column of a queen.
#[verifier::opaque]
pub open spec fn digit(b: Board, r: int) -> int {
    if exists|c: int| 0 <= c < 6 && #[trigger] b.has_queen((6 * r + c) as u64) {
        1 + choose|c: int| 0 <= c < 6 && #[trigger] b.has_queen((6 * r + c) as u64)
    } else {
        0
    }
}

/// The six rows of a board as one number, seven values to a row.
pub open spec fn code(b: Board) -> int {
    digit(b, 0) + 7 * (digit(b, 1) + 7 * (digit(b, 2) + 7 * (digit(b, 3) + 7 * (digit(b, 4) + 7
        * digit(b, 5)))))
}

/// The lowest `n` bits of `x`.
pub open spec fn low(x: u64, n: u64) -> u64 {
    x & !(0xffff_ffff_ffff_ffffu64 << n)
}

/// Two patterns with the same lowest `n` bits are one pattern in these bits.
proof fn lemma_low(x: u64, y: u64, n: u64)
    requires
        n <= 36,
        forall|p: u64| p < n ==> #[trigger] bit(x, p) == bit(y, p),
    ensures
        low(x, n) == low(y, n),
    decreases n,
{
    if n == 0 {
        assert(x & !(0xffff_ffff_ffff_ffffu64 << 0u64) == y & !(0xffff_ffff_ffff_ffffu64 << 0u64))
            by (bit_vector);
    } else {
        let m = (n - 1) as u64;
        lemma_low(x, y, m);
        assert(bit(x, m) == bit(y, m));
        assert(x & !(0xffff_ffff_ffff_ffffu64 << n) == y & !(0xffff_ffff_ffff_ffffu64 << n))
            by (bit_vector)
            requires
                n == m + 1,
                m < 36,
                x & !(0xffff_ffff_ffff_ffffu64 << m) == y & !(0xffff_ffff_ffff_ffffu64 << m),
                (x & (1u64 << m) != 0) == (y & (1u64 << m) != 0),
        ;
    }
}

/// Two boards with queens on the same squares are one board.
pub proof fn lemma_same_squares(a: Board, b: Board)
    requires
        a.wf(),
        b.wf(),
        forall|p: u64| p < 36 ==> #[trigger] a.has_queen(p) == b.has_queen(p),
    ensures
        a == b,
{
    let x = a@;
    let y = b@;
    assert forall|p: u64| p < 36 implies #[trigger] bit(x, p) == bit(y, p) by {
        assert(a.has_queen(p) == b.has_queen(p));
    }
    lemma_low(x, y, 36);
    assert(x == y) by (bit_vector)
        requires
            x < 0x10_0000_0000,
            y < 0x10_0000_0000,
            x & !(0xffff_ffff_ffff_ffffu64 << 36u64) == y & !(0xffff_ffff_ffff_ffffu64 << 36u64),
    ;
    a.lemma_of_view();
    b.lemma_of_view();
}

/// The row of a board with queens at peace holds what its digit says.
proof fn lemma_digit(b: Board, p: u64)
    requires
        b.peaceful(),
        p < 36,
    ensures
        0 <= digit(b, p as int / 6) <= 6,
        b.has_queen(p) <==> digit(b, p as int / 6) == 1 + p as int % 6,
{
    reveal(digit);
    let r = p as int / 6;
    let c = p as int % 6;
    assert(p == (6 * r + c) as u64);
    if exists|c: int| 0 <= c < 6 && #[trigger] b.has_queen((6 * r + c) as u64) {
        let d = choose|c: int| 0 <= c < 6 && #[trigger] b.has_queen((6 * r + c) as u64);
        let q = (6 * r + d) as u64;
        if b.has_queen(p) && d != c {
            assert(attacks(p, q));
        }
    }
}

/// A digit and what stands above it are known from their sum.
proof fn lemma_split(d: int, k: int, e: int, l: int)
    requires
        0 <= d < 7,
        0 <= e < 7,
        d + 7 * k == e + 7 * l,
    ensures
        d == e,
        k == l,
{
}

/// Two boards with queens at peace and the same code are one board.
pub proof fn lemma_code(a: Board, b: Board)
    requires
        a.wf(),
        b.wf(),
        a.peaceful(),
        b.peaceful(),
        code(a) == code(b),
    ensures
        a == b,
        0 <= code(a) < 117_649,
{
    lemma_digit(a, 0);
    lemma_digit(a, 6);
    lemma_digit(a, 12);
    lemma_digit(a, 18);
    lemma_digit(a, 24);
    lemma_digit(a, 30);
    lemma_digit(b, 0);
    lemma_digit(b, 6);
    lemma_digit(b, 12);
    lemma_digit(b, 18);
    lemma_digit(b, 24);
    lemma_digit(b, 30);
    let a1 = digit(a, 1) + 7 * (digit(a, 2) + 7 * (digit(a, 3) + 7 * (digit(a, 4) + 7 * digit(
        a,
        5,
    ))));
    let b1 = digit(b, 1) + 7 * (digit(b, 2) + 7 * (digit(b, 3) + 7 * (digit(b, 4) + 7 * digit(
        b,
        5,
    ))));
    lemma_split(digit(a, 0), a1, digit(b, 0), b1);
    let a2 = digit(a, 2) + 7 * (digit(a, 3) + 7 * (digit(a, 4) + 7 * digit(a, 5)));
    let b2 = digit(b, 2) + 7 * (digit(b, 3) + 7 * (digit(b, 4) + 7 * digit(b, 5)));
    lemma_split(digit(a, 1), a2, digit(b, 1), b2);
    let a3 = digit(a, 3) + 7 * (digit(a, 4) + 7 * digit(a, 5));
    let b3 = digit(b, 3) + 7 * (digit(b, 4) + 7 * digit(b, 5));
    lemma_split(digit(a, 2), a3, digit(b, 2), b3);
    let a4 = digit(a, 4) + 7 * digit(a, 5);
    let b4 = digit(b, 4) + 7 * digit(b, 5);
    lemma_split(digit(a, 3), a4, digit(b, 3), b4);
    lemma_split(digit(a, 4), digit(a, 5), digit(b, 4), digit(b, 5));
    assert forall|p: u64| p < 36 implies #[trigger] a.has_queen(p) == b.has_queen(p) by {
        lemma_digit(a, p);
        lemma_digit(b, p);
        let r = p as int / 6;
        assert(0 <= r < 6);
        assert(digit(a, r) == digit(b, r));
    }
    lemma_same_squares(a, b);
}

/// Boards that fit in 36 bits and have their queens at peace are few: no list
/// without repeats holds more than 117649 of them.
pub proof fn lemma_census(s: Seq<Board>)
    requires
        forall|i: int| 0 <= i < s.len() ==> (#[trigger] s[i]).wf() && s[i].peaceful(),
        forall|i: int, j: int| 0 <= i < j < s.len() ==> s[i] != s[j],
    ensures
        s.len() <= 117_649,
{
    let codes = Seq::new(s.len(), |i: int| code(s[i]));
    assert forall|i: int, j: int| 0 <= i < codes.len() && 0 <= j < codes.len() && i != j implies codes[i]
        != codes[j] by {
        if codes[i] == codes[j] {
            lemma_code(s[i], s[j]);
            if i < j {
                assert(s[i] != s[j]);
            } else {
                assert(s[j] != s[i]);
            }
        }
    }
    assert(codes.no_duplicates());
    codes.unique_seq_to_set();
    lemma_int_range(0, 117_649);
    assert forall|x: int| codes.to_set().contains(x) implies set_int_range(0, 117_649).contains(
        x,
    ) by {
        let i = choose|i: int| 0 <= i < codes.len() && codes[i] == x;
        lemma_code(s[i], s[i]);
    }
    lemma_len_subset(codes.to_set(), set_int_range(0, 117_649));
}

} // verus!
