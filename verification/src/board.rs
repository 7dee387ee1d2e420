//! The board: a set of occupied squares on a six-by-six grid, kept as a bit pattern.
//!
//! Square `p` (row `p / 6`, column `p % 6`) holds a queen when bit `p` of the
//! pattern is set. The view of a [`Board`] is that pattern.

use crate::product::{cartesian_product, pairs};
use vstd::prelude::*;
use vstd::string::StringExecFns;

verus! {

/// Number of squares on the board.
pub const SQUARES: u64 = 36;

/// First bit pattern that is too large for a board.
pub const LIMIT: u64 = 0x10_0000_0000;

/// Whether bit `i` of `bits` is set.
pub open spec fn bit(bits: u64, i: u64) -> bool {
    bits & (1u64 << i) != 0
}

/// How many of the lowest `n` bits of `bits` are set.
pub open spec fn count_bits(bits: u64, n: nat) -> nat
    decreases n,
{
    if n == 0 {
        0
    } else {
        count_bits(bits, (n - 1) as nat) + if bit(bits, (n - 1) as u64) {
            1nat
        } else {
            0nat
        }
    }
}

/// Row of square `p`.
pub open spec fn row(p: u64) -> int {
    p as int / 6
}

/// Column of square `p`.
pub open spec fn col(p: u64) -> int {
    p as int % 6
}

/// Two distinct squares on one row, one column or one diagonal.
pub open spec fn attacks(p: u64, q: u64) -> bool {
    p != q && (row(p) == row(q) || col(p) == col(q) || row(p) - col(p) == row(q) - col(q) || row(p)
        + col(p) == row(q) + col(q))
}

/// How far the `k`-th diagonal step leads along the rows: the steps come in
/// pairs, from five rows back to five rows on.
pub open spec fn step_rows(k: int) -> int {
    k / 2 - 5
}

/// How far the `k`-th diagonal step leads along the columns: as far as along the
/// rows, the other way for an even `k`.
pub open spec fn step_cols(k: int) -> int {
    if k % 2 == 1 {
        k / 2 - 5
    } else {
        5 - k / 2
    }
}

/// Whether the `k`-th diagonal step from `from` moves at all and stays on the board.
pub open spec fn on_board(from: u64, k: int) -> bool {
    &&& step_rows(k) != 0
    &&& 0 <= row(from) + step_rows(k) < 6
    &&& 0 <= col(from) + step_cols(k) < 6
}

/// The square that the `k`-th diagonal step from `from` leads to.
pub open spec fn diagonal_square(from: u64, k: int) -> u64 {
    (6 * (row(from) + step_rows(k)) + col(from) + step_cols(k)) as u64
}

/// `u64::count_ones` returns the number of set bits among the 64 bits of its argument.
pub assume_specification[ u64::count_ones ](bits: u64) -> (n: u32)
    ensures
        n == count_bits(bits, 64),
;

/// `u64::count_zeros` returns the number of clear bits among the 64 bits of its argument.
pub assume_specification[ u64::count_zeros ](bits: u64) -> (n: u32)
    ensures
        n == 64 - count_bits(bits, 64),
;

/// A board of six rows of six squares. Boards compare as their bit patterns do.
#[derive(Clone, Copy, PartialEq, Eq, Structural, PartialOrd, Ord, Hash, Debug)]
pub struct Board(u64);

impl View for Board {
    type V = u64;

    closed spec fn view(&self) -> u64 {
        self.0
    }
}

impl Board {
    /// The board with the given bit pattern.
    pub closed spec fn of(bits: u64) -> Board {
        Board(bits)
    }

    /// A board uses the 36 lowest bits only.
    pub open spec fn wf(self) -> bool {
        self@ < LIMIT
    }

    /// Whether square `pos` holds a queen.
    pub open spec fn has_queen(self, pos: u64) -> bool {
        bit(self@, pos)
    }

    /// The number of queens on the board.
    pub open spec fn queens(self) -> nat {
        count_bits(self@, SQUARES as nat)
    }

    /// The board with one more queen, on square `pos`.
    pub open spec fn with_queen(self, pos: u64) -> Board {
        Board::of(self@ | (1u64 << pos))
    }

    /// Whether some queen of the board other than one on `pos` itself attacks square `pos`.
    pub open spec fn sees(self, pos: u64) -> bool {
        exists|q: u64| q < SQUARES && #[trigger] self.has_queen(q) && attacks(pos, q)
    }

    /// No two queens of the board attack each other.
    pub open spec fn peaceful(self) -> bool {
        forall|p: u64, q: u64|
            p < SQUARES && q < SQUARES && #[trigger] self.has_queen(p) && #[trigger] self.has_queen(
                q,
            ) ==> !attacks(p, q)
    }

    /// Among the squares below `n`, how many are occupied exactly when the next square is.
    pub open spec fn calm(self, n: nat) -> nat
        decreases n,
    {
        if n == 0 {
            0
        } else {
            self.calm((n - 1) as nat) + if self.has_queen((n - 1) as u64) == self.has_queen(
                n as u64,
            ) {
                1nat
            } else {
                0nat
            }
        }
    }

    /// The penalty of a board: the number of squares whose occupancy equals that of
    /// the next square, the square after the last one counting as free.
    pub open spec fn spec_penalty(self) -> nat {
        self.calm(SQUARES as nat)
    }

    /// The board without queens.
    pub fn empty() -> (b: Board)
        ensures
            b@ == 0,
            b == Board::of(0),
            b.wf(),
    {
        Board(0)
    }

    /// The board with the given bit pattern, which must fit in 36 bits.
    pub fn new(bits: u64) -> (b: Board)
        requires
            bits < LIMIT,
        ensures
            b@ == bits,
            b == Board::of(bits),
            b.wf(),
    {
        Board(bits)
    }

    /// The bit pattern of the board.
    pub fn raw(self) -> (bits: u64)
        ensures
            bits == self@,
    {
        self.0
    }

    /// The number of queens on the board.
    pub fn count_queens(self) -> (n: u32)
        requires
            self.wf(),
        ensures
            n == self.queens(),
            n <= SQUARES,
    {
        proof {
            lemma_count_bits_high(self.0, 64);
            lemma_count_bits_le(self.0, 36);
        }
        self.0.count_ones()
    }

    /// The penalty of the board: how many of its squares are occupied exactly
    /// when the next square is.
    pub fn penalty(self) -> (n: u32)
        requires
            self.wf(),
        ensures
            n == self.spec_penalty(),
            n <= SQUARES,
    {
        let gray = self.0 ^ (self.0 >> 1);
        proof {
            let bits = self.0;
            assert((bits ^ (bits >> 1)) < 0x10_0000_0000) by (bit_vector)
                requires
                    bits < 0x10_0000_0000,
            ;
            lemma_count_bits_high(gray, 64);
            lemma_count_bits_le(gray, 36);
            self.lemma_calm(36);
        }
        gray.count_zeros() - 28
    }

    /// The squares one by one, the last square first: `true` where a queen stands.
    pub fn bits(self) -> (cells: [bool; 36])
        ensures
            forall|i: int| 0 <= i < 36 ==> cells[i] == self.has_queen((35 - i) as u64),
    {
        let mut cells = [false; 36];
        let mut i: usize = 0;
        while i < 36
            invariant
                i <= 36,
                forall|k: int| 0 <= k < i ==> cells[k] == self.has_queen((35 - k) as u64),
            decreases 36 - i,
        {
            cells[i] = self.0 & (1u64 << ((36 - i - 1) as u64)) != 0;
            i += 1;
        }
        cells
    }

    /// Whether a queen on `from` is attacked: by a queen elsewhere on its column,
    /// on its row, or on a diagonal through it. The diagonals are walked by
    /// pairing every distance from five back to five on with both directions.
    pub fn has_vision(&self, from: u64) -> (r: bool)
        requires
            from < SQUARES,
        ensures
            r == self.sees(from),
    {
        let row = from / 6;
        let col = from % 6;
        let mut r: u64 = 0;
        while r < 6
            invariant
                r <= 6,
                from < 36,
                row == from / 6,
                col == from % 6,
                forall|k: u64| k < r && k != row ==> !#[trigger] self.has_queen((6 * k + col) as u64),
            decreases 6 - r,
        {
            if r != row && self.has_queen_at(6 * r + col) {
                assert(attacks(from, (6 * r + col) as u64));
                return true;
            }
            r += 1;
        }
        let mut c: u64 = 0;
        while c < 6
            invariant
                c <= 6,
                from < 36,
                row == from / 6,
                col == from % 6,
                forall|k: u64| k < c && k != col ==> !#[trigger] self.has_queen((6 * row + k) as u64),
            decreases 6 - c,
        {
            if c != col && self.has_queen_at(6 * row + c) {
                assert(attacks(from, (6 * row + c) as u64));
                return true;
            }
            c += 1;
        }
        let mut offsets: Vec<i64> = Vec::new();
        let mut d: i64 = -5;
        while d < 6
            invariant
                -5 <= d <= 6,
                offsets@.len() == d + 5,
                forall|k: int| 0 <= k < offsets@.len() ==> offsets@[k] == k - 5,
            decreases 6 - d,
        {
            offsets.push(d);
            d += 1;
        }
        let mut signs: Vec<i64> = Vec::new();
        signs.push(-1);
        signs.push(1);
        assert(offsets@.len() == 11 && signs@.len() == 2);
        assert(offsets@.len() * signs@.len() == 22) by (nonlinear_arith)
            requires
                offsets@.len() == 11,
                signs@.len() == 2,
        ;
        let steps = cartesian_product(offsets, signs);
        assert(steps@.len() == 22);
        assert forall|k: int| 0 <= k < 22 implies #[trigger] steps@[k] == ((k / 2 - 5) as i64, (2
            * (k % 2) - 1) as i64) by {
            assert(steps@[k] == pairs(offsets@, signs@)[k]);
        }
        let mut i: usize = 0;
        while i < 22
            invariant
                i <= 22,
                from < 36,
                row == from / 6,
                col == from % 6,
                steps@.len() == 22,
                forall|k: int|
                    0 <= k < 22 ==> #[trigger] steps@[k] == ((k / 2 - 5) as i64, (2 * (k % 2)
                        - 1) as i64),
                forall|k: int|
                    0 <= k < i && on_board(from, k) ==> !#[trigger] self.has_queen(
                        diagonal_square(from, k),
                    ),
            decreases 22 - i,
        {
            let (a, s) = steps[i];
            assert(steps@[i as int] == ((i as int / 2 - 5) as i64, (2 * (i as int % 2) - 1) as i64));
            assert(a * s == if s == 1 {
                a as int
            } else {
                -a as int
            }) by (nonlinear_arith)
                requires
                    s == 1 || s == -1,
            ;
            let p = a;
            let q = a * s;
            if p != 0 && q != 0 && 0 <= row as i64 + p && row as i64 + p < 6 && 0 <= col as i64 + q
                && col as i64 + q < 6 {
                let target = (6 * (row as i64 + p) + col as i64 + q) as u64;
                assert(on_board(from, i as int));
                assert(target == diagonal_square(from, i as int));
                if self.has_queen_at(target) {
                    assert(attacks(from, target));
                    return true;
                }
            }
            i += 1;
        }
        proof {
            assert forall|t: u64| t < SQUARES && self.has_queen(t) implies !attacks(from, t) by {
                let tr = t / 6;
                let tc = t % 6;
                if t != from {
                    if tc == col {
                        assert(tr != row);
                        assert(!self.has_queen((6 * tr + col) as u64));
                    } else if tr == row {
                        assert(!self.has_queen((6 * row + tc) as u64));
                    } else if tr as int - tc as int == row as int - col as int {
                        let k = 2 * (tr as int - row as int + 5) + 1;
                        assert(on_board(from, k));
                        assert(diagonal_square(from, k) == t);
                    } else if tr as int + tc as int == row as int + col as int {
                        let k = 2 * (tr as int - row as int + 5);
                        assert(on_board(from, k));
                        assert(diagonal_square(from, k) == t);
                    }
                }
            }
        }
        false
    }

    /// The board with a queen on square `pos` besides those that it has.
    pub fn place_queen(&self, pos: u64) -> (b: Board)
        requires
            pos < SQUARES,
        ensures
            b == self.with_queen(pos),
            b@ == self@ | (1u64 << pos),
            self.wf() ==> b.wf(),
            forall|q: u64| q < 64 ==> b.has_queen(q) == (q == pos || self.has_queen(q)),
            !self.has_queen(pos) ==> b.queens() == self.queens() + 1,
    {
        proof {
            self.lemma_with_queen(pos);
        }
        Board(self.0 | (1u64 << pos))
    }

    /// Whether a queen stands on square `pos`.
    pub fn has_queen_at(&self, pos: u64) -> (r: bool)
        requires
            pos < SQUARES,
        ensures
            r == self.has_queen(pos),
    {
        (self.0 & (1u64 << pos)) != 0
    }

    /// The 36 squares as text, the last square first, `1` for a queen and `0` for none.
    pub fn to_string(&self) -> (s: String)
        ensures
            s@.len() == 36,
            forall|i: int|
                0 <= i < 36 ==> s@[i] == if self.has_queen((35 - i) as u64) {
                    '1'
                } else {
                    '0'
                },
    {
        let mut s = String::new();
        let mut i: u64 = 0;
        proof {
            reveal_strlit("1");
            reveal_strlit("0");
        }
        while i < 36
            invariant
                i <= 36,
                s@.len() == i,
                "1"@ == seq!['1'],
                "0"@ == seq!['0'],
                forall|k: int|
                    0 <= k < i ==> s@[k] == if self.has_queen((35 - k) as u64) {
                        '1'
                    } else {
                        '0'
                    },
            decreases 36 - i,
        {
            if self.has_queen_at(35 - i) {
                s.append("1");
            } else {
                s.append("0");
            }
            i += 1;
        }
        s
    }

    /// Placing a queen sets one bit and leaves the others.
    pub proof fn lemma_with_queen(self, pos: u64)
        requires
            pos < SQUARES,
        ensures
            self.with_queen(pos)@ == self@ | (1u64 << pos),
            self.wf() ==> self.with_queen(pos).wf(),
            forall|q: u64|
                q < 64 ==> #[trigger] self.with_queen(pos).has_queen(q) == (q == pos
                    || self.has_queen(q)),
            !self.has_queen(pos) ==> self.with_queen(pos).queens() == self.queens() + 1,
            self.has_queen(pos) ==> self.with_queen(pos) == self,
    {
        let x = self@;
        let y = x | (1u64 << pos);
        if self.wf() {
            assert(y < 0x10_0000_0000) by (bit_vector)
                requires
                    x < 0x10_0000_0000,
                    pos < 36,
                    y == x | (1u64 << pos),
            ;
        }
        assert forall|q: u64| q < 64 implies bit(y, q) == (q == pos || bit(x, q)) by {
            lemma_bit_or(x, pos, q);
        }
        if !bit(x, pos) {
            lemma_count_bits_set(x, pos, 36);
        } else {
            assert(y == x) by (bit_vector)
                requires
                    x & (1u64 << pos) != 0,
                    y == x | (1u64 << pos),
            ;
        }
    }

    /// The bits of `x ^ (x >> 1)` mark the squares whose occupancy differs from the next.
    proof fn lemma_calm(self, n: nat)
        requires
            n <= 36,
        ensures
            self.calm(n) + count_bits(self@ ^ (self@ >> 1), n) == n,
        decreases n,
    {
        if n > 0 {
            self.lemma_calm((n - 1) as nat);
            let x = self@;
            let i = (n - 1) as u64;
            let j = n as u64;
            assert(((x ^ (x >> 1)) & (1u64 << i) != 0) == ((x & (1u64 << i) != 0) != (x & (1u64
                << j) != 0))) by (bit_vector)
                requires
                    i < 36,
                    j == i + 1,
            ;
        }
    }

    /// No more squares are calm than there are squares.
    pub proof fn lemma_calm_le(self, n: nat)
        ensures
            self.calm(n) <= n,
        decreases n,
    {
        if n > 0 {
            self.lemma_calm_le((n - 1) as nat);
        }
    }

    /// The empty board has no queen.
    pub proof fn lemma_empty()
        ensures
            Board::of(0)@ == 0,
            Board::of(0).wf(),
            Board::of(0).queens() == 0,
            forall|q: u64| q < 64 ==> !#[trigger] Board::of(0).has_queen(q),
            Board::of(0).peaceful(),
    {
        assert forall|q: u64| q < 64 implies !bit(0, q) by {
            assert(0u64 & (1u64 << q) == 0) by (bit_vector);
        }
        lemma_count_bits_zero(36);
    }

    /// A board is known by its bit pattern.
    pub proof fn lemma_of_view(self)
        ensures
            Board::of(self@) == self,
    {
    }

    /// The bit pattern of the board made from `bits` is `bits`.
    pub proof fn lemma_view_of(bits: u64)
        ensures
            Board::of(bits)@ == bits,
    {
    }
}

/// Setting bit `i` changes bit `i` and no other.
pub proof fn lemma_bit_or(x: u64, i: u64, q: u64)
    requires
        i < 64,
        q < 64,
    ensures
        bit(x | (1u64 << i), q) == (q == i || bit(x, q)),
{
    assert(((x | (1u64 << i)) & (1u64 << q) != 0) == (q == i || (x & (1u64 << q) != 0)))
        by (bit_vector)
        requires
            i < 64,
            q < 64,
    ;
}

/// No bit of zero is set.
pub proof fn lemma_count_bits_zero(n: nat)
    requires
        n <= 64,
    ensures
        count_bits(0, n) == 0,
    decreases n,
{
    if n > 0 {
        lemma_count_bits_zero((n - 1) as nat);
        let i = (n - 1) as u64;
        assert(0u64 & (1u64 << i) == 0) by (bit_vector);
    }
}

/// At most `n` of the lowest `n` bits are set.
pub proof fn lemma_count_bits_le(x: u64, n: nat)
    ensures
        count_bits(x, n) <= n,
    decreases n,
{
    if n > 0 {
        lemma_count_bits_le(x, (n - 1) as nat);
    }
}

/// A pattern below the limit has no bit set from bit 36 on.
pub proof fn lemma_count_bits_high(x: u64, n: nat)
    requires
        x < LIMIT,
        36 <= n <= 64,
    ensures
        count_bits(x, n) == count_bits(x, 36),
    decreases n,
{
    if n > 36 {
        lemma_count_bits_high(x, (n - 1) as nat);
        let i = (n - 1) as u64;
        assert(x & (1u64 << i) == 0) by (bit_vector)
            requires
                x < 0x10_0000_0000,
                36 <= i < 64,
        ;
    }
}

/// Setting a clear bit below `n` adds one to the count of the lowest `n` bits.
pub proof fn lemma_count_bits_set(x: u64, i: u64, n: nat)
    requires
        i < 64,
        n <= 64,
        !bit(x, i),
    ensures
        count_bits(x | (1u64 << i), n) == count_bits(x, n) + if i < n {
            1nat
        } else {
            0nat
        },
    decreases n,
{
    if n > 0 {
        lemma_count_bits_set(x, i, (n - 1) as nat);
        lemma_bit_or(x, i, (n - 1) as u64);
    }
}

/// Every square of the empty board is calm.
pub proof fn lemma_calm_empty(n: nat)
    requires
        n <= 36,
    ensures
        Board::of(0).calm(n) == n,
    decreases n,
{
    Board::lemma_empty();
    if n > 0 {
        lemma_calm_empty((n - 1) as nat);
    }
}

} // verus!
