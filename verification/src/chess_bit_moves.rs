//! Bitboards of the squares that a chess piece reaches from a square, and
//! three ways to count the bits of a word.

use std::collections::HashMap;
use vstd::prelude::*;

verus! {

/// Whether the bit `b` of `m` is set.
pub open spec fn bit(m: u64, b: u64) -> bool {
    (m >> b) & 1 == 1
}

/// The number of bits set in `n`.
pub open spec fn popcount(n: nat) -> nat
    decreases n,
{
    if n == 0 {
        0
    } else {
        n % 2 + popcount(n / 2)
    }
}

/// The distance between two rows or two columns.
pub open spec fn gap(a: int, b: int) -> int {
    if a < b {
        b - a
    } else {
        a - b
    }
}

/// A king on square `p` reaches the square `b`: a neighbour in any
/// direction.
pub open spec fn king_reach(p: int, b: int) -> bool {
    p != b && gap(p / 8, b / 8) <= 1 && gap(p % 8, b % 8) <= 1
}

/// A knight on square `p` reaches the square `b`: one step along one axis
/// and two along the other.
pub open spec fn knight_reach(p: int, b: int) -> bool {
    (gap(p / 8, b / 8) == 1 && gap(p % 8, b % 8) == 2) || (gap(p / 8, b / 8) == 2 && gap(
        p % 8,
        b % 8,
    ) == 1)
}

/// A rook on square `p` reaches the square `b`: another square of its row
/// or its column.
pub open spec fn rook_reach(p: int, b: int) -> bool {
    p != b && (p / 8 == b / 8 || p % 8 == b % 8)
}

/// A bishop on square `p` reaches the square `b`: another square of one of
/// its diagonals.
pub open spec fn bishop_reach(p: int, b: int) -> bool {
    p != b && gap(p / 8, b / 8) == gap(p % 8, b % 8)
}

/// Setting bit `p` sets that bit and no other.
pub proof fn lemma_set_bit(m: u64, p: u64, b: u64)
    requires
        p < 64,
        b < 64,
    ensures
        bit(m | (1u64 << p), b) == (bit(m, b) || b == p),
{
    assert(((m | (1u64 << p)) >> b) & 1 == 1 <==> ((m >> b) & 1 == 1 || b == p)) by (bit_vector)
        requires
            p < 64,
            b < 64,
    ;
}

/// The empty board has no bit set.
pub proof fn lemma_no_bit(b: u64)
    requires
        b < 64,
    ensures
        !bit(0, b),
{
    assert((0u64 >> b) & 1 == 0) by (bit_vector);
}

/// A bit is set in the union of two boards where it is set in one of
/// them.
pub proof fn lemma_union_bit(m: u64, n: u64, b: u64)
    requires
        b < 64,
    ensures
        bit(m | n, b) == (bit(m, b) || bit(n, b)),
{
    assert(((m | n) >> b) & 1 == 1 <==> ((m >> b) & 1 == 1 || (n >> b) & 1 == 1)) by (bit_vector);
}

/// A number below 2^k has at most k bits set.
pub proof fn lemma_popcount_width(n: nat, k: nat)
    requires
        n < vstd::arithmetic::power2::pow2(k),
    ensures
        popcount(n) <= k,
    decreases k,
{
    if n != 0 {
        if k == 0 {
            vstd::arithmetic::power2::lemma2_to64();
        } else {
            vstd::arithmetic::power2::lemma_pow2_unfold(k);
            lemma_popcount_width(n / 2, (k - 1) as nat);
        }
    }
}

/// A word has at most 64 bits set.
pub proof fn lemma_popcount_bound(n: u64)
    ensures
        popcount(n as nat) <= 64,
{
    vstd::arithmetic::power2::lemma2_to64();
    lemma_popcount_width(n as nat, 64);
}

/// The number of bits set in `n`: `u64::count_ones`, which returns the
/// number of ones in the binary representation of its argument.
#[verifier::external_body]
pub(crate) fn count_ones(n: u64) -> (count: u32)
    ensures
        count == popcount(n as nat),
        count <= 64,
{
    n.count_ones()
}

/// Sets on `moves` the bit of the square one step of `(dr, dc)` from the
/// square in row `row` and column `col`, if that square is on the board.
fn step_onto(moves: u64, row: u8, col: u8, dr: i8, dc: i8) -> (out: u64)
    requires
        row < 8,
        col < 8,
        -8 < dr < 8,
        -8 < dc < 8,
    ensures
        forall|b: u64|
            b < 64 ==> (#[trigger] bit(out, b) <==> bit(moves, b) || (b / 8 == row + dr && b % 8
                == col + dc)),
{
    let new_row: i8 = row as i8 + dr;
    let new_col: i8 = col as i8 + dc;
    if 0 <= new_row && new_row < 8 && 0 <= new_col && new_col < 8 {
        let new_position: u8 = (new_row * 8 + new_col) as u8;
        let out = moves | (1u64 << new_position);
        proof {
            assert forall|b: u64| b < 64 implies (#[trigger] bit(out, b) <==> bit(moves, b) || (b
                / 8 == row + dr && b % 8 == col + dc)) by {
                lemma_set_bit(moves, new_position as u64, b);
            }
        }
        out
    } else {
        moves
    }
}

/// The squares that a king on `position` reaches, and how many they are.
pub fn king_moves(position: u8) -> (reach: (u8, u64))
    requires
        position < 64,
    ensures
        forall|b: u64| b < 64 ==> (#[trigger] bit(reach.1, b) <==> king_reach(position as int, b as int)),
        reach.0 == popcount(reach.1 as nat),
{
    let row = position / 8;
    let col = position % 8;
    let mut moves: u64 = 0;
    let rows: [i8; 8] = [-1, -1, -1, 0, 0, 1, 1, 1];
    let cols: [i8; 8] = [-1, 0, 1, -1, 1, -1, 0, 1];
    proof {
        assert forall|b: u64| b < 64 implies !#[trigger] bit(moves, b) by {
            lemma_no_bit(b);
        }
    }
    let mut i: usize = 0;
    while i < 8
        invariant
            i <= 8,
            row == position / 8,
            col == position % 8,
            position < 64,
            rows@ == seq![-1i8, -1i8, -1i8, 0i8, 0i8, 1i8, 1i8, 1i8],
            cols@ == seq![-1i8, 0i8, 1i8, -1i8, 1i8, -1i8, 0i8, 1i8],
            forall|b: u64|
                b < 64 ==> (#[trigger] bit(moves, b) <==> exists|k: int|
                    0 <= k < i && b / 8 == row + #[trigger] rows@[k] && b % 8 == col + cols@[k]),
        decreases 8 - i,
    {
        let ghost before = moves;
        moves = step_onto(moves, row, col, rows[i], cols[i]);
        proof {
            assert forall|b: u64| b < 64 implies (#[trigger] bit(moves, b) <==> exists|k: int|
                0 <= k < i + 1 && b / 8 == row + #[trigger] rows@[k] && b % 8 == col + cols@[k]) by {
                if bit(before, b) {
                    let k = choose|k: int|
                        0 <= k < i && b / 8 == row + #[trigger] rows@[k] && b % 8 == col + cols@[k];
                    assert(0 <= k < i + 1 && b / 8 == row + rows@[k] && b % 8 == col + cols@[k]);
                }
                if b / 8 == row + rows@[i as int] && b % 8 == col + cols@[i as int] {
                    assert(0 <= i < i + 1);
                }
            }
        }
        i += 1;
    }
    proof {
        assert forall|b: u64| b < 64 implies (#[trigger] bit(moves, b) <==> king_reach(
            position as int,
            b as int,
        )) by {
            let dr = b / 8 - row;
            let dc = b % 8 - col;
            if king_reach(position as int, b as int) {
                let k: int = if dr == -1 {
                    dc + 1
                } else if dr == 0 {
                    if dc == -1 {
                        3
                    } else {
                        4
                    }
                } else {
                    dc + 6
                };
                assert(b / 8 == row + rows@[k] && b % 8 == col + cols@[k]);
            }
        }
        lemma_popcount_bound(moves);
    }
    let move_count = count_ones(moves) as u8;
    (move_count, moves)
}

/// The knight's reach as shifts of its own bit, each masked so that it
/// does not wrap around the edge of the board.
proof fn lemma_knight_bits(p: u64, b: u64)
    requires
        p < 64,
        b < 64,
    ensures
        bit(
            0x3F3F3F3F3F3F3F3Fu64 & ((1u64 << p) << 6 | (1u64 << p) >> 10) | 0x7F7F7F7F7F7F7F7Fu64 & (
            (1u64 << p) << 15 | (1u64 << p) >> 17) | 0xFEFEFEFEFEFEFEFEu64 & ((1u64 << p) << 17 | (
            1u64 << p) >> 15) | 0xFCFCFCFCFCFCFCFCu64 & ((1u64 << p) << 10 | (1u64 << p) >> 6),
            b,
        ) == knight_reach(p as int, b as int),
{
    let m = 0x3F3F3F3F3F3F3F3Fu64 & ((1u64 << p) << 6 | (1u64 << p) >> 10) | 0x7F7F7F7F7F7F7F7Fu64
        & ((1u64 << p) << 15 | (1u64 << p) >> 17) | 0xFEFEFEFEFEFEFEFEu64 & ((1u64 << p) << 17 | (
    1u64 << p) >> 15) | 0xFCFCFCFCFCFCFCFCu64 & ((1u64 << p) << 10 | (1u64 << p) >> 6);
    let pr = p / 8;
    let pc = p % 8;
    let br = b / 8;
    let bc = b % 8;
    assert((m >> b) & 1 == 1 <==> ((pr + 1 == br || br + 1 == pr) && (pc + 2 == bc || bc + 2 == pc))
        || ((pr + 2 == br || br + 2 == pr) && (pc + 1 == bc || bc + 1 == pc))) by (bit_vector)
        requires
            p < 64,
            b < 64,
            pr == p / 8,
            pc == p % 8,
            br == b / 8,
            bc == b % 8,
            m == 0x3F3F3F3F3F3F3F3Fu64 & ((1u64 << p) << 6 | (1u64 << p) >> 10)
                | 0x7F7F7F7F7F7F7F7Fu64 & ((1u64 << p) << 15 | (1u64 << p) >> 17)
                | 0xFEFEFEFEFEFEFEFEu64 & ((1u64 << p) << 17 | (1u64 << p) >> 15)
                | 0xFCFCFCFCFCFCFCFCu64 & ((1u64 << p) << 10 | (1u64 << p) >> 6),
    ;
}

/// The squares that a knight on `position` reaches, and how many they
/// are.
pub fn knight_moves(position: u8) -> (reach: (u8, u64))
    requires
        position < 64,
    ensures
        forall|b: u64|
            b < 64 ==> (#[trigger] bit(reach.1, b) <==> knight_reach(position as int, b as int)),
        reach.0 == popcount(reach.1 as nat),
{
    let knight_bits = 1u64 << position;
    let moves = 0x3F3F3F3F3F3F3F3Fu64 & (knight_bits << 6 | knight_bits >> 10)
        | 0x7F7F7F7F7F7F7F7Fu64 & (knight_bits << 15 | knight_bits >> 17) | 0xFEFEFEFEFEFEFEFEu64 & (
    knight_bits << 17 | knight_bits >> 15) | 0xFCFCFCFCFCFCFCFCu64 & (knight_bits << 10
        | knight_bits >> 6);
    proof {
        assert forall|b: u64| b < 64 implies (#[trigger] bit(moves, b) <==> knight_reach(
            position as int,
            b as int,
        )) by {
            lemma_knight_bits(position as u64, b);
        }
        lemma_popcount_bound(moves);
    }
    let move_count = count_ones(moves) as u8;
    (move_count, moves)
}

/// The squares that a rook on `position` reaches on an empty board, and
/// how many they are.
pub fn rook_moves(position: u8) -> (reach: (u8, u64))
    requires
        position < 64,
    ensures
        forall|b: u64|
            b < 64 ==> (#[trigger] bit(reach.1, b) <==> rook_reach(position as int, b as int)),
        reach.0 == popcount(reach.1 as nat),
{
    let row = position / 8;
    let col = position % 8;
    let mut moves: u64 = 0;
    proof {
        assert forall|b: u64| b < 64 implies !#[trigger] bit(moves, b) by {
            lemma_no_bit(b);
        }
    }
    let mut c: u8 = 0;
    while c < 8
        invariant
            c <= 8,
            row == position / 8,
            col == position % 8,
            position < 64,
            forall|b: u64|
                b < 64 ==> (#[trigger] bit(moves, b) <==> b / 8 == row && b % 8 != col && b % 8
                    < c),
        decreases 8 - c,
    {
        if c != col {
            let ghost before = moves;
            moves = moves | (1u64 << (row * 8 + c));
            proof {
                assert forall|b: u64| b < 64 implies (#[trigger] bit(moves, b) <==> b / 8 == row
                    && b % 8 != col && b % 8 < c + 1) by {
                    lemma_set_bit(before, (row * 8 + c) as u64, b);
                }
            }
        }
        c += 1;
    }
    let mut r: u8 = 0;
    while r < 8
        invariant
            r <= 8,
            row == position / 8,
            col == position % 8,
            position < 64,
            forall|b: u64|
                b < 64 ==> (#[trigger] bit(moves, b) <==> (b / 8 == row && b % 8 != col) || (b % 8
                    == col && b / 8 != row && b / 8 < r)),
        decreases 8 - r,
    {
        if r != row {
            let ghost before = moves;
            moves = moves | (1u64 << (r * 8 + col));
            proof {
                assert forall|b: u64| b < 64 implies (#[trigger] bit(moves, b) <==> (b / 8 == row
                    && b % 8 != col) || (b % 8 == col && b / 8 != row && b / 8 < r + 1)) by {
                    lemma_set_bit(before, (r * 8 + col) as u64, b);
                }
            }
        }
        r += 1;
    }
    proof {
        lemma_popcount_bound(moves);
    }
    let move_count = count_ones(moves) as u8;
    (move_count, moves)
}

/// Whether the square `b` lies on the ray that leaves the square in row
/// `row` and column `col` diagonally, upward or downward and to the left
/// or to the right.
pub open spec fn on_ray(row: int, col: int, down: bool, right: bool, b: int) -> bool {
    let dr = if down {
        b / 8 - row
    } else {
        row - b / 8
    };
    let dc = if right {
        b % 8 - col
    } else {
        col - b % 8
    };
    dr >= 1 && dr == dc
}

/// Whether `i` steps from the row or column `x`, toward the higher numbers
/// or the lower, stay on the board.
fn has_room(x: u8, i: u8, up: bool) -> (ok: bool)
    requires
        x < 8,
        i <= 8,
    ensures
        ok == if up {
            x + i < 8
        } else {
            x >= i
        },
{
    if up {
        x + i < 8
    } else {
        x >= i
    }
}

/// Sets on `moves` the bits of the squares on one diagonal ray.
#[verifier::rlimit(40)]
fn ray(moves: u64, row: u8, col: u8, down: bool, right: bool) -> (out: u64)
    requires
        row < 8,
        col < 8,
    ensures
        forall|b: u64|
            b < 64 ==> (#[trigger] bit(out, b) <==> bit(moves, b) || on_ray(
                row as int,
                col as int,
                down,
                right,
                b as int,
            )),
{
    let mut out = moves;
    let mut i: u8 = 1;
    while i < 8 && has_room(row, i, down) && has_room(col, i, right)
        invariant
            1 <= i <= 8,
            row < 8,
            col < 8,
            forall|b: u64|
                b < 64 ==> (#[trigger] bit(out, b) <==> bit(moves, b) || (on_ray(
                    row as int,
                    col as int,
                    down,
                    right,
                    b as int,
                ) && (if down {
                    b / 8 - row
                } else {
                    row - b / 8
                }) < i)),
        decreases 8 - i,
    {
        let new_row: u8 = if down {
            row + i
        } else {
            row - i
        };
        let new_col: u8 = if right {
            col + i
        } else {
            col - i
        };
        let ghost before = out;
        out = out | (1u64 << (new_row * 8 + new_col));
        proof {
            assert forall|b: u64| b < 64 implies (#[trigger] bit(out, b) <==> bit(moves, b) || (
            on_ray(row as int, col as int, down, right, b as int) && (if down {
                b / 8 - row
            } else {
                row - b / 8
            }) < i + 1)) by {
                lemma_set_bit(before, (new_row * 8 + new_col) as u64, b);
                assert(b == new_row * 8 + new_col <==> (b / 8 == new_row && b % 8 == new_col));
                if down {
                    assert(new_row == row + i);
                } else {
                    assert(new_row == row - i);
                }
                if right {
                    assert(new_col == col + i);
                } else {
                    assert(new_col == col - i);
                }
            }
        }
        i += 1;
    }
    out
}

/// The squares that a bishop on `position` reaches on an empty board, and
/// how many they are.
pub fn bishop_moves(position: u8) -> (reach: (u8, u64))
    requires
        position < 64,
    ensures
        forall|b: u64|
            b < 64 ==> (#[trigger] bit(reach.1, b) <==> bishop_reach(position as int, b as int)),
        reach.0 == popcount(reach.1 as nat),
{
    let row = position / 8;
    let col = position % 8;
    let mut moves: u64 = 0;
    proof {
        assert forall|b: u64| b < 64 implies !#[trigger] bit(moves, b) by {
            lemma_no_bit(b);
        }
    }
    moves = ray(moves, row, col, false, false);
    moves = ray(moves, row, col, false, true);
    moves = ray(moves, row, col, true, false);
    moves = ray(moves, row, col, true, true);
    proof {
        lemma_popcount_bound(moves);
    }
    let move_count = count_ones(moves) as u8;
    (move_count, moves)
}

/// The squares that a queen on `position` reaches on an empty board, and
/// how many they are: those of a rook and those of a bishop.
pub fn queen_moves(position: u8) -> (reach: (u8, u64))
    requires
        position < 64,
    ensures
        forall|b: u64|
            b < 64 ==> (#[trigger] bit(reach.1, b) <==> rook_reach(position as int, b as int)
                || bishop_reach(position as int, b as int)),
        reach.0 == popcount(reach.1 as nat),
{
    let (_rook_move_count, rook_moves) = rook_moves(position);
    let (_bishop_move_count, bishop_moves) = bishop_moves(position);
    let combined_moves = rook_moves | bishop_moves;
    proof {
        assert forall|b: u64| b < 64 implies (#[trigger] bit(combined_moves, b) <==> rook_reach(
            position as int,
            b as int,
        ) || bishop_reach(position as int, b as int)) by {
            lemma_union_bit(rook_moves, bishop_moves, b);
        }
        lemma_popcount_bound(combined_moves);
    }
    let move_count = count_ones(combined_moves) as u8;
    (move_count, combined_moves)
}

/// Clearing the lowest set bit of a word leaves one bit less.
pub proof fn lemma_clear_lowest(n: u64)
    requires
        n != 0,
    ensures
        popcount((n & ((n - 1) as u64)) as nat) + 1 == popcount(n as nat),
    decreases n,
{
    let d = (n - 1) as u64;
    let m = n & d;
    if n % 2 == 1 {
        assert(m == d && m / 2 == n / 2 && m % 2 == 0) by (bit_vector)
            requires
                n % 2 == 1,
                d + 1 == n,
                m == n & d,
        ;
    } else {
        let h = n / 2;
        let e = (h - 1) as u64;
        assert(h != 0 && m / 2 == h & e && m % 2 == 0) by (bit_vector)
            requires
                n != 0,
                n % 2 == 0,
                h == n / 2,
                d + 1 == n,
                e + 1 == h,
                m == n & d,
        ;
        lemma_clear_lowest(h);
    }
}

/// Counts the bits of `n` by clearing the lowest set bit until none is
/// left.
pub fn count_set_bits_kernighan(n: u64) -> (count: u32)
    ensures
        count == popcount(n as nat),
{
    let mut n = n;
    let ghost start = n;
    let mut count: u32 = 0;
    proof {
        lemma_popcount_bound(n);
    }
    while n != 0
        invariant
            count + popcount(n as nat) == popcount(start as nat),
            popcount(start as nat) <= 64,
        decreases n,
    {
        let d = n - 1;
        proof {
            lemma_clear_lowest(n);
            assert(n & d < n) by (bit_vector)
                requires
                    n != 0,
                    d + 1 == n,
            ;
        }
        n = n & d;
        count += 1;
    }
    count
}

/// The number of bits set in each byte value.
pub const TABLE: [u32; 256] = [
    0, 1, 1, 2, 1, 2, 2, 3, 1, 2, 2, 3, 2, 3, 3, 4, 1, 2, 2, 3, 2, 3, 3, 4, 2, 3, 3, 4, 3, 4, 4, 5,
    1, 2, 2, 3, 2, 3, 3, 4, 2, 3, 3, 4, 3, 4, 4, 5, 2, 3, 3, 4, 3, 4, 4, 5, 3, 4, 4, 5, 4, 5, 5, 6,
    1, 2, 2, 3, 2, 3, 3, 4, 2, 3, 3, 4, 3, 4, 4, 5, 2, 3, 3, 4, 3, 4, 4, 5, 3, 4, 4, 5, 4, 5, 5, 6,
    2, 3, 3, 4, 3, 4, 4, 5, 3, 4, 4, 5, 4, 5, 5, 6, 3, 4, 4, 5, 4, 5, 5, 6, 4, 5, 5, 6, 5, 6, 6, 7,
    1, 2, 2, 3, 2, 3, 3, 4, 2, 3, 3, 4, 3, 4, 4, 5, 2, 3, 3, 4, 3, 4, 4, 5, 3, 4, 4, 5, 4, 5, 5, 6,
    2, 3, 3, 4, 3, 4, 4, 5, 3, 4, 4, 5, 4, 5, 5, 6, 3, 4, 4, 5, 4, 5, 5, 6, 4, 5, 5, 6, 5, 6, 6, 7,
    2, 3, 3, 4, 3, 4, 4, 5, 3, 4, 4, 5, 4, 5, 5, 6, 3, 4, 4, 5, 4, 5, 5, 6, 4, 5, 5, 6, 5, 6, 6, 7,
    3, 4, 4, 5, 4, 5, 5, 6, 4, 5, 5, 6, 5, 6, 6, 7, 4, 5, 5, 6, 5, 6, 6, 7, 5, 6, 6, 7, 6, 7, 7, 8,
];

/// Every entry of the table is the entry of half its index, and one more
/// where the index is odd.
proof fn lemma_table_step(i: int)
    requires
        0 <= i < 256,
    ensures
        TABLE@[i] == if i == 0 {
            0
        } else {
            TABLE@[i / 2] + i % 2
        },
{
}

/// The table holds the number of bits set in each byte value.
pub proof fn lemma_table(i: nat)
    requires
        i < 256,
    ensures
        TABLE@[i as int] == popcount(i),
    decreases i,
{
    lemma_table_step(i as int);
    if i != 0 {
        lemma_table(i / 2);
    }
}

/// 2 to the power `k`, for the bits of a byte.
pub open spec fn byte_pow(k: nat) -> nat {
    if k == 0 {
        1
    } else if k == 1 {
        2
    } else if k == 2 {
        4
    } else if k == 3 {
        8
    } else if k == 4 {
        16
    } else if k == 5 {
        32
    } else if k == 6 {
        64
    } else if k == 7 {
        128
    } else {
        256
    }
}

/// The bits set in a word are those set in its lowest `k` bits and those
/// set in the rest.
pub proof fn lemma_popcount_split(n: u64, k: nat)
    requires
        k <= 8,
    ensures
        popcount(n as nat) == popcount((n as nat) % byte_pow(k)) + popcount(
            (n as nat) / byte_pow(k),
        ),
    decreases k,
{
    if k == 0 {
        assert(popcount(0) == 0);
    } else {
        lemma_popcount_split(n / 2, (k - 1) as nat);
        if k == 1 {
            assert((n % 2) % 2 == n % 2 && (n % 2) / 2 == (n / 2) % 1 && n / 2 == (n / 2)
                / 1) by (bit_vector);
        } else if k == 2 {
            assert((n % 4) % 2 == n % 2 && (n % 4) / 2 == (n / 2) % 2 && n / 4 == (n / 2)
                / 2) by (bit_vector);
        } else if k == 3 {
            assert((n % 8) % 2 == n % 2 && (n % 8) / 2 == (n / 2) % 4 && n / 8 == (n / 2)
                / 4) by (bit_vector);
        } else if k == 4 {
            assert((n % 16) % 2 == n % 2 && (n % 16) / 2 == (n / 2) % 8 && n / 16 == (n / 2)
                / 8) by (bit_vector);
        } else if k == 5 {
            assert((n % 32) % 2 == n % 2 && (n % 32) / 2 == (n / 2) % 16 && n / 32 == (n / 2)
                / 16) by (bit_vector);
        } else if k == 6 {
            assert((n % 64) % 2 == n % 2 && (n % 64) / 2 == (n / 2) % 32 && n / 64 == (n / 2)
                / 32) by (bit_vector);
        } else if k == 7 {
            assert((n % 128) % 2 == n % 2 && (n % 128) / 2 == (n / 2) % 64 && n / 128 == (n / 2)
                / 64) by (bit_vector);
        } else if k == 8 {
            assert((n % 256) % 2 == n % 2 && (n % 256) / 2 == (n / 2) % 128 && n / 256 == (n / 2)
                / 128) by (bit_vector);
        }
        let low = (n as nat) % byte_pow(k);
        assert(popcount(low) == low % 2 + popcount(low / 2)) by {
            if low == 0 {
                assert(popcount(0) == 0);
            }
        }
        assert(popcount(n as nat) == n % 2 + popcount((n / 2) as nat)) by {
            if n == 0 {
                assert(popcount(0) == 0);
            }
        }
    }
}

/// The bits set in a word are those set in its eight bytes.
pub proof fn lemma_popcount_bytes(n: u64)
    ensures
        popcount(n as nat) == popcount((n & 0xff) as nat) + popcount(((n >> 8) & 0xff) as nat)
            + popcount(((n >> 16) & 0xff) as nat) + popcount(((n >> 24) & 0xff) as nat) + popcount(
            ((n >> 32) & 0xff) as nat,
        ) + popcount(((n >> 40) & 0xff) as nat) + popcount(((n >> 48) & 0xff) as nat) + popcount(
            ((n >> 56) & 0xff) as nat,
        ),
{
    let n1 = n >> 8;
    let n2 = n >> 16;
    let n3 = n >> 24;
    let n4 = n >> 32;
    let n5 = n >> 40;
    let n6 = n >> 48;
    let n7 = n >> 56;
    assert(n & 0xff == n % 256 && n1 == n / 256 && n1 & 0xff == n1 % 256 && n2 == n1 / 256 && n2
        & 0xff == n2 % 256 && n3 == n2 / 256 && n3 & 0xff == n3 % 256 && n4 == n3 / 256 && n4 & 0xff
        == n4 % 256 && n5 == n4 / 256 && n5 & 0xff == n5 % 256 && n6 == n5 / 256 && n6 & 0xff == n6
        % 256 && n7 == n6 / 256 && n7 & 0xff == n7 % 256 && n7 / 256 == 0) by (bit_vector)
        requires
            n1 == n >> 8,
            n2 == n >> 16,
            n3 == n >> 24,
            n4 == n >> 32,
            n5 == n >> 40,
            n6 == n >> 48,
            n7 == n >> 56,
    ;
    lemma_popcount_split(n, 8);
    lemma_popcount_split(n1, 8);
    lemma_popcount_split(n2, 8);
    lemma_popcount_split(n3, 8);
    lemma_popcount_split(n4, 8);
    lemma_popcount_split(n5, 8);
    lemma_popcount_split(n6, 8);
    lemma_popcount_split(n7, 8);
    assert(popcount(0) == 0);
}

/// Counts the bits of `n` byte by byte, from a table.
pub fn count_set_bits_table(n: u64) -> (count: u32)
    ensures
        count == popcount(n as nat),
{
    let b0 = (n & 0xff) as usize;
    let b1 = ((n >> 8) & 0xff) as usize;
    let b2 = ((n >> 16) & 0xff) as usize;
    let b3 = ((n >> 24) & 0xff) as usize;
    let b4 = ((n >> 32) & 0xff) as usize;
    let b5 = ((n >> 40) & 0xff) as usize;
    let b6 = ((n >> 48) & 0xff) as usize;
    let b7 = ((n >> 56) & 0xff) as usize;
    proof {
        lemma_popcount_bytes(n);
        assert(n & 0xff < 256 && (n >> 8) & 0xff < 256 && (n >> 16) & 0xff < 256 && (n >> 24) & 0xff
            < 256 && (n >> 32) & 0xff < 256 && (n >> 40) & 0xff < 256 && (n >> 48) & 0xff < 256 && (
        n >> 56) & 0xff < 256) by (bit_vector);
        lemma_table(b0 as nat);
        lemma_table(b1 as nat);
        lemma_table(b2 as nat);
        lemma_table(b3 as nat);
        lemma_table(b4 as nat);
        lemma_table(b5 as nat);
        lemma_table(b6 as nat);
        lemma_table(b7 as nat);
        lemma_popcount_bound(n);
    }
    TABLE[b0] + TABLE[b1] + TABLE[b2] + TABLE[b3] + TABLE[b4] + TABLE[b5] + TABLE[b6] + TABLE[b7]
}

/// Counts the bits of `n`, keeping every count it has found in `cache`.
pub fn count_set_bits_cached(n: u64, cache: &mut HashMap<u64, u32>) -> (count: u32)
    requires
        forall|k: u64| old(cache)@.contains_key(k) ==> old(cache)@[k] == popcount(k as nat),
    ensures
        count == popcount(n as nat),
        forall|k: u64| final(cache)@.contains_key(k) ==> final(cache)@[k] == popcount(k as nat),
        final(cache)@.contains_key(n),
    decreases n,
{
    broadcast use vstd::std_specs::hash::group_hash_axioms;

    match cache.get(&n) {
        Some(count) => {
            return *count;
        },
        None => {},
    }
    let count = if n == 0 {
        0
    } else {
        let d = n - 1;
        proof {
            lemma_clear_lowest(n);
            lemma_popcount_bound(n);
            assert(n & d < n) by (bit_vector)
                requires
                    n != 0,
                    d + 1 == n,
            ;
        }
        count_set_bits_cached(n & d, cache) + 1
    };
    cache.insert(n, count);
    count
}

} // verus!
